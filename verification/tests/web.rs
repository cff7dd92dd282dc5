use chatbot::knowledge::{Chunk, Knowledge};
use chatbot::web::{
    address, browse_elsewhere, browse_folder, browse_target, crumbs_of, entry_for, lookup_failure,
    not_a_folder, nothing_readable, set_model, status,
};

#[test]
fn the_server_stays_on_loopback() {
    assert_eq!(address(4141), "127.0.0.1:4141");
    assert_eq!(address(0), "127.0.0.1:0");
}

#[test]
fn the_status_tells_what_is_known() {
    let models = vec!["a".to_string(), "b".to_string()];
    let one = Chunk {
        source: "x.md".to_string(),
        text: "t".to_string(),
        embedding: Vec::new(),
    };
    let k = Knowledge {
        root: "/k".to_string(),
        chunks: vec![one.clone(), one],
    };
    let s = status("a", &models, &k);
    assert_eq!((s.model.as_str(), s.root.as_str()), ("a", "/k"));
    assert_eq!(s.models, models);
    assert_eq!((s.chunks, s.files), (2, 1));
}

#[test]
fn only_available_models_are_switched_to() {
    let models = vec!["a".to_string(), "b".to_string()];
    let mut model = "a".to_string();
    assert!(set_model(&mut model, &models, "b".to_string()));
    assert_eq!(model, "b");
    assert!(!set_model(&mut model, &models, "c".to_string()));
    assert_eq!(model, "b");
}

#[test]
fn what_the_page_is_told() {
    assert_eq!(lookup_failure("x"), "could not search your files: x");
    assert_eq!(not_a_folder("/x"), "not a folder: /x");
    assert_eq!(nothing_readable(), "nothing readable found there");
}

#[test]
fn the_picker_starts_at_home() {
    assert_eq!(browse_target(None, Some("/home/me")), b"/home/me".to_vec());
    assert_eq!(browse_target(Some(" /x "), Some("/home/me")), b"/x".to_vec());
    assert_eq!(browse_target(Some("~//x"), Some("/home/me")), b"/home/me/x".to_vec());
    assert_eq!(browse_target(Some("~/x"), Some("/home/me")), b"/home/me/x".to_vec());
}

#[test]
fn crumbs_lead_up_to_the_root() {
    let crumbs: Vec<(String, String, usize)> = crumbs_of(b"/home/me/x")
        .into_iter()
        .map(|e| (e.name, e.path, e.files))
        .collect();
    assert_eq!(
        crumbs,
        vec![
            ("/".to_string(), "/".to_string(), 0),
            ("home".to_string(), "/home".to_string(), 0),
            ("me".to_string(), "/home/me".to_string(), 0),
        ]
    );
    assert!(crumbs_of(b"/").is_empty());
}

#[test]
fn a_folder_is_shown_with_its_folders() {
    let folders = vec![(b"/k/a".to_vec(), 3), (b"/k/\xff".to_vec(), 0)];
    let r = browse_folder(b"/k", &folders, 7);
    assert_eq!(r.path, "/k");
    assert_eq!(r.parent, Some("/".to_string()));
    assert_eq!(r.crumbs.len(), 1);
    assert_eq!(r.files_here, 7);
    assert_eq!(r.error, None);
    assert_eq!((r.dirs[0].name.as_str(), r.dirs[0].path.as_str(), r.dirs[0].files), ("a", "/k/a", 3));
    assert_eq!(r.dirs[1].name, "\u{fffd}");
    assert_eq!(browse_folder(b"/", &Vec::new(), 0).parent, None);
}

#[test]
fn what_is_no_folder_leads_home() {
    let r = browse_elsewhere(b"/nope", b"/home/me", &vec![(b"/home/me/x".to_vec(), 1)], 2);
    assert_eq!(r.path, "/home/me");
    assert_eq!(r.parent, None);
    assert!(r.crumbs.is_empty());
    assert_eq!(r.dirs.len(), 1);
    assert_eq!(r.files_here, 2);
    assert_eq!(r.error, Some("/nope isn't a folder".to_string()));
}

#[test]
fn entries_without_a_name_have_an_empty_one() {
    assert_eq!(entry_for(b"/", 1).name, "");
    assert_eq!(entry_for(b"/a/b", 1).name, "b");
    assert_eq!(entry_for(b"/a/b", 4).files, 4);
}
