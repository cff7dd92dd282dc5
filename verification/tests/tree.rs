use std::path::Path;

use chatbot::files::{count_indexable, Entry, EntryKind, Walk};

fn entry(dir: &str, name: &str, kind: EntryKind) -> Entry {
    Entry {
        path: Path::new(dir).join(name).to_str().unwrap().as_bytes().to_vec(),
        name: name.as_bytes().to_vec(),
        kind,
    }
}

fn listing(dir: &str) -> Vec<Entry> {
    let file = |name: &str| entry(dir, name, EntryKind::File(1));
    let folder = |name: &str| entry(dir, name, EntryKind::Folder);
    match dir.trim_end_matches('/') {
        "/r" => vec![folder("a"), file("one.md"), file("x.bin"), folder("b"), file(".two.md"), file("two.rs")],
        "/r/a" => vec![file("one.md"), folder("b")],
        "/r/b" => vec![file("one.md"), file("three.md")],
        "/r/a/b" => vec![file("one.md")],
        _ => Vec::new(),
    }
}

fn collected(root: &str) -> Vec<String> {
    let mut walk = Walk::start(root.as_bytes());
    while let Some(dir) = walk.next_folder() {
        walk.visit(&listing(&String::from_utf8(dir).unwrap()));
    }
    walk.finish().into_iter().map(|p| String::from_utf8(p).unwrap()).collect()
}

#[test]
fn nothing_is_kept_twice() {
    for root in ["/r", "/r/"] {
        let found = collected(root);
        assert_eq!(found.len(), 6);
        let mut once = found.clone();
        once.sort();
        once.dedup();
        assert_eq!(once.len(), found.len());
        assert!(found.iter().all(|p| Path::new(p).starts_with("/r")));
    }
}

#[test]
fn the_count_is_what_the_walk_finds_right_here() {
    for root in ["/r", "/r/", "/r/a", "/r/b", "/r/a/b", "/nowhere"] {
        let here = collected(root)
            .iter()
            .filter(|p| Path::new(p).parent() == Some(Path::new(root)))
            .count();
        assert_eq!(count_indexable(&listing(root)), here, "{root}");
    }
    assert_eq!(count_indexable(&listing("/r")), 2);
}
