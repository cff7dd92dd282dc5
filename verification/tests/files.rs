use chatbot::files::{
    count_indexable, display_path, is_skipped, is_text_extension, is_text_file, listable_dirs,
    survey, Entry, EntryKind, Walk, MAX_FILE_BYTES,
};

fn entry(path: &str, kind: EntryKind) -> Entry {
    let name = path.rsplit('/').next().unwrap();
    Entry {
        path: path.as_bytes().to_vec(),
        name: name.as_bytes().to_vec(),
        kind,
    }
}

fn folder(path: &str) -> Entry {
    entry(path, EntryKind::Folder)
}

fn file(path: &str, size: u64) -> Entry {
    entry(path, EntryKind::File(size))
}

fn texts(list: Vec<Vec<u8>>) -> Vec<String> {
    list.into_iter().map(|p| String::from_utf8(p).unwrap()).collect()
}

#[test]
fn only_text_extensions_are_indexed() {
    assert!(is_text_file("a/b/notes.md".as_bytes()));
    assert!(is_text_file("main.RS".as_bytes()));
    assert!(!is_text_file("photo.png".as_bytes()));
    assert!(!is_text_file("noextension".as_bytes()));
}

#[test]
fn every_listed_extension_counts() {
    let all = [
        "md", "txt", "rst", "org", "rs", "py", "js", "ts", "jsx", "tsx", "go", "java", "c", "h",
        "cpp", "hpp", "sh", "bash", "sql", "toml", "yaml", "yml", "json", "html", "css", "csv",
        "ini", "cfg",
    ];
    for e in all {
        assert!(is_text_extension(e));
        let upper = format!("dir.d/NAME.{}", e.to_uppercase());
        assert!(is_text_file(upper.as_bytes()));
    }
    for e in ["", "mdx", "pdf", "exe", "m"] {
        assert!(!is_text_extension(e));
    }
    // The Kelvin sign is a small letter k once it is lowered, and no extension has one.
    assert!(!is_text_file("x.\u{212a}".as_bytes()));
    // An extension that is no text is no text file's.
    assert!(!is_text_file(b"x.m\xff"));
    assert!(!is_text_file(b".md"));
    assert!(is_text_file(b"x\xff.md"));
}

#[test]
fn hidden_and_build_names_are_skipped() {
    for name in [
        "target", "node_modules", "__pycache__", "venv", ".venv", "dist", "build", ".git", ".x", ".",
    ] {
        assert!(is_skipped(name), "{name}");
    }
    for name in ["Target", "targets", "src", "a.git", ""] {
        assert!(!is_skipped(name), "{name}");
    }
}

#[test]
fn citations_are_relative_to_the_indexed_folder() {
    assert_eq!(display_path(b"/k/notes", b"/k/notes/a/b.md"), "a/b.md");
    assert_eq!(display_path(b"/k/notes/", b"/k/notes/b.md"), "b.md");
    assert_eq!(display_path(b"/k/other", b"/k/notes/b.md"), "/k/notes/b.md");
    assert_eq!(display_path(b"/k", b"/k/\xff.md"), "\u{fffd}.md");
}

#[test]
fn the_picker_offers_what_the_indexer_enters() {
    let entries = vec![
        folder("/r/zeta"),
        folder("/r/.git"),
        folder("/r/target"),
        folder("/r/alpha"),
        file("/r/a.md", 3),
        entry("/r/link", EntryKind::Other),
    ];
    assert_eq!(texts(listable_dirs(&entries)), vec!["/r/alpha", "/r/zeta"]);

    let mut walk = Walk::start(b"/r");
    assert_eq!(walk.next_folder(), Some(b"/r".to_vec()));
    walk.visit(&entries);
    let mut entered: Vec<String> = Vec::new();
    while let Some(dir) = walk.next_folder() {
        entered.push(String::from_utf8(dir).unwrap());
    }
    entered.sort();
    assert_eq!(entered, vec!["/r/alpha", "/r/zeta"]);
}

#[test]
fn only_what_would_be_indexed_is_counted() {
    let entries = vec![
        file("/r/a.md", 0),
        file("/r/b.txt", MAX_FILE_BYTES),
        file("/r/big.txt", MAX_FILE_BYTES + 1),
        file("/r/photo.png", 10),
        file("/r/.secret.md", 10),
        folder("/r/c.md"),
        entry("/r/link.md", EntryKind::Other),
    ];
    assert_eq!(count_indexable(&entries), 2);
    assert_eq!(count_indexable(&Vec::new()), 0);
}

#[test]
fn a_walk_finds_every_readable_file_below_the_root() {
    let mut walk = Walk::start(b"/r");
    let mut listed: Vec<String> = Vec::new();
    while let Some(dir) = walk.next_folder() {
        let dir = String::from_utf8(dir).unwrap();
        let entries = match dir.as_str() {
            "/r" => vec![
                folder("/r/b"),
                folder("/r/node_modules"),
                file("/r/z.md", 1),
                file("/r/x.bin", 1),
            ],
            "/r/b" => vec![file("/r/b/two.rs", 1), folder("/r/b/c"), file("/r/b/one.rs", 1)],
            "/r/b/c" => vec![file("/r/b/c/.hidden.md", 1), file("/r/b/c/deep.txt", 1)],
            _ => panic!("{dir} is not to be listed"),
        };
        walk.visit(&entries);
        listed.push(dir);
    }
    assert_eq!(listed, vec!["/r", "/r/b", "/r/b/c"]);
    assert_eq!(
        texts(walk.finish()),
        vec!["/r/b/c/deep.txt", "/r/b/one.rs", "/r/b/two.rs", "/r/z.md"]
    );
}

#[test]
fn a_walk_without_folders_is_over() {
    let mut walk = Walk::start(b"/r");
    assert!(walk.next_folder().is_some());
    assert!(walk.next_folder().is_none());
    assert!(walk.finish().is_empty());
}

#[test]
fn a_survey_counts_files_and_rounds_chunks_up() {
    assert_eq!(survey(&Vec::new()), (0, 0));
    assert_eq!(survey(&vec![Some(0), None]), (2, 0));
    assert_eq!(survey(&vec![Some(1)]), (1, 1));
    assert_eq!(survey(&vec![Some(1200)]), (1, 1));
    assert_eq!(survey(&vec![Some(1200), None, Some(1)]), (3, 2));
    assert_eq!(survey(&vec![Some(4_800_000)]), (1, 4000));
}
