use std::path::{Path, PathBuf};

use chatbot::paths::{
    extension, file_name, join, parent, path_before, sort_paths, spans_of, starts_with, strip_prefix,
};

const PATHS: [&str; 27] = [
    "", "/", "//", "a", "/a", "a/", "a/b", "a//b", "a/./b", "./a", ".", "..", "/..", "/.", "a/..",
    "a/../b", "/a/b/c.md", "a/b.tar.gz", ".hidden", ".hidden.md", "a/.x/", "日本/語.md", "x.",
    "a.b/c", "knowledgestore2", "knowledgestore", "knowledgestore/x",
];

fn text(bytes: Vec<u8>) -> String {
    String::from_utf8(bytes).unwrap()
}

#[test]
fn components_are_those_of_the_standard_library() {
    for p in PATHS {
        let ours: Vec<String> = spans_of(p.as_bytes())
            .into_iter()
            .map(|(a, b)| text(p.as_bytes()[a..b].to_vec()))
            .collect();
        let theirs: Vec<String> = Path::new(p)
            .components()
            .map(|c| c.as_os_str().to_str().unwrap().to_string())
            .collect();
        assert_eq!(ours, theirs, "{p}");
    }
}

#[test]
fn names_extensions_and_parents_are_those_of_the_standard_library() {
    for p in PATHS {
        let path = Path::new(p);
        assert_eq!(
            file_name(p.as_bytes()).map(text),
            path.file_name().map(|n| n.to_str().unwrap().to_string()),
            "{p}"
        );
        assert_eq!(
            extension(p.as_bytes()).map(text),
            path.extension().map(|n| n.to_str().unwrap().to_string()),
            "{p}"
        );
        assert_eq!(
            parent(p.as_bytes()).map(text),
            path.parent().map(|n| n.to_str().unwrap().to_string()),
            "{p}"
        );
    }
}

#[test]
fn containment_is_that_of_the_standard_library() {
    for p in PATHS {
        for q in PATHS {
            assert_eq!(
                starts_with(p.as_bytes(), q.as_bytes()),
                Path::new(p).starts_with(q),
                "{p} {q}"
            );
            assert_eq!(
                strip_prefix(p.as_bytes(), q.as_bytes()).map(text),
                Path::new(p)
                    .strip_prefix(q)
                    .ok()
                    .map(|r| r.to_str().unwrap().to_string()),
                "{p} {q}"
            );
        }
    }
}

#[test]
fn joining_is_that_of_the_standard_library() {
    for p in PATHS {
        for q in PATHS {
            let theirs = Path::new(p).join(q);
            assert_eq!(
                text(join(p.as_bytes(), q.as_bytes())),
                theirs.to_str().unwrap(),
                "{p} {q}"
            );
        }
    }
}

#[test]
fn what_is_joined_lies_below() {
    for p in PATHS {
        for q in ["x", "a.md", ".hidden", "..", "a/b"] {
            let below = join(p.as_bytes(), q.as_bytes());
            assert!(starts_with(&below, p.as_bytes()), "{p} {q}");
        }
    }
}

#[test]
fn order_is_that_of_the_standard_library() {
    for p in PATHS {
        for q in PATHS {
            assert_eq!(
                path_before(p.as_bytes(), q.as_bytes()),
                Path::new(p) < Path::new(q),
                "{p} {q}"
            );
        }
    }
    let ours: Vec<PathBuf> = sort_paths(PATHS.iter().rev().map(|p| p.as_bytes().to_vec()).collect())
        .into_iter()
        .map(|p| PathBuf::from(text(p)))
        .collect();
    let mut theirs: Vec<PathBuf> = PATHS.iter().rev().map(PathBuf::from).collect();
    theirs.sort();
    let spelled = |list: &Vec<PathBuf>| -> Vec<String> {
        list.iter().map(|p| p.to_str().unwrap().to_string()).collect()
    };
    assert_eq!(spelled(&ours), spelled(&theirs));
}
