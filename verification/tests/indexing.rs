use chatbot::error::ChatError;
use chatbot::governance::{FolderLookup, RefusalCode, Store, StoreLookup};
use chatbot::indexing::{plan_chunks, receipt, Build, IndexAction, IndexEvent, IndexRun, EMBED_BATCH};
use chatbot::single::Single;

fn single(x: f32) -> Single {
    Single::from_bits(x.to_bits())
}

fn store() -> Store {
    Store::discover(b"/srv", StoreLookup::Resolved(b"/srv/knowledgestore".to_vec())).unwrap()
}

fn inside() -> Vec<u8> {
    b"/srv/knowledgestore/notes".to_vec()
}

fn texts(n: usize) -> Vec<(Vec<u8>, String)> {
    (0..n)
        .map(|i| {
            (
                format!("/srv/knowledgestore/notes/f{i:03}.md").into_bytes(),
                format!("text {i}"),
            )
        })
        .collect()
}

fn vectors(from: usize, n: usize) -> Vec<Vec<Single>> {
    (from..from + n).map(|i| vec![single(i as f32)]).collect()
}

fn reading() -> IndexRun {
    let step = IndexRun::request(b"notes".to_vec()).step(
        &store(),
        IndexEvent::Looked {
            is_folder: true,
            found: FolderLookup::Folder(inside()),
        },
    );
    let step = step.run.step(
        &store(),
        IndexEvent::Surveyed {
            sizes: vec![Some(10)],
        },
    );
    assert!(matches!(&step.action, IndexAction::Read { folder } if *folder == inside()));
    step.run
}

#[test]
fn chunks_are_labelled_with_their_file() {
    let files = vec![
        (b"/r/a/x.md".to_vec(), "one".to_string()),
        (b"/r/empty.md".to_vec(), " \n".to_string()),
        (b"/r/b.md".to_vec(), "two\n\nthree".to_string()),
    ];
    assert_eq!(
        plan_chunks(b"/r", &files),
        vec![
            ("a/x.md".to_string(), "one".to_string()),
            ("b.md".to_string(), "two\n\nthree".to_string()),
        ]
    );
}

#[test]
fn batches_follow_one_another() {
    let mut build = Build::start(inside(), &texts(30));
    assert_eq!((build.done(), build.total()), (0, 30));
    assert_eq!(EMBED_BATCH, 24);
    let first = build.next_batch();
    assert_eq!(first.len(), 24);
    assert_eq!(first[23], "text 23");
    assert!(build.accept(vectors(0, 24)).is_ok());
    assert_eq!(build.done(), 24);
    let rest = build.next_batch();
    assert_eq!(rest.len(), 6);
    assert_eq!(rest[0], "text 24");
    assert!(build.accept(vectors(24, 6)).is_ok());
    assert!(build.next_batch().is_empty());
    let k = build.finish();
    assert_eq!(k.root, "/srv/knowledgestore/notes");
    assert_eq!(k.chunks.len(), 30);
    assert_eq!(k.chunks[29].source, "f029.md");
    assert_eq!(k.chunks[29].text, "text 29");
    assert_eq!(k.chunks[29].embedding, vec![single(29.0)]);
}

#[test]
fn a_wrong_number_of_embeddings_is_an_error() {
    let mut build = Build::start(inside(), &texts(3));
    match build.accept(vectors(0, 2)) {
        Err(ChatError::Ollama(message)) => assert_eq!(message, "expected 3 embeddings, got 2"),
        _ => panic!("expected an error"),
    }
    assert_eq!(build.done(), 0);
}

#[test]
fn a_path_that_is_no_folder_goes_no_further() {
    let step = IndexRun::request(b"/tmp/x.md".to_vec()).step(
        &store(),
        IndexEvent::Looked {
            is_folder: false,
            found: FolderLookup::Missing,
        },
    );
    assert!(matches!(step.run, IndexRun::Over));
    assert!(matches!(step.action, IndexAction::NotAFolder { path } if path == "/tmp/x.md"));
}

#[test]
fn a_folder_outside_the_store_is_never_walked() {
    let step = IndexRun::request(b"/etc".to_vec()).step(
        &store(),
        IndexEvent::Looked {
            is_folder: true,
            found: FolderLookup::Folder(b"/etc".to_vec()),
        },
    );
    assert!(matches!(step.run, IndexRun::Over));
    assert!(
        matches!(step.action, IndexAction::Refused { refusal } if refusal.code == RefusalCode::OutsideStore)
    );
}

#[test]
fn an_admitted_folder_is_surveyed_first() {
    let step = IndexRun::request(b"notes".to_vec()).step(
        &store(),
        IndexEvent::Looked {
            is_folder: true,
            found: FolderLookup::Folder(inside()),
        },
    );
    assert!(matches!(&step.action, IndexAction::Survey { folder } if *folder == inside()));
    let step = step.run.step(
        &store(),
        IndexEvent::Surveyed {
            sizes: vec![Some(1); 501],
        },
    );
    assert!(matches!(step.run, IndexRun::Over));
    assert!(
        matches!(step.action, IndexAction::Refused { refusal } if refusal.code == RefusalCode::OverBudget)
    );
}

#[test]
fn a_folder_with_nothing_to_say_is_not_learned() {
    let step = reading().step(
        &store(),
        IndexEvent::Read {
            files: vec![(b"/srv/knowledgestore/notes/a.md".to_vec(), "  ".to_string())],
        },
    );
    assert!(matches!(step.run, IndexRun::Over));
    assert!(matches!(step.action, IndexAction::NothingReadable));
}

#[test]
fn a_run_ends_with_the_whole_index() {
    let step = reading().step(&store(), IndexEvent::Read { files: texts(25) });
    assert!(step.progress.is_none());
    assert!(matches!(&step.action, IndexAction::Embed { texts } if texts.len() == 24));
    let step = step.run.step(
        &store(),
        IndexEvent::Embedded {
            vectors: vectors(0, 24),
        },
    );
    assert_eq!(step.progress, Some((24, 25)));
    assert!(matches!(&step.action, IndexAction::Embed { texts } if texts.len() == 1));
    let step = step.run.step(
        &store(),
        IndexEvent::Embedded {
            vectors: vectors(24, 1),
        },
    );
    assert_eq!(step.progress, Some((25, 25)));
    match step.action {
        IndexAction::Learned { folder, knowledge } => {
            assert_eq!(folder, inside());
            assert_eq!(knowledge.chunks.len(), 25);
            let r = receipt(folder, &knowledge, single(2.25));
            assert_eq!(
                r.describe(),
                "25 files / 25 chunks from /srv/knowledgestore/notes in 2.2s"
            );
        }
        _ => panic!("expected an index"),
    }
}

#[test]
fn a_failed_embedding_ends_the_run() {
    let step = reading().step(&store(), IndexEvent::Read { files: texts(2) });
    let step = step.run.step(
        &store(),
        IndexEvent::Failed {
            reason: "http error: gone".to_string(),
        },
    );
    assert!(matches!(step.run, IndexRun::Over));
    assert!(matches!(step.action, IndexAction::Failed { reason } if reason == "http error: gone"));

    let step = reading().step(&store(), IndexEvent::Read { files: texts(2) });
    let step = step.run.step(
        &store(),
        IndexEvent::Embedded {
            vectors: vectors(0, 5),
        },
    );
    assert!(
        matches!(step.action, IndexAction::Failed { reason } if reason == "ollama error: expected 2 embeddings, got 5")
    );
}
