use chatbot::knowledge::{Chunk, Knowledge};
use chatbot::repl::{
    labelled_line, learned_text, progress_text, sources_line, ReplAction, Session,
};
use chatbot::single::Single;
use chatbot::startup::RED;

fn single(x: f32) -> Single {
    Single::from_bits(x.to_bits())
}

fn known(files: usize) -> Knowledge {
    let mut chunks: Vec<Chunk> = Vec::new();
    let mut i = files;
    while i > 0 {
        i -= 1;
        chunks.push(Chunk {
            source: format!("f{i:02}.md"),
            text: "t".to_string(),
            embedding: Vec::new(),
        });
    }
    Knowledge {
        root: "/k".to_string(),
        chunks,
    }
}

fn session(files: usize) -> Session {
    let models = vec!["m1".to_string(), "m2".to_string()];
    Session::start("m1".to_string(), models, known(files))
}

fn printed(s: &mut Session, line: &str) -> String {
    match s.react(line, Some("/home/me")) {
        ReplAction::Print { text } => text,
        _ => panic!("{line} prints"),
    }
}

fn turn(s: &mut Session) {
    let prompt = s.ask("q".to_string(), Ok(None));
    assert!(prompt.notice.is_none());
    assert_eq!(s.conclude(prompt.turn, Ok("a".to_string())), Ok(Vec::new()));
}

#[test]
fn the_greeting_says_what_is_known() {
    assert_eq!(
        session(0).greeting("http://h"),
        vec![
            "\x1b[1mrust chatbot\x1b[0m \x1b[2m// m1 @ http://h\x1b[0m",
            "\x1b[2mno files indexed yet -- try /index ~/some/folder\x1b[0m",
            "\x1b[2m/help for commands, /quit to exit\x1b[0m\n",
        ]
    );
    assert_eq!(
        session(3).greeting("http://h")[1],
        "\x1b[2mknows 3 chunks from 3 files in /k\x1b[0m"
    );
}

#[test]
fn empty_lines_and_quitting() {
    let mut s = session(0);
    assert!(matches!(s.react("  ", None), ReplAction::Nothing));
    assert!(matches!(s.react("/q", None), ReplAction::Quit));
}

#[test]
fn help_lists_the_commands() {
    let text = printed(&mut session(0), "/help");
    assert!(text.starts_with("\x1b[2m  /index <folder>  read a folder and learn what's in it\n"));
    assert!(text.ends_with("  /quit            exit (ctrl-D works too)\x1b[0m\n"));
    assert_eq!(text.lines().count(), 8);
}

#[test]
fn clearing_keeps_the_indexed_files() {
    let mut s = session(2);
    turn(&mut s);
    assert_eq!(printed(&mut s, "/clear"), "\x1b[2mcleared 2 messages\x1b[0m\n");
    assert!(s.history.is_empty());
    assert_eq!(s.knowledge.chunks.len(), 2);
}

#[test]
fn forgetting_keeps_the_conversation() {
    let mut s = session(2);
    turn(&mut s);
    match s.react("/forget", None) {
        ReplAction::Forget { text } => {
            assert_eq!(text, "\x1b[2mforgot everything from the indexed files\x1b[0m\n")
        }
        _ => panic!("expected to forget"),
    }
    assert!(s.knowledge.is_empty());
    assert_eq!(s.history.len(), 2);
}

#[test]
fn models_are_listed_and_switched() {
    let mut s = session(0);
    assert_eq!(
        printed(&mut s, "/model"),
        "\x1b[2mcurrent: \x1b[1mm1\x1b[0m\n\x1b[2m  * m1\x1b[0m\n\x1b[2m    m2\x1b[0m\n"
    );
    assert_eq!(printed(&mut s, "/model m2"), "\x1b[2mswitched to \x1b[1mm2\x1b[0m\n");
    assert_eq!(s.model, "m2");
    assert_eq!(
        printed(&mut s, "/model m3"),
        "\x1b[31mno such model:\x1b[0m m3\n\x1b[2mavailable: m1, m2\x1b[0m\n"
    );
    assert_eq!(s.model, "m2");
}

#[test]
fn indexing_needs_a_path() {
    let mut s = session(0);
    assert_eq!(printed(&mut s, "/index"), "\x1b[31musage:\x1b[0m /index <folder>\n");
    match s.react("/index ~/my notes", Some("/home/me")) {
        ReplAction::Index { path } => assert_eq!(path, b"/home/me/my notes".to_vec()),
        _ => panic!("expected to index"),
    }
    match s.react("/index ~//my notes", Some("/home/me")) {
        ReplAction::Index { path } => assert_eq!(path, b"/home/me/my notes".to_vec()),
        _ => panic!("expected to index"),
    }
}

#[test]
fn sources_are_listed_up_to_twenty() {
    assert_eq!(
        printed(&mut session(0), "/sources"),
        "\x1b[2mnothing indexed. try /index ~/some/folder\x1b[0m\n"
    );
    assert_eq!(
        printed(&mut session(2), "/sources"),
        "\x1b[2m2 chunks from 2 files, indexed from /k\x1b[0m\n\x1b[2m  f00.md\x1b[0m\n\x1b[2m  f01.md\x1b[0m\n"
    );
    let text = printed(&mut session(23), "/src");
    assert!(text.ends_with("\x1b[2m  f19.md\x1b[0m\n\x1b[2m  ... and 3 more\x1b[0m\n"));
    assert_eq!(text.lines().count(), 22);
    let twenty = printed(&mut session(20), "/src");
    assert!(twenty.ends_with("\x1b[2m  f19.md\x1b[0m\n"));
}

#[test]
fn unknown_commands_are_named() {
    assert_eq!(
        printed(&mut session(0), "/bogus x"),
        "\x1b[31munknown command:\x1b[0m /bogus \x1b[2m(try /help)\x1b[0m\n"
    );
}

#[test]
fn questions_are_looked_up_where_something_is_indexed() {
    match session(0).react(" hi ", None) {
        ReplAction::Ask { question, lookup } => {
            assert_eq!(question, "hi");
            assert!(!lookup);
        }
        _ => panic!("expected to ask"),
    }
    assert!(matches!(
        session(1).react("hi", None),
        ReplAction::Ask { lookup: true, .. }
    ));
}

#[test]
fn a_turn_that_fails_is_taken_back() {
    let mut s = session(0);
    let prompt = s.ask("q".to_string(), Ok(None));
    assert_eq!(prompt.request.len(), 1);
    assert_eq!(s.history.len(), 1);
    let end = s.conclude(prompt.turn, Err("gone".to_string()));
    assert_eq!(end, Err("gone".to_string()));
    assert!(s.history.is_empty());
}

#[test]
fn a_new_index_takes_the_place_of_the_old() {
    let mut s = session(2);
    s.learn(known(5));
    assert_eq!(s.knowledge.chunks.len(), 5);
    assert_eq!(s.model, "m1");
}

#[test]
fn lines_around_an_answer() {
    assert_eq!(sources_line(&Vec::new()), None);
    assert_eq!(
        sources_line(&vec![
            ("a.md".to_string(), single(0.56)),
            ("b.md".to_string(), single(0.5)),
        ]),
        Some("\x1b[2m  sources: a.md (0.56), b.md (0.50)\x1b[0m".to_string())
    );
    assert_eq!(
        learned_text(77, 5, single(15.04)),
        "\x1b[32mlearned\x1b[0m 77 chunks from 5 files in 15.0s"
    );
    assert_eq!(progress_text(24, 77), "\r\x1b[2m  embedded 24/77 chunks\x1b[0m");
    assert_eq!(labelled_line(RED, "error:", "x"), "\x1b[31merror:\x1b[0m x");
}
