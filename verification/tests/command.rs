use chatbot::command::Command;

#[test]
fn plain_text_is_a_message() {
    assert_eq!(
        Command::parse("hello there"),
        Command::Say("hello there".into())
    );
}

#[test]
fn whitespace_only_is_empty() {
    assert_eq!(Command::parse("   \t "), Command::Empty);
}

#[test]
fn aliases_resolve() {
    assert_eq!(Command::parse("/q"), Command::Quit);
    assert_eq!(Command::parse("/exit"), Command::Quit);
}

#[test]
fn model_with_and_without_argument() {
    assert_eq!(Command::parse("/model"), Command::Model(None));
    assert_eq!(
        Command::parse("/model qwen3.5:9b"),
        Command::Model(Some("qwen3.5:9b".into()))
    );
}

#[test]
fn index_captures_the_path_including_spaces() {
    assert_eq!(
        Command::parse("/index /home/me/my notes"),
        Command::Index("/home/me/my notes".into())
    );
    assert_eq!(Command::parse("/index"), Command::Index("".into()));
}

#[test]
fn knowledge_commands_resolve() {
    assert_eq!(Command::parse("/sources"), Command::Sources);
    assert_eq!(Command::parse("/forget"), Command::Forget);
}

#[test]
fn unknown_slash_command_is_captured() {
    assert_eq!(
        Command::parse("/bogus x"),
        Command::Unknown("/bogus".into())
    );
}

#[test]
fn every_alias_resolves() {
    for s in ["/help", "/h", "/?"] {
        assert_eq!(Command::parse(s), Command::Help);
    }
    for s in ["/clear", "/reset"] {
        assert_eq!(Command::parse(s), Command::Clear);
    }
    for s in ["/quit", "/exit", "/q"] {
        assert_eq!(Command::parse(s), Command::Quit);
    }
    for s in ["/m x", "/model x"] {
        assert_eq!(Command::parse(s), Command::Model(Some("x".into())));
    }
    for s in ["/i x", "/index x"] {
        assert_eq!(Command::parse(s), Command::Index("x".into()));
    }
    for s in ["/sources", "/src"] {
        assert_eq!(Command::parse(s), Command::Sources);
    }
}

#[test]
fn padding_does_not_count() {
    for line in ["/model  x", "hello", "", "/q", "/index a b"] {
        let padded = format!(" \t\u{3000}{line}\u{a0}\n ");
        assert_eq!(Command::parse(&padded), Command::parse(line));
    }
}

#[test]
fn only_the_first_whitespace_separates() {
    assert_eq!(
        Command::parse("/index\u{2003} a  b \n"),
        Command::Index("a  b".into())
    );
    assert_eq!(Command::parse("/"), Command::Unknown("/".into()));
    assert_eq!(Command::parse("/Quit"), Command::Unknown("/Quit".into()));
    assert_eq!(Command::parse("say /quit"), Command::Say("say /quit".into()));
}
