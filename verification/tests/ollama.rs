use chatbot::error::ChatError;
use chatbot::ollama::{
    check_embeddings, http_failure, Message, ReplyPart, ReplyStep, ReplyStream,
};

fn part(content: &str, done: bool) -> ReplyPart {
    ReplyPart {
        content: Some(content.to_string()),
        done,
        error: None,
    }
}

fn lines(stream: &mut ReplyStream) -> Vec<String> {
    let mut out: Vec<String> = Vec::new();
    while let Some(line) = stream.next_line() {
        out.push(line);
    }
    out
}

#[test]
fn messages_know_their_role() {
    let m = Message::user("a".to_string());
    assert_eq!((m.role.as_str(), m.content.as_str()), ("user", "a"));
    let m = Message::assistant("b".to_string());
    assert_eq!((m.role.as_str(), m.content.as_str()), ("assistant", "b"));
    let m = Message::system("c".to_string());
    assert_eq!((m.role.as_str(), m.content.as_str()), ("system", "c"));
    let again = m.again();
    assert_eq!((again.role.as_str(), again.content.as_str()), ("system", "c"));
}

#[test]
fn a_bad_status_is_an_ollama_error() {
    assert_eq!(
        http_failure("404 Not Found", "no model").describe(),
        "ollama error: HTTP 404 Not Found: no model"
    );
}

#[test]
fn the_number_of_embeddings_has_to_match() {
    assert!(check_embeddings(3, 3).is_ok());
    match check_embeddings(24, 0) {
        Err(ChatError::Ollama(m)) => assert_eq!(m, "expected 24 embeddings, got 0"),
        _ => panic!("expected an error"),
    }
}

#[test]
fn lines_are_read_however_the_bytes_are_cut() {
    let bytes = "{\"a\":\"日本\"}\n\n  \r\n{\"b\":2}\r\nrest".as_bytes();
    let expected = vec!["{\"a\":\"日本\"}".to_string(), "{\"b\":2}".to_string()];
    let mut cut: usize = 0;
    while cut <= bytes.len() {
        let mut stream = ReplyStream::new();
        stream.feed(&bytes[..cut]);
        let mut got = lines(&mut stream);
        stream.feed(&bytes[cut..]);
        got.append(&mut lines(&mut stream));
        assert_eq!(got, expected, "cut at {cut}");
        stream.feed(b" of it\n");
        assert_eq!(lines(&mut stream), vec!["rest of it".to_string()]);
        cut += 1;
    }
}

#[test]
fn invalid_bytes_are_replaced() {
    let mut stream = ReplyStream::new();
    stream.feed(b"a\xffb\n");
    assert_eq!(stream.next_line(), Some("a\u{fffd}b".to_string()));
}

#[test]
fn tokens_add_up_to_the_reply() {
    let mut stream = ReplyStream::new();
    assert!(matches!(stream.take(part("Hel", false)), ReplyStep::Going { token: Some(t) } if t == "Hel"));
    assert!(matches!(stream.take(part("", false)), ReplyStep::Going { token: None }));
    let silent = ReplyPart {
        content: None,
        done: false,
        error: None,
    };
    assert!(matches!(stream.take(silent), ReplyStep::Going { token: None }));
    match stream.take(part("lo", true)) {
        ReplyStep::Finished { token, reply } => {
            assert_eq!(token, Some("lo".to_string()));
            assert_eq!(reply, "Hello");
        }
        _ => panic!("expected the end"),
    }
}

/// A line is `x` and a token, or `.` and the last token, or anything else for an error.
fn parsed(line: &str) -> ReplyPart {
    let mut chars = line.chars();
    match chars.next() {
        Some('x') => part(chars.as_str(), false),
        Some('.') => part(chars.as_str(), true),
        _ => ReplyPart {
            content: None,
            done: false,
            error: Some(line.to_string()),
        },
    }
}

/// The tokens and the reply, or the error, of bytes that come in pieces of this size.
fn replied(bytes: &[u8], size: usize) -> (Vec<String>, Result<String, String>) {
    let mut stream = ReplyStream::new();
    let mut tokens: Vec<String> = Vec::new();
    for piece in bytes.chunks(size) {
        stream.feed(piece);
        while let Some(line) = stream.next_line() {
            match stream.take(parsed(&line)) {
                ReplyStep::Failed(e) => return (tokens, Err(e.describe())),
                ReplyStep::Going { token } => tokens.extend(token),
                ReplyStep::Finished { token, reply } => {
                    tokens.extend(token);
                    return (tokens, Ok(reply));
                }
            }
        }
    }
    (tokens, Ok(stream.finish()))
}

#[test]
fn a_whole_reply_does_not_depend_on_the_cuts() {
    let finished = "x日本\nx\n\nx語 \r\n.!\nxmore\n".as_bytes();
    let open = "x日本\nx語\nxlost".as_bytes();
    let failed = "x日本\n#broken\n.!\n".as_bytes();
    let mut size: usize = 1;
    while size <= finished.len() {
        let (tokens, reply) = replied(finished, size);
        assert_eq!(tokens, vec!["日本", "語", "!"], "pieces of {size}");
        assert_eq!(reply, Ok("日本語!".to_string()));
        assert_eq!(tokens.concat(), reply.unwrap());
        let (tokens, reply) = replied(open, size);
        assert_eq!(tokens, vec!["日本", "語"]);
        assert_eq!(reply, Ok("日本語".to_string()));
        let (tokens, reply) = replied(failed, size);
        assert_eq!(tokens, vec!["日本"]);
        assert_eq!(reply, Err("ollama error: #broken".to_string()));
        size += 1;
    }
}

#[test]
fn an_error_line_gives_the_reply_up() {
    let mut stream = ReplyStream::new();
    stream.take(part("Hel", false));
    let bad = ReplyPart {
        content: Some("lo".to_string()),
        done: true,
        error: Some("out of memory".to_string()),
    };
    match stream.take(bad) {
        ReplyStep::Failed(e) => assert_eq!(e.describe(), "ollama error: out of memory"),
        _ => panic!("expected a failure"),
    }
    assert_eq!(stream.finish(), "Hel");
}
