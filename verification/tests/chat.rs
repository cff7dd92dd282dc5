use chatbot::chat::{
    begin_turn, close_turn, drop_question, ground, keep_reply, look_up, open_turn, Lookup, Notice,
};
use chatbot::governance::RefusalCode;
use chatbot::knowledge::{Chunk, Knowledge, Retrieval};
use chatbot::ollama::Message;
use chatbot::single::Single;

fn single(x: f32) -> Single {
    Single::from_bits(x.to_bits())
}

fn spelled(list: &Vec<Message>) -> Vec<String> {
    list.iter().map(|m| format!("{}: {}", m.role, m.content)).collect()
}

#[test]
fn without_a_lookup_there_is_no_grounding() {
    let g = ground(Lookup::Skipped);
    assert!(g.context.is_none() && g.sources.is_empty() && g.notice.is_none());
}

#[test]
fn questions_are_looked_up_in_what_is_indexed() {
    let k = Knowledge {
        root: "/k".to_string(),
        chunks: vec![Chunk {
            source: "a.md".to_string(),
            text: "t".to_string(),
            embedding: Vec::new(),
        }],
    };
    match look_up(&k, Ok(Some(vec![single(0.5)]))) {
        Lookup::Found { retrieval } => {
            assert_eq!(retrieval.sources, vec![("a.md".to_string(), single(0.5))])
        }
        _ => panic!("expected a find"),
    }
    assert!(matches!(look_up(&k, Ok(None)), Lookup::Skipped));
    assert!(matches!(look_up(&Knowledge::default(), Ok(Some(Vec::new()))), Lookup::Skipped));
    assert!(
        matches!(look_up(&k, Err("gone".to_string())), Lookup::Failed { reason } if reason == "gone")
    );
}

#[test]
fn a_failed_lookup_is_reported() {
    let g = ground(Lookup::Failed {
        reason: "http error: x".to_string(),
    });
    assert!(g.context.is_none() && g.sources.is_empty());
    assert!(matches!(g.notice, Some(Notice::LookupFailed { reason }) if reason == "http error: x"));
}

#[test]
fn evidence_is_passed_on() {
    let g = ground(Lookup::Found {
        retrieval: Retrieval {
            context: Some("ctx".to_string()),
            sources: vec![("a.md".to_string(), single(0.5))],
            best_score: single(0.5),
        },
    });
    assert_eq!(g.context, Some("ctx".to_string()));
    assert_eq!(g.sources, vec![("a.md".to_string(), single(0.5))]);
    assert!(g.notice.is_none());
}

#[test]
fn what_is_refused_never_reaches_the_model() {
    let g = ground(Lookup::Found {
        retrieval: Retrieval {
            context: None,
            sources: Vec::new(),
            best_score: single(0.18),
        },
    });
    assert!(g.context.is_none() && g.sources.is_empty());
    match g.notice {
        Some(Notice::Refused { refusal }) => {
            assert_eq!(refusal.code, RefusalCode::NoEvidenceRetrieved);
            assert!(refusal.detail.contains("best match 0.18"));
        }
        _ => panic!("expected a refusal"),
    }
}

#[test]
fn context_goes_with_the_request_and_is_not_stored() {
    let mut history: Vec<Message> = Vec::new();
    let sent = begin_turn(&mut history, "q1".to_string(), Some("ctx".to_string()));
    assert_eq!(spelled(&sent), vec!["system: ctx", "user: q1"]);
    assert_eq!(spelled(&history), vec!["user: q1"]);
    keep_reply(&mut history, "a1".to_string());
    let sent = begin_turn(&mut history, "q2".to_string(), None);
    assert_eq!(spelled(&sent), vec!["user: q1", "assistant: a1", "user: q2"]);
    assert_eq!(spelled(&history), spelled(&sent));
}

fn indexed() -> Knowledge {
    Knowledge {
        root: "/k".to_string(),
        chunks: vec![Chunk {
            source: "a.md".to_string(),
            text: "t".to_string(),
            embedding: Vec::new(),
        }],
    }
}

#[test]
fn a_grounded_turn() {
    let mut history: Vec<Message> = Vec::new();
    let prompt = open_turn(
        &mut history,
        &indexed(),
        "q".to_string(),
        Ok(Some(vec![single(0.5)])),
    );
    assert!(prompt.notice.is_none());
    assert_eq!(prompt.request.len(), 2);
    assert_eq!(prompt.request[0].role, "system");
    assert!(prompt.request[0].content.ends_with("--- from a.md ---\nt\n\n"));
    assert_eq!(prompt.request[1].content, "q");
    let end = close_turn(&mut history, prompt.turn, Ok("a".to_string()));
    assert_eq!(end, Ok(vec![("a.md".to_string(), single(0.5))]));
    assert_eq!(spelled(&history), vec!["user: q", "assistant: a"]);
}

#[test]
fn a_turn_without_evidence_is_answered_without_files() {
    let mut history: Vec<Message> = Vec::new();
    let prompt = open_turn(
        &mut history,
        &indexed(),
        "q".to_string(),
        Ok(Some(vec![single(0.2)])),
    );
    assert!(matches!(prompt.notice, Some(Notice::Refused { .. })));
    assert_eq!(spelled(&prompt.request), vec!["user: q"]);
    let end = close_turn(&mut history, prompt.turn, Err("ollama error: x".to_string()));
    assert_eq!(end, Err("ollama error: x".to_string()));
    assert!(history.is_empty());
}

#[test]
fn a_failed_turn_leaves_no_trace() {
    let mut history = vec![
        Message::user("q".to_string()),
        Message::assistant("a".to_string()),
    ];
    begin_turn(&mut history, "q2".to_string(), Some("ctx".to_string()));
    drop_question(&mut history);
    assert_eq!(spelled(&history), vec!["user: q", "assistant: a"]);
    let mut empty: Vec<Message> = Vec::new();
    drop_question(&mut empty);
    assert!(empty.is_empty());
}
