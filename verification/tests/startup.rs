use chatbot::governance::{Refusal, RefusalCode};
use chatbot::startup::{
    expand_path, has_embedder, launch, parse_port, port_number, refusal_notice, setting,
    startup_notices, unreachable_notice, usage, Launch, DEFAULT_HOST, DEFAULT_MODEL, DEFAULT_PORT,
    INDEX_FILE,
};

fn args(list: &[&str]) -> Vec<String> {
    list.iter().map(|s| s.to_string()).collect()
}

#[test]
fn port_flag_is_parsed() {
    let args = vec!["--port".to_string(), "8080".to_string()];
    assert_eq!(parse_port(&args), Some(8080));
}

#[test]
fn missing_or_bad_port_falls_back() {
    assert_eq!(parse_port(&["--port".to_string()]), None);
    assert_eq!(
        parse_port(&["--port".to_string(), "banana".to_string()]),
        None
    );
    assert_eq!(parse_port(&[]), None);
}

#[test]
fn tilde_expands_to_home() {
    let home = Some("/home/someone");
    assert_eq!(expand_path("~/docs", home), b"/home/someone/docs".to_vec());
    assert_eq!(expand_path("~", home), b"/home/someone".to_vec());
}

#[test]
fn other_paths_are_left_alone() {
    let home = Some("/home/someone");
    assert_eq!(expand_path("/tmp/x", home), b"/tmp/x".to_vec());
    assert_eq!(expand_path("relative/x", home), b"relative/x".to_vec());
    // A '~' that isn't a home reference stays literal.
    assert_eq!(expand_path("./~weird", home), b"./~weird".to_vec());
}

#[test]
fn without_a_home_the_tilde_stays() {
    assert_eq!(expand_path("~/docs", None), b"~/docs".to_vec());
    assert_eq!(expand_path(" ~ ", None), b"~".to_vec());
    assert_eq!(expand_path("~user/x", Some("/h")), b"~user/x".to_vec());
}

#[test]
fn separators_behind_the_tilde_do_not_lead_away_from_home() {
    let home = Some("/home/someone");
    assert_eq!(expand_path("~//etc", home), b"/home/someone/etc".to_vec());
    assert_eq!(expand_path(" ~////a//b ", home), b"/home/someone/a//b".to_vec());
    assert_eq!(expand_path("~/", home), b"/home/someone/".to_vec());
    assert_eq!(expand_path("~//", home), b"/home/someone/".to_vec());
    assert_eq!(expand_path("~//etc", Some("/")), b"/etc".to_vec());
    assert_eq!(expand_path("//etc", home), b"//etc".to_vec());
}

#[test]
fn ports_are_read_as_numbers_are() {
    for s in [
        "0", "8080", "65535", "65536", "99999", "+80", "-80", "", "+", " 80", "8o", "00080",
        "000000000000000000000080", "８０",
    ] {
        assert_eq!(port_number(s), s.parse::<u16>().ok(), "{s}");
    }
}

#[test]
fn only_the_first_port_flag_counts() {
    assert_eq!(parse_port(&args(&["-p", "1", "--port", "2"])), Some(1));
    assert_eq!(parse_port(&args(&["-p", "x", "--port", "2"])), None);
    assert_eq!(parse_port(&args(&["-p", "-p", "3"])), None);
}

#[test]
fn flags_choose_the_front_end() {
    assert_eq!(launch(&args(&[])), Launch::Browser(4141));
    assert_eq!(launch(&args(&["--port", "8080"])), Launch::Browser(8080));
    assert_eq!(launch(&args(&["-p", "x"])), Launch::Browser(DEFAULT_PORT));
    assert_eq!(launch(&args(&["-t"])), Launch::Terminal);
    assert_eq!(launch(&args(&["--terminal", "-p", "1"])), Launch::Terminal);
    assert_eq!(launch(&args(&["-t", "--help"])), Launch::Usage);
    assert_eq!(launch(&args(&["-h"])), Launch::Usage);
}

#[test]
fn settings_fall_back_to_their_default() {
    assert_eq!(setting(None, DEFAULT_MODEL), "qwen3.5:9b");
    assert_eq!(setting(Some("x".to_string()), DEFAULT_MODEL), "x");
    assert_eq!(setting(Some(String::new()), DEFAULT_HOST), "");
    assert_eq!(INDEX_FILE, ".knowledge.json");
}

#[test]
fn missing_models_are_reported() {
    let available = args(&["a", "nomic-embed-text:latest"]);
    assert!(startup_notices("a", &available).is_empty());
    assert!(has_embedder(&available));
    assert_eq!(
        startup_notices("b", &args(&["a", "c"])),
        vec![
            "\x1b[31mwarning:\x1b[0m model \x1b[1mb\x1b[0m not found locally.",
            "  available: a, c",
            "  pull it with: \x1b[1mollama pull b\x1b[0m\n",
            "\x1b[33mnote:\x1b[0m nomic-embed-text isn't installed, so indexing won't work.",
            "  get it with: \x1b[1mollama pull nomic-embed-text\x1b[0m\n",
        ]
    );
    assert!(!has_embedder(&args(&["my-nomic-embed-text"])));
}

#[test]
fn an_unreachable_server_is_reported() {
    assert_eq!(
        unreachable_notice("http://h", "why"),
        vec![
            "\x1b[31mCould not reach Ollama at http://h\x1b[0m",
            "  why",
            "  Is it running? Try: \x1b[1mollama serve\x1b[0m",
        ]
    );
}

#[test]
fn a_refusal_is_reported_with_its_remedy() {
    let refusal = Refusal::new(
        RefusalCode::NoStoreConfigured,
        "no store".to_string(),
        "make one".to_string(),
    );
    assert_eq!(
        refusal_notice(&refusal),
        vec![
            "\x1b[31mrefused:\x1b[0m no store",
            "  \x1b[1mmake one\x1b[0m",
            "  (no_store_configured)",
        ]
    );
}

#[test]
fn usage_names_flags_and_defaults() {
    assert_eq!(
        usage(),
        "\
chatbot -- ask questions about your own files, locally

  cargo run                    open the browser UI (default)
  cargo run -- --terminal      use the terminal instead
  cargo run -- --port 8080     serve the UI on a different port

environment:
  CHAT_MODEL     which model answers      (default qwen3.5:9b)
  OLLAMA_HOST    where Ollama lives       (default http://localhost:11434)"
    );
}
