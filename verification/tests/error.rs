use chatbot::error::ChatError;

#[test]
fn an_ollama_error_is_labelled() {
    let e = ChatError::Ollama("model not found".to_string());
    assert_eq!(e.describe(), "ollama error: model not found");
}

#[test]
fn a_json_error_is_converted_and_labelled() {
    let source = serde_json::from_str::<u32>("x").unwrap_err();
    let words = source.to_string();
    let e = ChatError::from(source);
    assert!(matches!(e, ChatError::Json(_)));
    assert_eq!(e.describe(), format!("could not parse response: {words}"));
}

#[test]
fn an_io_error_is_converted_and_labelled() {
    let source = std::io::Error::new(std::io::ErrorKind::Other, "disk on fire");
    let e = ChatError::from(source);
    assert!(matches!(e, ChatError::Io(_)));
    assert_eq!(e.describe(), "i/o error: disk on fire");
}

#[test]
fn an_http_error_is_converted_and_labelled() {
    let source = reqwest::Client::new().get("no url").build().unwrap_err();
    let words = source.to_string();
    let e = ChatError::from(source);
    assert!(matches!(e, ChatError::Http(_)));
    assert_eq!(e.describe(), format!("http error: {words}"));
}
