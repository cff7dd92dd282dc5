//! Every way the program can fail.

use vstd::prelude::*;
#[allow(unused_imports)]
use vstd::std_specs::convert::FromSpecImpl;
#[allow(unused_imports)]
use vstd::string::*;

use crate::text::owned;

verus! {

/// `reqwest::Error`, carried through as it is.
#[verifier::external_type_specification]
#[verifier::external_body]
pub struct ExHttpError(reqwest::Error);

/// `serde_json::Error`, carried through as it is.
#[verifier::external_type_specification]
#[verifier::external_body]
pub struct ExJsonError(serde_json::Error);

/// `std::io::Error`, carried through as it is.
#[verifier::external_type_specification]
#[verifier::external_body]
pub struct ExIoError(std::io::Error);

/// Every way this program can fail, enumerated.
#[derive(Debug)]
pub enum ChatError {
    /// The HTTP request itself failed (connection refused, timeout, ...).
    Http(reqwest::Error),
    /// Ollama sent something that wasn't the JSON we expected.
    Json(serde_json::Error),
    /// Reading stdin or writing stdout failed.
    Io(std::io::Error),
    /// Ollama accepted the request but reported an error in the response body.
    Ollama(String),
}

/// Whether `text` is `label` followed by what the error displays.
pub open spec fn labelled<E: std::fmt::Display>(label: Seq<char>, e: &E, text: Seq<char>) -> bool {
    exists|shown: String|
        #[trigger] to_string_from_display_ensures(e, shown) && text == label + shown@
}

impl ChatError {
    /// The human-readable rendering.
    pub fn describe(&self) -> (r: String)
        ensures
            match *self {
                ChatError::Http(e) => labelled("http error: "@, &e, r@),
                ChatError::Json(e) => labelled("could not parse response: "@, &e, r@),
                ChatError::Io(e) => labelled("i/o error: "@, &e, r@),
                ChatError::Ollama(message) => r@ == "ollama error: "@ + message@,
            },
    {
        match self {
            ChatError::Http(e) => owned("http error: ").concat(e.to_string().as_str()),
            ChatError::Json(e) => owned("could not parse response: ").concat(e.to_string().as_str()),
            ChatError::Io(e) => owned("i/o error: ").concat(e.to_string().as_str()),
            ChatError::Ollama(message) => owned("ollama error: ").concat(message.as_str()),
        }
    }
}

impl From<reqwest::Error> for ChatError {
    fn from(e: reqwest::Error) -> (r: Self) {
        ChatError::Http(e)
    }
}

impl FromSpecImpl<reqwest::Error> for ChatError {
    open spec fn obeys_from_spec() -> bool {
        true
    }

    open spec fn from_spec(e: reqwest::Error) -> Self {
        ChatError::Http(e)
    }
}

impl From<serde_json::Error> for ChatError {
    fn from(e: serde_json::Error) -> (r: Self) {
        ChatError::Json(e)
    }
}

impl FromSpecImpl<serde_json::Error> for ChatError {
    open spec fn obeys_from_spec() -> bool {
        true
    }

    open spec fn from_spec(e: serde_json::Error) -> Self {
        ChatError::Json(e)
    }
}

impl From<std::io::Error> for ChatError {
    fn from(e: std::io::Error) -> (r: Self) {
        ChatError::Io(e)
    }
}

impl FromSpecImpl<std::io::Error> for ChatError {
    open spec fn obeys_from_spec() -> bool {
        true
    }

    open spec fn from_spec(e: std::io::Error) -> Self {
        ChatError::Io(e)
    }
}

/// What kind of error it is stands in front, and what the error displays stands whole behind it.
pub proof fn law_kind_stands_in_front<E: std::fmt::Display>(label: Seq<char>, e: &E, text: Seq<char>) -> (shown:
    String)
    requires
        labelled(label, e, text),
    ensures
        to_string_from_display_ensures(e, shown),
        text.len() == label.len() + shown@.len(),
        text.take(label.len() as int) == label,
        text.skip(label.len() as int) == shown@,
{
    let shown = choose|shown: String|
        #[trigger] to_string_from_display_ensures(e, shown) && text == label + shown@;
    assert(text.take(label.len() as int) =~= label);
    assert(text.skip(label.len() as int) =~= shown@);
    shown
}

} // verus!
