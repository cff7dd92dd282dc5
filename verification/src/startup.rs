//! Starting up: flags, defaults, and what to say before the first prompt.

use vstd::prelude::*;
#[allow(unused_imports)]
use vstd::string::*;
#[allow(unused_imports)]
use vstd::utf8::encode_utf8;

use crate::governance::Refusal;
use crate::knowledge::EMBED_MODEL;
use crate::paths::{copied, join, without_root};
#[allow(unused_imports)]
use crate::paths::{
    components, joined_to, lemma_joined_lies_below, lemma_relative, relative, within,
};
#[allow(unused_imports)]
use crate::text::{begins_with, join as join_text, trim, views};
use crate::text::{chars_of, joined, listed, owned, same, starts, text_of, trimmed};

verus! {

pub const DEFAULT_MODEL: &'static str = "qwen3.5:9b";

pub const DEFAULT_HOST: &'static str = "http://localhost:11434";

pub const DEFAULT_PORT: u16 = 4141;

/// Where the learned index is cached between runs.
pub const INDEX_FILE: &'static str = ".knowledge.json";

pub const DIM: &'static str = "\x1b[2m";

pub const BOLD: &'static str = "\x1b[1m";

pub const CYAN: &'static str = "\x1b[36m";

pub const GREEN: &'static str = "\x1b[32m";

pub const RED: &'static str = "\x1b[31m";

pub const YELLOW: &'static str = "\x1b[33m";

pub const RESET: &'static str = "\x1b[0m";

// ---------------------------------------------------------------------------
// Flags
// ---------------------------------------------------------------------------

/// A decimal digit.
pub open spec fn is_digit(c: char) -> bool {
    '0' <= c <= '9'
}

/// The number that these digits spell.
pub open spec fn number(s: Seq<char>) -> nat
    decreases s.len(),
{
    if s.len() == 0 {
        0
    } else {
        number(s.drop_last()) * 10 + (s.last() as u32 - 0x30) as nat
    }
}

/// A numeral without its plus sign.
pub open spec fn unsigned(s: Seq<char>) -> Seq<char> {
    if s.len() > 0 && s[0] == '+' {
        s.skip(1)
    } else {
        s
    }
}

/// Whether a text spells a port: at least one digit and nothing but digits, perhaps behind a
/// plus sign, and small enough.
pub open spec fn spells_port(s: Seq<char>) -> bool {
    let t = unsigned(s);
    &&& t.len() > 0
    &&& forall|i: int| 0 <= i < t.len() ==> is_digit(#[trigger] t[i])
    &&& number(t) <= u16::MAX
}

proof fn lemma_number_grows(s: Seq<char>, i: int)
    requires
        0 <= i <= s.len(),
        forall|j: int| 0 <= j < s.len() ==> is_digit(#[trigger] s[j]),
    ensures
        number(s.take(i)) <= number(s),
    decreases s.len(),
{
    if i < s.len() {
        assert(s.drop_last().take(i) =~= s.take(i));
        lemma_number_grows(s.drop_last(), i);
        assert(is_digit(s[s.len() - 1]));
    } else {
        assert(s.take(i) =~= s);
    }
}

/// The port that a text spells.
pub fn port_number(s: &str) -> (r: Option<u16>)
    ensures
        r is Some <==> spells_port(s@),
        r is Some ==> r->0 == number(unsigned(s@)),
{
    let v = chars_of(s);
    let start: usize = if v.len() > 0 && v[0] == '+' {
        1
    } else {
        0
    };
    let ghost t = unsigned(s@);
    assert(t =~= s@.skip(start as int));
    if start >= v.len() {
        return None;
    }
    let mut value: u32 = 0;
    let mut i: usize = start;
    assert(t.take(0) =~= Seq::empty());
    while i < v.len()
        invariant
            v@ == s@,
            t == unsigned(s@),
            t == s@.skip(start as int),
            start <= i <= v@.len(),
            forall|j: int| 0 <= j < i - start ==> is_digit(#[trigger] t[j]),
            value == number(t.take(i - start)),
            value <= u16::MAX,
        decreases v@.len() - i,
    {
        let c = v[i];
        assert(t[i - start] == c);
        if c < '0' || c > '9' {
            return None;
        }
        proof {
            assert(t.take(i - start + 1).drop_last() =~= t.take(i - start));
        }
        value = value * 10 + (c as u32 - 0x30);
        if value > 65535 {
            proof {
                if forall|j: int| 0 <= j < t.len() ==> is_digit(#[trigger] t[j]) {
                    lemma_number_grows(t, i - start + 1);
                }
            }
            return None;
        }
        i += 1;
    }
    assert(t.take(t.len() as int) =~= t);
    Some(value as u16)
}

/// Where the first of two spellings of a flag stands at or after `i`, or the end of the list.
pub open spec fn flag_at(args: Seq<Seq<char>>, long: Seq<char>, short: Seq<char>, i: int) -> int
    decreases args.len() - i,
{
    if i >= args.len() {
        args.len() as int
    } else if args[i] == long || args[i] == short {
        i
    } else {
        flag_at(args, long, short, i + 1)
    }
}

fn find_flag(args: &[String], long: &str, short: &str) -> (r: usize)
    ensures
        r == flag_at(views(args@), long@, short@, 0),
        r <= args@.len(),
{
    let mut i: usize = 0;
    while i < args.len()
        invariant
            i <= args@.len(),
            flag_at(views(args@), long@, short@, 0) == flag_at(views(args@), long@, short@, i as int),
        decreases args@.len() - i,
    {
        assert(views(args@)[i as int] == args@[i as int]@);
        if same(args[i].as_str(), long) || same(args[i].as_str(), short) {
            return i;
        }
        i += 1;
    }
    i
}

/// The port that the first port flag asks for: what follows it, where that spells a port.
pub open spec fn asked_port(args: Seq<Seq<char>>) -> Option<nat> {
    let at = flag_at(args, "--port"@, "-p"@, 0);
    if at + 1 < args.len() && spells_port(args[at + 1]) {
        Some(number(unsigned(args[at + 1])))
    } else {
        None
    }
}

/// `--port 8080`
pub fn parse_port(args: &[String]) -> (r: Option<u16>)
    ensures
        r is Some <==> asked_port(views(args@)) is Some,
        r is Some ==> r->0 == asked_port(views(args@))->0,
{
    let at = find_flag(args, "--port", "-p");
    if args.len() > 0 && at < args.len() - 1 {
        assert(views(args@)[at + 1] == args@[at + 1]@);
        port_number(args[at + 1].as_str())
    } else {
        None
    }
}

/// Which front end to start.
#[derive(Debug, PartialEq, Eq)]
pub enum Launch {
    /// None: explain the flags.
    Usage,
    Terminal,
    /// The browser front end, on this port.
    Browser(u16),
}

/// Whether one of two spellings of a flag is given.
pub open spec fn given(args: Seq<Seq<char>>, long: Seq<char>, short: Seq<char>) -> bool {
    args.contains(long) || args.contains(short)
}

proof fn lemma_flag_given(args: Seq<Seq<char>>, long: Seq<char>, short: Seq<char>, i: int)
    requires
        0 <= i <= args.len(),
        forall|j: int| 0 <= j < i ==> args[j] != long && args[j] != short,
    ensures
        flag_at(args, long, short, i) < args.len() <==> given(args, long, short),
    decreases args.len() - i,
{
    if i < args.len() && args[i] != long && args[i] != short {
        lemma_flag_given(args, long, short, i + 1);
    }
}

/// What the flags ask for.
pub fn launch(args: &[String]) -> (r: Launch)
    ensures
        match r {
            Launch::Usage => given(views(args@), "--help"@, "-h"@),
            Launch::Terminal => !given(views(args@), "--help"@, "-h"@) && given(
                views(args@),
                "--terminal"@,
                "-t"@,
            ),
            Launch::Browser(port) => {
                &&& !given(views(args@), "--help"@, "-h"@)
                &&& !given(views(args@), "--terminal"@, "-t"@)
                &&& port == match asked_port(views(args@)) {
                    Some(p) => p as int,
                    None => DEFAULT_PORT as int,
                }
            },
        },
{
    proof {
        lemma_flag_given(views(args@), "--help"@, "-h"@, 0);
        lemma_flag_given(views(args@), "--terminal"@, "-t"@, 0);
    }
    if find_flag(args, "--help", "-h") < args.len() {
        return Launch::Usage;
    }
    if find_flag(args, "--terminal", "-t") < args.len() {
        return Launch::Terminal;
    }
    match parse_port(args) {
        Some(port) => Launch::Browser(port),
        None => Launch::Browser(DEFAULT_PORT),
    }
}

// ---------------------------------------------------------------------------
// Paths and settings
// ---------------------------------------------------------------------------

/// A typed path, with a leading `~` standing for the home directory, where there is one.
pub open spec fn expanded(raw: Seq<char>, home: Option<Seq<char>>) -> Seq<u8> {
    let s = trim(raw);
    if begins_with(s, "~/"@) && home is Some {
        joined_to(encode_utf8(home->0), relative(encode_utf8(s.skip(2))))
    } else if s == "~"@ && home is Some {
        encode_utf8(home->0)
    } else {
        encode_utf8(s)
    }
}

/// An optional text, by value.
pub open spec fn optional(s: Option<&str>) -> Option<Seq<char>> {
    match s {
        Some(t) => Some(t@),
        None => None,
    }
}

/// Expand a leading `~` to the home directory, `home` being where that is.
pub fn expand_path(raw: &str, home: Option<&str>) -> (r: Vec<u8>)
    ensures
        r@ == expanded(raw@, optional(home)),
{
    let s = trimmed(raw);
    if let Some(home) = home {
        if starts(s.as_str(), "~/") {
            let v = chars_of(s.as_str());
            proof {
                reveal_strlit("~/");
                assert("~/"@.len() == 2);
            }
            let rest = text_of(&v, 2, v.len());
            assert(rest@ =~= s@.skip(2));
            let below = without_root(rest.as_str().as_bytes());
            return join(home.as_bytes(), below.as_slice());
        }
        if same(s.as_str(), "~") {
            return copied(home.as_bytes());
        }
    }
    copied(s.as_str().as_bytes())
}

/// A leading `~` stands for the home directory: what follows it leads to somewhere at or
/// below the home.
pub proof fn law_tilde_stays_at_home(raw: Seq<char>, home: Seq<char>)
    requires
        begins_with(trim(raw), "~/"@) || trim(raw) == "~"@,
    ensures
        within(expanded(raw, Some(home)), encode_utf8(home)),
{
    if begins_with(trim(raw), "~/"@) {
        let rest = encode_utf8(trim(raw).skip(2));
        lemma_relative(rest);
        lemma_joined_lies_below(encode_utf8(home), relative(rest));
    } else {
        let own = components(encode_utf8(home));
        assert(own.take(own.len() as int) =~= own);
    }
}

/// A setting from the environment, or its default.
pub fn setting(value: Option<String>, default: &str) -> (r: String)
    ensures
        r@ == match value {
            Some(v) => v@,
            None => default@,
        },
{
    match value {
        Some(v) => v,
        None => owned(default),
    }
}

// ---------------------------------------------------------------------------
// Notices
// ---------------------------------------------------------------------------

/// How to start the program.
pub fn usage() -> (r: String)
    ensures
        r@ == "chatbot -- ask questions about your own files, locally\n\n  cargo run                    open the browser UI (default)\n  cargo run -- --terminal      use the terminal instead\n  cargo run -- --port 8080     serve the UI on a different port\n\nenvironment:\n  CHAT_MODEL     which model answers      (default "@
            + DEFAULT_MODEL@ + ")\n  OLLAMA_HOST    where Ollama lives       (default "@
            + DEFAULT_HOST@ + ")"@,
{
    owned(
        "chatbot -- ask questions about your own files, locally\n\n  cargo run                    open the browser UI (default)\n  cargo run -- --terminal      use the terminal instead\n  cargo run -- --port 8080     serve the UI on a different port\n\nenvironment:\n  CHAT_MODEL     which model answers      (default ",
    ).concat(DEFAULT_MODEL).concat(")\n  OLLAMA_HOST    where Ollama lives       (default ").concat(
        DEFAULT_HOST,
    ).concat(")")
}

/// What to say when the chosen model is not there.
pub open spec fn missing_model(model: Seq<char>, available: Seq<Seq<char>>) -> Seq<Seq<char>> {
    seq![
        RED@ + "warning:"@ + RESET@ + " model "@ + BOLD@ + model + RESET@ + " not found locally."@,
        "  available: "@ + join_text(available, ", "@),
        "  pull it with: "@ + BOLD@ + "ollama pull "@ + model + RESET@ + "\n"@,
    ]
}

/// What to say when the embedding model is not there.
pub open spec fn missing_embedder() -> Seq<Seq<char>> {
    seq![
        YELLOW@ + "note:"@ + RESET@ + " "@ + EMBED_MODEL@
            + " isn't installed, so indexing won't work."@,
        "  get it with: "@ + BOLD@ + "ollama pull "@ + EMBED_MODEL@ + RESET@ + "\n"@,
    ]
}

/// Whether one of the models is the embedding model, in whatever version.
pub open spec fn can_embed(available: Seq<Seq<char>>) -> bool {
    exists|i: int| 0 <= i < available.len() && begins_with(#[trigger] available[i], EMBED_MODEL@)
}

/// What to say of the models that are there.
pub open spec fn model_notices(model: Seq<char>, available: Seq<Seq<char>>) -> Seq<Seq<char>> {
    let first = if available.contains(model) {
        Seq::empty()
    } else {
        missing_model(model, available)
    };
    let second = if can_embed(available) {
        Seq::empty()
    } else {
        missing_embedder()
    };
    first + second
}

/// Whether one of the models is the embedding model, in whatever version.
pub fn has_embedder(available: &Vec<String>) -> (r: bool)
    ensures
        r == can_embed(views(available@)),
{
    let mut i: usize = 0;
    while i < available.len()
        invariant
            i <= available@.len(),
            forall|j: int|
                0 <= j < i ==> !begins_with(#[trigger] views(available@)[j], EMBED_MODEL@),
        decreases available@.len() - i,
    {
        assert(views(available@)[i as int] == available@[i as int]@);
        if starts(available[i].as_str(), EMBED_MODEL) {
            return true;
        }
        i += 1;
    }
    false
}

/// What to say, line by line, of the models that are there.
pub fn startup_notices(model: &str, available: &Vec<String>) -> (r: Vec<String>)
    ensures
        views(r@) == model_notices(model@, views(available@)),
{
    let mut r: Vec<String> = Vec::new();
    assert(views(r@) =~= Seq::empty());
    if !listed(available, model) {
        r.push(
            owned(RED).concat("warning:").concat(RESET).concat(" model ").concat(BOLD).concat(
                model,
            ).concat(RESET).concat(" not found locally."),
        );
        r.push(owned("  available: ").concat(joined(available, ", ").as_str()));
        r.push(
            owned("  pull it with: ").concat(BOLD).concat("ollama pull ").concat(model).concat(
                RESET,
            ).concat("\n"),
        );
        assert(views(r@) =~= missing_model(model@, views(available@)));
    }
    let ghost first = views(r@);
    if !has_embedder(available) {
        r.push(
            owned(YELLOW).concat("note:").concat(RESET).concat(" ").concat(EMBED_MODEL).concat(
                " isn't installed, so indexing won't work.",
            ),
        );
        r.push(
            owned("  get it with: ").concat(BOLD).concat("ollama pull ").concat(EMBED_MODEL).concat(
                RESET,
            ).concat("\n"),
        );
        assert(views(r@) =~= first + missing_embedder());
    } else {
        assert(views(r@) =~= first + Seq::empty());
    }
    r
}

/// What to say, line by line, when Ollama cannot be reached.
pub fn unreachable_notice(host: &str, reason: &str) -> (r: Vec<String>)
    ensures
        views(r@) == seq![
            RED@ + "Could not reach Ollama at "@ + host@ + RESET@,
            "  "@ + reason@,
            "  Is it running? Try: "@ + BOLD@ + "ollama serve"@ + RESET@,
        ],
{
    let mut r: Vec<String> = Vec::new();
    r.push(owned(RED).concat("Could not reach Ollama at ").concat(host).concat(RESET));
    r.push(owned("  ").concat(reason));
    r.push(owned("  Is it running? Try: ").concat(BOLD).concat("ollama serve").concat(RESET));
    assert(views(r@) =~= seq![
        RED@ + "Could not reach Ollama at "@ + host@ + RESET@,
        "  "@ + reason@,
        "  Is it running? Try: "@ + BOLD@ + "ollama serve"@ + RESET@,
    ]);
    r
}

/// What to say, line by line, when something is refused: the detail, the remedy, the code.
pub fn refusal_notice(refusal: &Refusal) -> (r: Vec<String>)
    ensures
        views(r@) == seq![
            RED@ + "refused:"@ + RESET@ + " "@ + refusal@.detail,
            "  "@ + BOLD@ + refusal@.remedy + RESET@,
            "  ("@ + refusal@.code.text() + ")"@,
        ],
{
    let mut r: Vec<String> = Vec::new();
    r.push(owned(RED).concat("refused:").concat(RESET).concat(" ").concat(refusal.detail.as_str()));
    r.push(owned("  ").concat(BOLD).concat(refusal.remedy.as_str()).concat(RESET));
    r.push(owned("  (").concat(refusal.code.as_str()).concat(")"));
    assert(views(r@) =~= seq![
        RED@ + "refused:"@ + RESET@ + " "@ + refusal@.detail,
        "  "@ + BOLD@ + refusal@.remedy + RESET@,
        "  ("@ + refusal@.code.text() + ")"@,
    ]);
    r
}

// ---------------------------------------------------------------------------
// What starting up promises
// ---------------------------------------------------------------------------

/// A further digit makes a number ten times as big and adds the digit.
pub proof fn law_number_grows_by_digits(s: Seq<char>, c: char)
    requires
        '0' <= c <= '9',
    ensures
        number(Seq::empty()) == 0,
        number(s.push(c)) == 10 * number(s) + (c as u32 - '0' as u32),
{
    assert(s.push(c).drop_last() =~= s);
}

/// A port is written with digits alone, perhaps behind one plus sign that does not count, and
/// is at most 65535.
pub proof fn law_ports_are_written_in_digits(s: Seq<char>)
    ensures
        spells_port(s) <==> exists|t: Seq<char>|
            (s == t || s == #[trigger] (seq!['+'] + t)) && t.len() > 0 && (forall|i: int|
                0 <= i < t.len() ==> '0' <= #[trigger] t[i] <= '9') && number(t) <= 65_535,
        unsigned(seq!['+'] + s) == s,
        s.len() > 0 && s[0] != '+' ==> unsigned(s) == s,
{
    assert(unsigned(seq!['+'] + s) =~= s);
    if spells_port(s) {
        let t = unsigned(s);
        assert(seq!['+'] + t == seq!['+'] + t);
        if s.len() > 0 && s[0] == '+' {
            assert(s =~= seq!['+'] + t);
        }
        assert forall|i: int| 0 <= i < t.len() implies '0' <= #[trigger] t[i] <= '9' by {
            assert(is_digit(t[i]));
        }
        assert(s == t || s == (seq!['+'] + t));
    }
    if exists|t: Seq<char>|
        (s == t || s == #[trigger] (seq!['+'] + t)) && t.len() > 0 && (forall|i: int|
            0 <= i < t.len() ==> '0' <= #[trigger] t[i] <= '9') && number(t) <= 65_535 {
        let t = choose|t: Seq<char>|
            (s == t || s == #[trigger] (seq!['+'] + t)) && t.len() > 0 && (forall|i: int|
                0 <= i < t.len() ==> '0' <= #[trigger] t[i] <= '9') && number(t) <= 65_535;
        assert('0' <= t[0] <= '9');
        assert(unsigned(seq!['+'] + t) =~= t);
        assert(unsigned(s) == t);
    }
}

proof fn lemma_flag_is_first(args: Seq<Seq<char>>, long: Seq<char>, short: Seq<char>, i: int)
    requires
        0 <= i <= args.len(),
    ensures
        i <= flag_at(args, long, short, i) <= args.len(),
        forall|j: int| i <= j < flag_at(args, long, short, i) ==> #[trigger] args[j] != long && args[j] != short,
        flag_at(args, long, short, i) < args.len() ==> args[flag_at(args, long, short, i)] == long
            || args[flag_at(args, long, short, i)] == short,
    decreases args.len() - i,
{
    if i < args.len() && args[i] != long && args[i] != short {
        lemma_flag_is_first(args, long, short, i + 1);
    }
}

/// A flag is given where one of the arguments is one of its two spellings.
pub proof fn law_flag_is_given_in_either_spelling(args: Seq<Seq<char>>, long: Seq<char>, short: Seq<char>)
    ensures
        given(args, long, short) <==> exists|i: int|
            0 <= i < args.len() && (#[trigger] args[i] == long || args[i] == short),
{
    if given(args, long, short) {
        if args.contains(long) {
            assert(args[args.index_of(long)] == long);
        } else {
            assert(args[args.index_of(short)] == short);
        }
    }
}

/// The port is what follows the first `--port` or `-p`, where that spells one. Where nothing
/// does, or there is no such flag, none is asked for.
pub proof fn law_port_follows_the_first_flag(args: Seq<Seq<char>>, at: int)
    requires
        0 <= at <= args.len(),
        forall|j: int| 0 <= j < at ==> #[trigger] args[j] != "--port"@ && args[j] != "-p"@,
        at < args.len() ==> args[at] == "--port"@ || args[at] == "-p"@,
    ensures
        asked_port(args) is Some <==> at + 1 < args.len() && spells_port(args[at + 1]),
        asked_port(args) is Some ==> asked_port(args) == Some(number(unsigned(args[at + 1]))),
        DEFAULT_PORT == 4141,
{
    lemma_flag_is_first(args, "--port"@, "-p"@, 0);
    let found = flag_at(args, "--port"@, "-p"@, 0);
    if found < at {
        assert(args[found] != "--port"@);
    }
    if at < found {
        assert(args[at] != "--port"@);
    }
}

/// A path is taken as it was typed, without the whitespace around it, unless it is `~` or
/// starts with `~/` and the home is known: then the home stands for the `~`, and everything
/// behind the slash lies below it.
pub proof fn law_only_a_leading_tilde_is_replaced(raw: Seq<char>, home: Seq<char>, rest: Seq<char>)
    ensures
        expanded(raw, None) == encode_utf8(trim(raw)),
        trim(raw) == seq!['~'] ==> expanded(raw, Some(home)) == encode_utf8(home),
        trim(raw) == seq!['~', '/'] + rest ==> expanded(raw, Some(home)) == joined_to(
            encode_utf8(home),
            relative(encode_utf8(rest)),
        ),
        trim(raw) != seq!['~'] && !(trim(raw).len() > 1 && trim(raw)[0] == '~' && trim(raw)[1] == '/')
            ==> expanded(raw, Some(home)) == encode_utf8(trim(raw)),
{
    let s = trim(raw);
    reveal_strlit("~/");
    reveal_strlit("~");
    assert("~/"@ =~= seq!['~', '/']);
    assert("~"@ =~= seq!['~']);
    if s == seq!['~', '/'] + rest {
        assert(s.take(2) =~= "~/"@);
        assert(s.skip(2) =~= rest);
    }
    if s == seq!['~'] {
        assert(s.len() == 1);
    }
    if begins_with(s, "~/"@) {
        assert(s.take(2)[0] == s[0] && s.take(2)[1] == s[1]);
    }
}

/// A text that may be missing is, by value, the text.
pub proof fn law_optional_text(s: Option<&str>)
    ensures
        s is Some <==> optional(s) is Some,
        s is Some ==> optional(s)->0 == s->0@,
{
}

/// Whether files can be embedded: one of the models has a name that goes on from
/// `nomic-embed-text`.
pub proof fn law_embedder_is_known_by_its_name(available: Seq<Seq<char>>)
    ensures
        can_embed(available) <==> exists|i: int, rest: Seq<char>|
            0 <= i < available.len() && #[trigger] available[i] == #[trigger] ("nomic-embed-text"@ + rest),
{
    let name = "nomic-embed-text"@;
    let n = name.len() as int;
    if can_embed(available) {
        let i = choose|i: int| 0 <= i < available.len() && begins_with(#[trigger] available[i], EMBED_MODEL@);
        assert(available[i] =~= name + available[i].skip(n));
    }
    if exists|i: int, rest: Seq<char>|
        0 <= i < available.len() && #[trigger] available[i] == #[trigger] (name + rest) {
        let (i, rest) = choose|i: int, rest: Seq<char>|
            0 <= i < available.len() && #[trigger] available[i] == #[trigger] (name + rest);
        assert(available[i].take(n) =~= name);
        assert(begins_with(available[i], EMBED_MODEL@));
    }
}

/// Nothing is said of models that are all there. A missing one is named, with the command that
/// gets it, and with it all those that can be used in its place; a missing embedder is told by
/// itself.
pub proof fn law_missing_models_are_named(model: Seq<char>, available: Seq<Seq<char>>)
    ensures
        available.contains(model) && can_embed(available) ==> model_notices(model, available).len() == 0,
        !available.contains(model) ==> model_notices(model, available).take(3) == seq![
            "\x1b[31m"@ + "warning:"@ + "\x1b[0m"@ + " model "@ + "\x1b[1m"@ + model + "\x1b[0m"@
                + " not found locally."@,
            "  available: "@ + join_text(available, ", "@),
            "  pull it with: "@ + "\x1b[1m"@ + "ollama pull "@ + model + "\x1b[0m"@ + "\n"@,
        ],
        !can_embed(available) ==> model_notices(model, available).skip(
            if available.contains(model) {
                0int
            } else {
                3int
            },
        ) == seq![
            "\x1b[33m"@ + "note:"@ + "\x1b[0m"@ + " "@ + "nomic-embed-text"@
                + " isn't installed, so indexing won't work."@,
            "  get it with: "@ + "\x1b[1m"@ + "ollama pull "@ + "nomic-embed-text"@ + "\x1b[0m"@ + "\n"@,
        ],
        model_notices(model, available).len() == (if available.contains(model) {
            0int
        } else {
            3int
        }) + if can_embed(available) {
            0int
        } else {
            2int
        },
{
    let all = model_notices(model, available);
    if !available.contains(model) {
        assert(all.take(3) =~= missing_model(model, available));
        assert(!can_embed(available) ==> all.skip(3) =~= missing_embedder());
    } else {
        assert(!can_embed(available) ==> all.skip(0) =~= missing_embedder());
    }
}

/// Without settings, this model answers, and Ollama is looked for on this machine.
pub proof fn law_defaults()
    ensures
        DEFAULT_MODEL@ == "qwen3.5:9b"@,
        DEFAULT_HOST@ == "http://localhost:11434"@,
        DEFAULT_PORT == 4141,
        INDEX_FILE@ == ".knowledge.json"@,
{
}

/// The colours are those of the terminal.
pub proof fn law_colours()
    ensures
        DIM@ == "\x1b[2m"@ && BOLD@ == "\x1b[1m"@ && RESET@ == "\x1b[0m"@,
        CYAN@ == "\x1b[36m"@ && GREEN@ == "\x1b[32m"@,
        RED@ == "\x1b[31m"@ && YELLOW@ == "\x1b[33m"@,
{
}

} // verus!
