//! Slash-command parsing.

use vstd::prelude::*;
#[allow(unused_imports)]
use vstd::string::*;

use crate::text::{chars_of, same, space, text_of, trim_range};
#[allow(unused_imports)]
use crate::text::{
    all_space, is_space, law_trim_takes_only_whitespace, lemma_trim_padded, trim,
};

verus! {

/// One parsed line of user input.
#[derive(Debug, PartialEq)]
pub enum Command {
    /// User just hit enter.
    Empty,
    /// `/help`
    Help,
    /// `/clear` -- wipe conversation history.
    Clear,
    /// `/model` (query current) or `/model llama3` (switch).
    Model(Option<String>),
    /// `/quit` or `/exit`
    Quit,
    /// `/index <folder>` -- read a folder and learn what's in it.
    Index(String),
    /// `/sources` -- what's currently loaded.
    Sources,
    /// `/forget` -- drop the indexed knowledge.
    Forget,
    /// A slash-command we don't recognize. Carries what they typed, for the error.
    Unknown(String),
    /// Ordinary text to send to the model.
    Say(String),
}

/// A parsed line, by value.
pub enum CommandView {
    Empty,
    Help,
    Clear,
    Model(Option<Seq<char>>),
    Quit,
    Index(Seq<char>),
    Sources,
    Forget,
    Unknown(Seq<char>),
    Say(Seq<char>),
}

impl View for Command {
    type V = CommandView;

    open spec fn view(&self) -> CommandView {
        match *self {
            Command::Empty => CommandView::Empty,
            Command::Help => CommandView::Help,
            Command::Clear => CommandView::Clear,
            Command::Model(None) => CommandView::Model(None),
            Command::Model(Some(name)) => CommandView::Model(Some(name@)),
            Command::Quit => CommandView::Quit,
            Command::Index(path) => CommandView::Index(path@),
            Command::Sources => CommandView::Sources,
            Command::Forget => CommandView::Forget,
            Command::Unknown(verb) => CommandView::Unknown(verb@),
            Command::Say(text) => CommandView::Say(text@),
        }
    }
}

/// Where the first whitespace at or after `i` is, or the end of the text.
pub open spec fn word_end(s: Seq<char>, i: int) -> int
    decreases s.len() - i,
{
    if i >= s.len() {
        s.len() as int
    } else if is_space(s[i]) {
        i
    } else {
        word_end(s, i + 1)
    }
}

/// The first word of a text.
pub open spec fn first_word(s: Seq<char>) -> Seq<char> {
    s.take(word_end(s, 0))
}

/// What follows the first word, without the whitespace around it.
pub open spec fn argument(s: Seq<char>) -> Seq<char> {
    if word_end(s, 0) < s.len() {
        trim(s.skip(word_end(s, 0) + 1))
    } else {
        Seq::empty()
    }
}

/// What a slash-command means, given its verb and its argument.
pub open spec fn verb_meaning(verb: Seq<char>, rest: Seq<char>) -> CommandView {
    if verb == "/help"@ || verb == "/h"@ || verb == "/?"@ {
        CommandView::Help
    } else if verb == "/clear"@ || verb == "/reset"@ {
        CommandView::Clear
    } else if verb == "/quit"@ || verb == "/exit"@ || verb == "/q"@ {
        CommandView::Quit
    } else if verb == "/model"@ || verb == "/m"@ {
        if rest.len() == 0 {
            CommandView::Model(None)
        } else {
            CommandView::Model(Some(rest))
        }
    } else if verb == "/index"@ || verb == "/i"@ {
        CommandView::Index(rest)
    } else if verb == "/sources"@ || verb == "/src"@ {
        CommandView::Sources
    } else if verb == "/forget"@ {
        CommandView::Forget
    } else {
        CommandView::Unknown(verb)
    }
}

/// What a line means.
pub open spec fn meaning(line: Seq<char>) -> CommandView {
    let s = trim(line);
    if s.len() == 0 {
        CommandView::Empty
    } else if s[0] != '/' {
        CommandView::Say(s)
    } else {
        verb_meaning(first_word(s), argument(s))
    }
}

fn verb_command(verb: String, rest: String) -> (r: Command)
    ensures
        r@ == verb_meaning(verb@, rest@),
{
    let v = verb.as_str();
    if same(v, "/help") || same(v, "/h") || same(v, "/?") {
        Command::Help
    } else if same(v, "/clear") || same(v, "/reset") {
        Command::Clear
    } else if same(v, "/quit") || same(v, "/exit") || same(v, "/q") {
        Command::Quit
    } else if same(v, "/model") || same(v, "/m") {
        if rest.as_str().is_empty() {
            Command::Model(None)
        } else {
            Command::Model(Some(rest))
        }
    } else if same(v, "/index") || same(v, "/i") {
        Command::Index(rest)
    } else if same(v, "/sources") || same(v, "/src") {
        Command::Sources
    } else if same(v, "/forget") {
        Command::Forget
    } else {
        Command::Unknown(verb)
    }
}

impl Command {
    /// Parse a raw input line.
    pub fn parse(line: &str) -> (r: Command)
        ensures
            r@ == meaning(line@),
    {
        let v = chars_of(line);
        let (a, b) = trim_range(&v, 0, v.len());
        let ghost s = trim(line@);
        assert(v@.subrange(0, v@.len() as int) =~= line@);
        assert(s == v@.subrange(a as int, b as int));
        if a == b {
            return Command::Empty;
        }
        assert(s[0] == v@[a as int]);
        if v[a] != '/' {
            return Command::Say(text_of(&v, a, b));
        }
        let mut i: usize = a;
        while i < b && !space(v[i])
            invariant
                a <= i <= b <= v@.len(),
                s == v@.subrange(a as int, b as int),
                word_end(s, 0) == word_end(s, i - a),
            decreases b - i,
        {
            assert(s[i - a] == v@[i as int]);
            i += 1;
        }
        proof {
            if i < b {
                assert(s[i - a] == v@[i as int]);
            }
            assert(word_end(s, 0) == i - a);
            assert(s.take(i - a) =~= v@.subrange(a as int, i as int));
        }
        let verb = text_of(&v, a, i);
        if i < b {
            let (x, y) = trim_range(&v, i + 1, b);
            assert(s.skip(i - a + 1) =~= v@.subrange(i + 1, b as int));
            verb_command(verb, text_of(&v, x, y))
        } else {
            verb_command(verb, String::new())
        }
    }
}

/// Whitespace around a line does not change what the line means.
pub proof fn law_padding_does_not_count(lead: Seq<char>, line: Seq<char>, trail: Seq<char>)
    requires
        all_space(lead),
        all_space(trail),
    ensures
        meaning(lead + line + trail) == meaning(line),
{
    lemma_trim_padded(lead, line, trail);
}

proof fn lemma_word_end(s: Seq<char>, verb: Seq<char>, i: int)
    requires
        0 <= i <= verb.len() <= s.len(),
        s.take(verb.len() as int) == verb,
        forall|j: int| 0 <= j < verb.len() ==> !is_space(#[trigger] verb[j]),
        verb.len() < s.len() ==> is_space(s[verb.len() as int]),
    ensures
        word_end(s, i) == verb.len(),
    decreases verb.len() - i,
{
    if i < verb.len() {
        assert(s.take(verb.len() as int)[i] == s[i]);
        lemma_word_end(s, verb, i + 1);
    }
}

proof fn lemma_nothing_to_trim(s: Seq<char>)
    requires
        s.len() > 0,
        !is_space(s[0]),
        !is_space(s.last()),
    ensures
        trim(s) == s,
{
    let (a, b) = law_trim_takes_only_whitespace(s);
    assert(a == 0);
    assert(b == s.len());
    assert(s.subrange(0, b) =~= s);
}

/// What is typed without a slash is said as it is; nothing but whitespace is nothing.
pub proof fn law_plain_text_is_said(text: Seq<char>)
    ensures
        meaning(text) is Empty <==> all_space(text),
        text.len() > 0 && !is_space(text[0]) && !is_space(text.last()) && text[0] != '/' ==> meaning(text)
            == CommandView::Say(text),
{
    let (a, b) = law_trim_takes_only_whitespace(text);
    if text.len() > 0 && !is_space(text[0]) && !is_space(text.last()) {
        lemma_nothing_to_trim(text);
    }
}

/// What a verb means: each has its spellings, and only `/model` and `/index` look at what
/// follows. Any other verb is unknown, and told as it was typed.
pub proof fn law_verbs_have_their_spellings(verb: Seq<char>, rest: Seq<char>)
    ensures
        set!["/help"@, "/h"@, "/?"@].contains(verb) <==> verb_meaning(verb, rest) is Help,
        set!["/clear"@, "/reset"@].contains(verb) <==> verb_meaning(verb, rest) is Clear,
        set!["/quit"@, "/exit"@, "/q"@].contains(verb) <==> verb_meaning(verb, rest) is Quit,
        set!["/sources"@, "/src"@].contains(verb) <==> verb_meaning(verb, rest) is Sources,
        verb == "/forget"@ <==> verb_meaning(verb, rest) is Forget,
        set!["/model"@, "/m"@].contains(verb) <==> verb_meaning(verb, rest) is Model,
        set!["/index"@, "/i"@].contains(verb) <==> verb_meaning(verb, rest) is Index,
        verb_meaning(verb, rest) matches CommandView::Model(name) ==> (name is None <==> rest.len() == 0)
            && (name is Some ==> name->0 == rest),
        verb_meaning(verb, rest) matches CommandView::Index(path) ==> path == rest,
        verb_meaning(verb, rest) matches CommandView::Unknown(said) ==> said == verb,
        !(verb_meaning(verb, rest) is Empty) && !(verb_meaning(verb, rest) is Say),
{
    reveal_strlit("/help");
    reveal_strlit("/h");
    reveal_strlit("/?");
    reveal_strlit("/clear");
    reveal_strlit("/reset");
    reveal_strlit("/quit");
    reveal_strlit("/exit");
    reveal_strlit("/q");
    reveal_strlit("/sources");
    reveal_strlit("/src");
    reveal_strlit("/forget");
    reveal_strlit("/model");
    reveal_strlit("/m");
    reveal_strlit("/index");
    reveal_strlit("/i");
    assert("/help"@.len() == 5 && "/help"@[1] == 'h');
    assert("/h"@.len() == 2 && "/h"@[1] == 'h');
    assert("/?"@.len() == 2 && "/?"@[1] == '?');
    assert("/clear"@.len() == 6 && "/clear"@[1] == 'c');
    assert("/reset"@.len() == 6 && "/reset"@[1] == 'r');
    assert("/quit"@.len() == 5 && "/quit"@[1] == 'q');
    assert("/exit"@.len() == 5 && "/exit"@[1] == 'e');
    assert("/q"@.len() == 2 && "/q"@[1] == 'q');
    assert("/sources"@.len() == 8 && "/sources"@[1] == 's');
    assert("/src"@.len() == 4 && "/src"@[1] == 's');
    assert("/forget"@.len() == 7 && "/forget"@[1] == 'f');
    assert("/model"@.len() == 6 && "/model"@[1] == 'm');
    assert("/m"@.len() == 2 && "/m"@[1] == 'm');
    assert("/index"@.len() == 6 && "/index"@[1] == 'i');
    assert("/i"@.len() == 2 && "/i"@[1] == 'i');
}

/// A line with a slash is a verb and what follows it: the verb goes up to the first
/// whitespace, and the argument is all the rest, without the whitespace around it.
pub proof fn law_argument_is_all_that_follows(
    verb: Seq<char>,
    gap: Seq<char>,
    arg: Seq<char>,
    trail: Seq<char>,
)
    requires
        verb.len() > 0,
        verb[0] == '/',
        forall|j: int| 0 <= j < verb.len() ==> !is_space(#[trigger] verb[j]),
        gap.len() > 0,
        all_space(gap),
        arg.len() > 0,
        !is_space(arg[0]),
        !is_space(arg.last()),
        all_space(trail),
    ensures
        meaning(verb + gap + arg + trail) == verb_meaning(verb, arg),
        meaning(verb + trail) == verb_meaning(verb, Seq::empty()),
{
    let s = verb + gap + arg;
    assert(s[0] == verb[0]);
    assert(s.last() == arg.last());
    lemma_nothing_to_trim(s);
    lemma_trim_padded(Seq::empty(), s, trail);
    assert(Seq::<char>::empty() + s + trail =~= verb + gap + arg + trail);
    let n = verb.len() as int;
    assert(s.take(n) =~= verb);
    assert(s[n] == gap[0]);
    lemma_word_end(s, verb, 0);
    let rest = s.skip(n + 1);
    assert(rest =~= gap.skip(1) + arg + Seq::<char>::empty());
    assert(all_space(gap.skip(1)));
    lemma_trim_padded(gap.skip(1), arg, Seq::empty());
    lemma_nothing_to_trim(arg);
    assert(argument(s) == arg);
    assert(verb.last() == verb[n - 1]);
    lemma_nothing_to_trim(verb);
    lemma_trim_padded(Seq::empty(), verb, trail);
    assert(Seq::<char>::empty() + verb + trail =~= verb + trail);
    assert(verb.take(n) =~= verb);
    lemma_word_end(verb, verb, 0);
}

/// A command, by value, is what it is made of.
pub proof fn law_command_values(command: Command)
    ensures
        command is Empty <==> command@ is Empty,
        command is Help <==> command@ is Help,
        command is Clear <==> command@ is Clear,
        command is Quit <==> command@ is Quit,
        command is Sources <==> command@ is Sources,
        command is Forget <==> command@ is Forget,
        command matches Command::Model(None) ==> command@ == CommandView::Model(None),
        command matches Command::Model(Some(name)) ==> command@ == CommandView::Model(Some(name@)),
        command matches Command::Index(path) ==> command@ == CommandView::Index(path@),
        command matches Command::Unknown(verb) ==> command@ == CommandView::Unknown(verb@),
        command matches Command::Say(text) ==> command@ == CommandView::Say(text@),
{
}

} // verus!
