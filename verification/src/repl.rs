//! The terminal front end: what each line leads to, and what is printed.
//!
//! Reading lines, printing, and talking to the disk and to Ollama is the caller's part. It
//! hands a line over and carries out the [`ReplAction`] that comes back.

use vstd::prelude::*;
#[allow(unused_imports)]
use vstd::string::*;

#[allow(unused_imports)]
use crate::chat::{
    answered, asked, dropped, grounding, messages, notice_view, request, score_view,
};
use crate::chat::{close_turn, open_turn, Prompt, Turn};
#[allow(unused_imports)]
use crate::command::{meaning, CommandView};
use crate::command::Command;
use crate::knowledge::Knowledge;
#[allow(unused_imports)]
use crate::knowledge::{citations, sources_of, strictly_ascending};
use crate::ollama::Message;
use crate::single::Single;
use crate::startup::{expand_path, BOLD, DIM, GREEN, RED, RESET};
#[allow(unused_imports)]
use crate::startup::{expanded, optional};
#[allow(unused_imports)]
use crate::text::{decimal, join, views};
use crate::text::{joined, listed, owned, push_decimal, same};

verus! {

/// A terminal session.
pub struct Session {
    pub model: String,
    pub available: Vec<String>,
    pub knowledge: Knowledge,
    pub history: Vec<Message>,
}

/// What the caller is to do about a line.
pub enum ReplAction {
    /// Nothing: read the next line.
    Nothing,
    /// Leave.
    Quit,
    /// Print this text and a newline.
    Print { text: String },
    /// Index this path.
    Index { path: Vec<u8> },
    /// Delete the saved index, then print this text and a newline.
    Forget { text: String },
    /// Ask the model this, after looking it up in the indexed files where `lookup` says so.
    Ask { question: String, lookup: bool },
}

// ---------------------------------------------------------------------------
// What is printed
// ---------------------------------------------------------------------------

/// Dimmed text.
pub open spec fn dimmed(text: Seq<char>) -> Seq<char> {
    DIM@ + text + RESET@
}

fn dim(text: &str) -> (r: String)
    ensures
        r@ == dimmed(text@),
{
    owned(DIM).concat(text).concat(RESET)
}

/// How many chunks of how many files.
pub open spec fn tally(chunks: nat, files: nat) -> Seq<char> {
    decimal(chunks) + " chunks from "@ + decimal(files) + " files"@
}

fn tally_text(chunks: usize, files: usize) -> (r: String)
    ensures
        r@ == tally(chunks as nat, files as nat),
{
    let mut r = String::new();
    push_decimal(&mut r, chunks as u128);
    assert(r@ =~= decimal(chunks as nat));
    r.append(" chunks from ");
    push_decimal(&mut r, files as u128);
    r.append(" files");
    r
}

/// The first lines of a session.
pub open spec fn banner(
    model: Seq<char>,
    host: Seq<char>,
    chunks: nat,
    files: nat,
    root: Seq<char>,
) -> Seq<Seq<char>> {
    seq![
        BOLD@ + "rust chatbot"@ + RESET@ + " "@ + DIM@ + "// "@ + model + " @ "@ + host + RESET@,
        if chunks == 0 {
            dimmed("no files indexed yet -- try /index ~/some/folder"@)
        } else {
            dimmed("knows "@ + tally(chunks, files) + " in "@ + root)
        },
        dimmed("/help for commands, /quit to exit"@) + "\n"@,
    ]
}

/// The commands, explained.
pub open spec fn help() -> Seq<char> {
    DIM@
        + "  /index <folder>  read a folder and learn what's in it\n  /sources         what's currently loaded\n  /forget          drop everything it learned\n  /clear           forget the conversation (keeps indexed files)\n  /model           list available models\n  /model <name>    switch model\n  /help            this message\n  /quit            exit (ctrl-D works too)"@
        + RESET@ + "\n"@
}

fn help_text() -> (r: String)
    ensures
        r@ == help(),
{
    owned(DIM).concat(
        "  /index <folder>  read a folder and learn what's in it\n  /sources         what's currently loaded\n  /forget          drop everything it learned\n  /clear           forget the conversation (keeps indexed files)\n  /model           list available models\n  /model <name>    switch model\n  /help            this message\n  /quit            exit (ctrl-D works too)",
    ).concat(RESET).concat("\n")
}

/// One line of the list of models; the current one is marked.
pub open spec fn model_line(m: Seq<char>, current: Seq<char>) -> Seq<char> {
    DIM@ + "  "@ + if m == current {
        "*"@
    } else {
        " "@
    } + " "@ + m + RESET@ + "\n"@
}

/// The list of models.
pub open spec fn model_lines(available: Seq<Seq<char>>, current: Seq<char>) -> Seq<char>
    decreases available.len(),
{
    if available.len() == 0 {
        Seq::empty()
    } else {
        model_lines(available.drop_last(), current) + model_line(available.last(), current)
    }
}

/// The current model and all that are available.
pub open spec fn model_list(available: Seq<Seq<char>>, current: Seq<char>) -> Seq<char> {
    DIM@ + "current: "@ + BOLD@ + current + RESET@ + "\n"@ + model_lines(available, current)
}

fn model_list_text(available: &Vec<String>, current: &str) -> (r: String)
    ensures
        r@ == model_list(views(available@), current@),
{
    let ghost all = views(available@);
    let mut r = owned(DIM).concat("current: ").concat(BOLD).concat(current).concat(RESET).concat("\n");
    let ghost head = r@;
    let mut i: usize = 0;
    assert(all.take(0) =~= Seq::empty());
    assert(r@ =~= head + model_lines(all.take(0), current@));
    while i < available.len()
        invariant
            i <= available@.len(),
            all == views(available@),
            r@ == head + model_lines(all.take(i as int), current@),
        decreases available@.len() - i,
    {
        let m = available[i].as_str();
        let ghost before = r@;
        proof {
            assert(all.take(i + 1).drop_last() =~= all.take(i as int));
            assert(all.take(i + 1).last() == m@);
        }
        r.append(DIM);
        r.append("  ");
        if same(m, current) {
            r.append("*");
        } else {
            r.append(" ");
        }
        r.append(" ");
        r.append(m);
        r.append(RESET);
        r.append("\n");
        assert(r@ =~= before + model_line(m@, current@));
        assert(r@ =~= head + model_lines(all.take(i + 1), current@));
        i += 1;
    }
    assert(all.take(available@.len() as int) =~= all);
    r
}

/// What is said after `/model <name>`.
pub open spec fn switch_text(known: bool, name: Seq<char>, available: Seq<Seq<char>>) -> Seq<char> {
    if known {
        DIM@ + "switched to "@ + BOLD@ + name + RESET@ + "\n"@
    } else {
        RED@ + "no such model:"@ + RESET@ + " "@ + name + "\n"@ + DIM@ + "available: "@ + join(
            available,
            ", "@,
        ) + RESET@ + "\n"@
    }
}

/// File names, one per line.
pub open spec fn name_lines(names: Seq<Seq<char>>) -> Seq<char>
    decreases names.len(),
{
    if names.len() == 0 {
        Seq::empty()
    } else {
        name_lines(names.drop_last()) + (DIM@ + "  "@ + names.last() + RESET@ + "\n"@)
    }
}

/// What is loaded: how much, from where, and the first twenty file names.
pub open spec fn source_list(chunks: nat, root: Seq<char>, names: Seq<Seq<char>>) -> Seq<char> {
    let head = dimmed(tally(chunks, names.len()) + ", indexed from "@ + root) + "\n"@;
    if names.len() > 20 {
        head + name_lines(names.take(20)) + dimmed(
            "  ... and "@ + decimal((names.len() - 20) as nat) + " more"@,
        ) + "\n"@
    } else {
        head + name_lines(names)
    }
}

/// Whether these are the names of the files that are represented, in dictionary order.
pub open spec fn names_of(names: Seq<Seq<char>>, k: Knowledge) -> bool {
    strictly_ascending(names) && names.to_set() == sources_of(k.chunks@).to_set()
}

/// What is said after `/sources`.
pub open spec fn sources_text(k: Knowledge, text: Seq<char>) -> bool {
    if k.chunks@.len() == 0 {
        text == dimmed("nothing indexed. try /index ~/some/folder"@) + "\n"@
    } else {
        exists|names: Seq<Seq<char>>|
            #[trigger] names_of(names, k) && text == source_list(k.chunks@.len(), k.root@, names)
    }
}

fn source_list_text(k: &Knowledge) -> (r: String)
    ensures
        sources_text(*k, r@),
{
    if k.is_empty() {
        return dim("nothing indexed. try /index ~/some/folder").concat("\n");
    }
    let names = k.file_names();
    let ghost all = views(names@);
    let n = names.len();
    let mut r = owned(DIM);
    r.append(tally_text(k.chunks.len(), n).as_str());
    r.append(", indexed from ");
    r.append(k.root.as_str());
    r.append(RESET);
    r.append("\n");
    let ghost head = dimmed(tally(k.chunks@.len(), all.len()) + ", indexed from "@ + k.root@) + "\n"@;
    assert(r@ =~= head);
    let shown: usize = if n > 20 {
        20
    } else {
        n
    };
    let mut i: usize = 0;
    assert(all.take(0) =~= Seq::empty());
    assert(r@ =~= head + name_lines(all.take(0)));
    while i < shown
        invariant
            i <= shown <= names@.len(),
            all == views(names@),
            r@ == head + name_lines(all.take(i as int)),
        decreases shown - i,
    {
        let ghost before = r@;
        proof {
            assert(all.take(i + 1).drop_last() =~= all.take(i as int));
            assert(all.take(i + 1).last() == names@[i as int]@);
        }
        r.append(DIM);
        r.append("  ");
        r.append(names[i].as_str());
        r.append(RESET);
        r.append("\n");
        assert(r@ =~= before + (DIM@ + "  "@ + all[i as int] + RESET@ + "\n"@));
        assert(r@ =~= head + name_lines(all.take(i + 1)));
        i += 1;
    }
    if n > 20 {
        let ghost before = r@;
        r.append(DIM);
        r.append("  ... and ");
        push_decimal(&mut r, (n - 20) as u128);
        r.append(" more");
        r.append(RESET);
        r.append("\n");
        assert(r@ =~= before + dimmed("  ... and "@ + decimal((n - 20) as nat) + " more"@) + "\n"@);
    } else {
        assert(all.take(n as int) =~= all);
    }
    assert(names_of(all, *k));
    assert(r@ == source_list(k.chunks@.len(), k.root@, all));
    r
}

/// The files an answer is grounded in, with their scores.
pub open spec fn source_marks(sources: Seq<(Seq<char>, Single)>) -> Seq<Seq<char>> {
    sources.map_values(|s: (Seq<char>, Single)| s.0 + " ("@ + s.1.shown(2) + ")"@)
}

/// The line below an answer that names its sources.
pub fn sources_line(sources: &Vec<(String, Single)>) -> (r: Option<String>)
    ensures
        r is None <==> sources@.len() == 0,
        r is Some ==> r->0@ == dimmed(
            "  sources: "@ + join(source_marks(citations(sources@)), ", "@),
        ),
{
    if sources.len() == 0 {
        return None;
    }
    let ghost all = source_marks(citations(sources@));
    let mut marks: Vec<String> = Vec::new();
    let mut i: usize = 0;
    assert(views(marks@) =~= all.take(0));
    while i < sources.len()
        invariant
            i <= sources@.len(),
            all == source_marks(citations(sources@)),
            views(marks@) == all.take(i as int),
        decreases sources@.len() - i,
    {
        let ghost before = views(marks@);
        let mark = owned(sources[i].0.as_str()).concat(" (").concat(sources[i].1.fixed(2).as_str()).concat(
            ")",
        );
        marks.push(mark);
        proof {
            assert(citations(sources@)[i as int] == (sources@[i as int].0@, sources@[i as int].1));
            assert(views(marks@) =~= before.push(all[i as int]));
            assert(all.take(i + 1) =~= all.take(i as int).push(all[i as int]));
        }
        i += 1;
    }
    assert(all.take(sources@.len() as int) =~= all);
    let text = owned("  sources: ").concat(joined(&marks, ", ").as_str());
    Some(dim(text.as_str()))
}

/// What is said of an index that has just been built.
pub fn learned_text(chunks: usize, files: usize, seconds: Single) -> (r: String)
    ensures
        r@ == GREEN@ + "learned"@ + RESET@ + " "@ + tally(chunks as nat, files as nat) + " in "@
            + seconds.shown(1) + "s"@,
{
    owned(GREEN).concat("learned").concat(RESET).concat(" ").concat(
        tally_text(chunks, files).as_str(),
    ).concat(" in ").concat(seconds.fixed(1).as_str()).concat("s")
}

/// How far embedding has come, over the line before.
pub fn progress_text(done: usize, total: usize) -> (r: String)
    ensures
        r@ == "\r"@ + dimmed(
            "  embedded "@ + decimal(done as nat) + "/"@ + decimal(total as nat) + " chunks"@,
        ),
{
    let mut text = owned("  embedded ");
    push_decimal(&mut text, done as u128);
    text.append("/");
    push_decimal(&mut text, total as u128);
    text.append(" chunks");
    owned("\r").concat(dim(text.as_str()).as_str())
}

/// A label in colour, and what it is about.
pub fn labelled_line(colour: &str, label: &str, about: &str) -> (r: String)
    ensures
        r@ == colour@ + label@ + RESET@ + " "@ + about@,
{
    owned(colour).concat(label).concat(RESET).concat(" ").concat(about)
}

// ---------------------------------------------------------------------------
// The session
// ---------------------------------------------------------------------------

/// What a line leads to, by its meaning: the session before and after, and the action.
pub open spec fn reacts(
    before: Session,
    command: CommandView,
    home: Option<Seq<char>>,
    after: Session,
    action: ReplAction,
) -> bool {
    let models = views(before.available@);
    &&& after.available == before.available
    &&& command is Model || after.model == before.model
    &&& command is Forget || after.knowledge == before.knowledge
    &&& command is Clear || after.history == before.history
    &&& match command {
        CommandView::Empty => action is Nothing,
        CommandView::Quit => action is Quit,
        CommandView::Help => action matches ReplAction::Print { text } && text@ == help(),
        CommandView::Clear => after.history@.len() == 0 && (action matches ReplAction::Print { text }
            && text@ == dimmed("cleared "@ + decimal(before.history@.len()) + " messages"@) + "\n"@),
        CommandView::Model(None) => after.model == before.model && (action matches ReplAction::Print {
            text,
        } && text@ == model_list(models, before.model@)),
        CommandView::Model(Some(name)) => {
            &&& after.model@ == if models.contains(name) {
                name
            } else {
                before.model@
            }
            &&& action matches ReplAction::Print { text } && text@ == switch_text(
                models.contains(name),
                name,
                models,
            )
        },
        CommandView::Index(path) => if path.len() == 0 {
            action matches ReplAction::Print { text } && text@ == RED@ + "usage:"@ + RESET@
                + " /index <folder>\n"@
        } else {
            action matches ReplAction::Index { path: p } && p@ == expanded(path, home)
        },
        CommandView::Sources => action matches ReplAction::Print { text } && sources_text(
            before.knowledge,
            text@,
        ),
        CommandView::Forget => after.knowledge.chunks@.len() == 0 && after.knowledge.root@.len() == 0 && (
        action matches ReplAction::Forget { text } && text@ == dimmed(
            "forgot everything from the indexed files"@,
        ) + "\n"@),
        CommandView::Unknown(verb) => action matches ReplAction::Print { text } && text@ == RED@
            + "unknown command:"@ + RESET@ + " "@ + verb + " "@ + dimmed("(try /help)"@) + "\n"@,
        CommandView::Say(text) => action matches ReplAction::Ask { question, lookup } && question@ == text
            && lookup == (before.knowledge.chunks@.len() > 0),
    }
}

impl Session {
    /// A session with nothing said yet.
    pub fn start(model: String, available: Vec<String>, knowledge: Knowledge) -> (s: Session)
        ensures
            s.model == model,
            s.available == available,
            s.knowledge == knowledge,
            s.history@.len() == 0,
    {
        Session { model, available, knowledge, history: Vec::new() }
    }

    /// The first lines of a session.
    pub fn greeting(&self, host: &str) -> (r: Vec<String>)
        ensures
            views(r@) == banner(
                self.model@,
                host@,
                self.knowledge.chunks@.len(),
                sources_of(self.knowledge.chunks@).to_set().len(),
                self.knowledge.root@,
            ),
    {
        let mut r: Vec<String> = Vec::new();
        r.push(
            owned(BOLD).concat("rust chatbot").concat(RESET).concat(" ").concat(DIM).concat("// ").concat(
                self.model.as_str(),
            ).concat(" @ ").concat(host).concat(RESET),
        );
        let files = self.knowledge.file_count();
        if self.knowledge.is_empty() {
            r.push(dim("no files indexed yet -- try /index ~/some/folder"));
        } else {
            let text = owned("knows ").concat(
                tally_text(self.knowledge.chunks.len(), files).as_str(),
            ).concat(" in ").concat(self.knowledge.root.as_str());
            r.push(dim(text.as_str()));
        }
        r.push(dim("/help for commands, /quit to exit").concat("\n"));
        assert(views(r@) =~= banner(
            self.model@,
            host@,
            self.knowledge.chunks@.len(),
            sources_of(self.knowledge.chunks@).to_set().len(),
            self.knowledge.root@,
        ));
        r
    }

    /// Takes in a line, and says what to do about it.
    pub fn react(&mut self, line: &str, home: Option<&str>) -> (r: ReplAction)
        ensures
            reacts(*old(self), meaning(line@), optional(home), *final(self), r),
    {
        match Command::parse(line) {
            Command::Empty => ReplAction::Nothing,
            Command::Quit => ReplAction::Quit,
            Command::Help => ReplAction::Print { text: help_text() },
            Command::Clear => {
                let mut text = owned("cleared ");
                push_decimal(&mut text, self.history.len() as u128);
                text.append(" messages");
                self.history = Vec::new();
                ReplAction::Print { text: dim(text.as_str()).concat("\n") }
            },
            Command::Model(None) => ReplAction::Print {
                text: model_list_text(&self.available, self.model.as_str()),
            },
            Command::Model(Some(name)) => {
                if listed(&self.available, name.as_str()) {
                    let text = owned(DIM).concat("switched to ").concat(BOLD).concat(
                        name.as_str(),
                    ).concat(RESET).concat("\n");
                    self.model = name;
                    ReplAction::Print { text }
                } else {
                    let text = owned(RED).concat("no such model:").concat(RESET).concat(" ").concat(
                        name.as_str(),
                    ).concat("\n").concat(DIM).concat("available: ").concat(
                        joined(&self.available, ", ").as_str(),
                    ).concat(RESET).concat("\n");
                    ReplAction::Print { text }
                }
            },
            Command::Index(path) => {
                if path.as_str().is_empty() {
                    ReplAction::Print {
                        text: owned(RED).concat("usage:").concat(RESET).concat(" /index <folder>\n"),
                    }
                } else {
                    ReplAction::Index { path: expand_path(path.as_str(), home) }
                }
            },
            Command::Sources => ReplAction::Print { text: source_list_text(&self.knowledge) },
            Command::Forget => {
                self.knowledge = Knowledge::default();
                ReplAction::Forget { text: dim("forgot everything from the indexed files").concat("\n") }
            },
            Command::Unknown(verb) => ReplAction::Print {
                text: owned(RED).concat("unknown command:").concat(RESET).concat(" ").concat(
                    verb.as_str(),
                ).concat(" ").concat(dim("(try /help)").as_str()).concat("\n"),
            },
            Command::Say(text) => ReplAction::Ask {
                question: text,
                lookup: !self.knowledge.is_empty(),
            },
        }
    }

    /// A folder has been indexed: its index takes the place of the one before.
    pub fn learn(&mut self, knowledge: Knowledge)
        ensures
            final(self).knowledge == knowledge,
            final(self).model == old(self).model,
            final(self).available == old(self).available,
            final(self).history == old(self).history,
    {
        self.knowledge = knowledge;
    }

    /// Asks a question, given the similarity of each chunk to it.
    pub fn ask(&mut self, question: String, scores: Result<Option<Vec<Single>>, String>) -> (r: Prompt)
        requires
            scores matches Ok(Some(list)) ==> list@.len() == old(self).knowledge.chunks@.len(),
        ensures
            messages(final(self).history@) == asked(messages(old(self).history@), question@),
            ({
                let g = grounding(old(self).knowledge.chunks@, score_view(scores));
                &&& notice_view(r.notice) == g.notice
                &&& messages(r.request@) == request(g.context, messages(final(self).history@))
                &&& citations(r.turn.sources@) == g.sources
            }),
            final(self).model == old(self).model,
            final(self).available == old(self).available,
            final(self).knowledge == old(self).knowledge,
    {
        open_turn(&mut self.history, &self.knowledge, question, scores)
    }

    /// Ends a turn: with a reply, or with the reason why there is none.
    pub fn conclude(&mut self, turn: Turn, outcome: Result<String, String>) -> (r: Result<
        Vec<(String, Single)>,
        String,
    >)
        ensures
            match outcome {
                Ok(reply) => {
                    &&& messages(final(self).history@) == answered(
                        messages(old(self).history@),
                        reply@,
                    )
                    &&& r == Ok::<Vec<(String, Single)>, String>(turn.sources)
                },
                Err(reason) => {
                    &&& messages(final(self).history@) == dropped(messages(old(self).history@))
                    &&& r == Err::<Vec<(String, Single)>, String>(reason)
                },
            },
            final(self).model == old(self).model,
            final(self).available == old(self).available,
            final(self).knowledge == old(self).knowledge,
    {
        close_turn(&mut self.history, turn, outcome)
    }
}

/// `/clear` forgets the conversation and keeps the indexed files; `/forget` drops the files
/// and keeps the conversation; no other line changes either, and only `/model` with the name
/// of a model that is there changes the model.
pub proof fn law_commands_keep_to_their_own(
    before: Session,
    line: Seq<char>,
    home: Option<Seq<char>>,
    after: Session,
    action: ReplAction,
)
    requires
        reacts(before, meaning(line), home, after, action),
    ensures
        after.available == before.available,
        meaning(line) is Clear ==> after.history@.len() == 0 && after.knowledge == before.knowledge,
        meaning(line) is Forget ==> after.knowledge.chunks@.len() == 0 && after.history
            == before.history,
        !(meaning(line) is Clear) ==> after.history == before.history,
        !(meaning(line) is Forget) ==> after.knowledge == before.knowledge,
        after.model@ != before.model@ ==> views(after.available@).contains(after.model@)
            && meaning(line) == CommandView::Model(Some(after.model@)),
{
}

// ---------------------------------------------------------------------------
// What a session promises
// ---------------------------------------------------------------------------

/// Every model is listed on a line of its own, in the given order, and only the current one is
/// marked; the current one stands above them all.
pub proof fn law_every_model_is_listed(
    a: Seq<Seq<char>>,
    b: Seq<Seq<char>>,
    m: Seq<char>,
    current: Seq<char>,
)
    ensures
        model_lines(Seq::empty(), current).len() == 0,
        model_lines(a + b, current) == model_lines(a, current) + model_lines(b, current),
        model_lines(seq![m], current) == "\x1b[2m"@ + "  "@ + (if m == current {
            "*"@
        } else {
            " "@
        }) + " "@ + m + "\x1b[0m"@ + "\n"@,
        model_list(a, current) == "\x1b[2m"@ + "current: "@ + "\x1b[1m"@ + current + "\x1b[0m"@ + "\n"@
            + model_lines(a, current),
    decreases b.len(),
{
    assert(seq![m].drop_last() =~= Seq::empty());
    assert(model_lines(seq![m].drop_last(), current) =~= Seq::empty());
    assert(seq![m].last() == m);
    assert(model_lines(seq![m], current) =~= model_line(m, current));
    if b.len() == 0 {
        assert(a + b =~= a);
        assert(model_lines(a, current) + model_lines(b, current) =~= model_lines(a, current));
    } else {
        law_every_model_is_listed(a, b.drop_last(), m, current);
        assert((a + b).drop_last() =~= a + b.drop_last());
        assert((a + b).last() == b.last());
        assert(model_lines(a + b, current) =~= model_lines(a, current) + model_lines(b, current));
    }
}

/// Every file name is listed on a line of its own, in the given order.
pub proof fn law_every_name_is_listed(a: Seq<Seq<char>>, b: Seq<Seq<char>>, name: Seq<char>)
    ensures
        name_lines(Seq::empty()).len() == 0,
        name_lines(a + b) == name_lines(a) + name_lines(b),
        name_lines(seq![name]) == "\x1b[2m"@ + "  "@ + name + "\x1b[0m"@ + "\n"@,
    decreases b.len(),
{
    assert(seq![name].drop_last() =~= Seq::empty());
    assert(name_lines(seq![name].drop_last()) =~= Seq::empty());
    assert(seq![name].last() == name);
    assert(name_lines(seq![name]) =~= "\x1b[2m"@ + "  "@ + name + "\x1b[0m"@ + "\n"@);
    if b.len() == 0 {
        assert(a + b =~= a);
        assert(name_lines(a) + name_lines(b) =~= name_lines(a));
    } else {
        law_every_name_is_listed(a, b.drop_last(), name);
        assert((a + b).drop_last() =~= a + b.drop_last());
        assert((a + b).last() == b.last());
        assert(name_lines(a + b) =~= name_lines(a) + name_lines(b));
    }
}

/// Of what is loaded, up to twenty names are listed; of more, the first twenty, and how many
/// are left out. What stands above them counts all.
pub proof fn law_up_to_twenty_names_are_listed(
    chunks: nat,
    root: Seq<char>,
    first: Seq<Seq<char>>,
    rest: Seq<Seq<char>>,
)
    requires
        rest.len() > 0 ==> first.len() == 20,
        first.len() <= 20,
    ensures
        ({
            let head = "\x1b[2m"@ + (decimal(chunks) + " chunks from "@ + decimal(first.len() + rest.len())
                + " files"@ + ", indexed from "@ + root) + "\x1b[0m"@ + "\n"@;
            source_list(chunks, root, first + rest) == if rest.len() == 0 {
                head + name_lines(first)
            } else {
                head + name_lines(first) + ("\x1b[2m"@ + ("  ... and "@ + decimal(rest.len()) + " more"@)
                    + "\x1b[0m"@) + "\n"@
            }
        }),
{
    if rest.len() == 0 {
        assert(first + rest =~= first);
    } else {
        assert((first + rest).take(20) =~= first);
    }
}

/// Whether some chunk comes from the file of this name.
pub open spec fn has_chunk_of(k: Knowledge, name: Seq<char>) -> bool {
    exists|c: int| 0 <= c < k.chunks@.len() && (#[trigger] k.chunks@[c]).source@ == name
}

/// The names of the files are told in ascending order, each once: every file that is
/// represented, and no other.
pub proof fn law_names_are_those_of_the_files(names: Seq<Seq<char>>, k: Knowledge)
    requires
        names_of(names, k),
    ensures
        forall|i: int, j: int|
            #![trigger names[i], names[j]]
            0 <= i < j < names.len() ==> crate::text::text_less(names[i], names[j]),
        forall|c: int|
            0 <= c < k.chunks@.len() ==> names.contains((#[trigger] k.chunks@[c]).source@),
        forall|i: int| 0 <= i < names.len() ==> has_chunk_of(k, #[trigger] names[i]),
{
    let all = sources_of(k.chunks@);
    assert forall|c: int| 0 <= c < k.chunks@.len() implies names.contains(
        (#[trigger] k.chunks@[c]).source@,
    ) by {
        assert(all[c] == k.chunks@[c].source@);
        assert(all.to_set().contains(all[c]));
        assert(names.to_set().contains(all[c]));
    }
    assert forall|i: int| 0 <= i < names.len() implies has_chunk_of(k, #[trigger] names[i]) by {
        assert(names.to_set().contains(names[i]));
        assert(all.to_set().contains(names[i]));
        let c = choose|c: int| 0 <= c < all.len() && all[c] == names[i];
        assert(k.chunks@[c].source@ == names[i]);
    }
}

/// What `/sources` prints is the list of all those names, and says so where there are none.
pub proof fn law_sources_are_listed(k: Knowledge, text: Seq<char>) -> (names: Seq<Seq<char>>)
    requires
        sources_text(k, text),
    ensures
        k.chunks@.len() == 0 ==> text == "\x1b[2m"@ + "nothing indexed. try /index ~/some/folder"@
            + "\x1b[0m"@ + "\n"@,
        k.chunks@.len() > 0 ==> names_of(names, k) && text == source_list(
            k.chunks@.len(),
            k.root@,
            names,
        ),
{
    choose|names: Seq<Seq<char>>|
        #[trigger] names_of(names, k) && text == source_list(k.chunks@.len(), k.root@, names)
}

/// Below an answer every source is named with its score, in the given order.
pub proof fn law_every_source_is_marked(sources: Seq<(Seq<char>, Single)>)
    ensures
        source_marks(sources).len() == sources.len(),
        forall|i: int|
            0 <= i < sources.len() ==> #[trigger] source_marks(sources)[i] == sources[i].0 + " ("@
                + sources[i].1.shown(2) + ")"@,
{
}

/// The first lines of a session: the model and the host, what is known, and the way to the
/// commands.
pub proof fn law_greeting_tells_what_is_known(
    model: Seq<char>,
    host: Seq<char>,
    chunks: nat,
    files: nat,
    root: Seq<char>,
)
    ensures
        banner(model, host, chunks, files, root).len() == 3,
        banner(model, host, chunks, files, root)[0] == "\x1b[1m"@ + "rust chatbot"@ + "\x1b[0m"@ + " "@
            + "\x1b[2m"@ + "// "@ + model + " @ "@ + host + "\x1b[0m"@,
        chunks == 0 ==> banner(model, host, chunks, files, root)[1] == "\x1b[2m"@
            + "no files indexed yet -- try /index ~/some/folder"@ + "\x1b[0m"@,
        chunks > 0 ==> banner(model, host, chunks, files, root)[1] == "\x1b[2m"@ + ("knows "@ + (decimal(
            chunks,
        ) + " chunks from "@ + decimal(files) + " files"@) + " in "@ + root) + "\x1b[0m"@,
        banner(model, host, chunks, files, root)[2] == "\x1b[2m"@ + "/help for commands, /quit to exit"@
            + "\x1b[0m"@ + "\n"@,
{
}

/// The counts in a greeting and in a report tell chunks before files.
pub proof fn law_tally_tells_both_counts(chunks: nat, files: nat)
    ensures
        tally(chunks, files) == decimal(chunks) + " chunks from "@ + decimal(files) + " files"@,
{
}

/// Text that is said goes to the model as it is, and is looked up exactly where something is
/// indexed. A folder to index is taken from the line, with the home for its `~`.
pub proof fn law_questions_and_folders_are_handed_on(
    before: Session,
    line: Seq<char>,
    home: Option<Seq<char>>,
    after: Session,
    action: ReplAction,
)
    requires
        reacts(before, meaning(line), home, after, action),
    ensures
        meaning(line) matches CommandView::Say(text) ==> (action matches ReplAction::Ask {
            question,
            lookup,
        } && question@ == text && (lookup <==> before.knowledge.chunks@.len() > 0)),
        meaning(line) matches CommandView::Index(path) ==> if path.len() > 0 {
            action matches ReplAction::Index { path: p } && p@ == expanded(path, home)
        } else {
            action matches ReplAction::Print { text } && text@ == "\x1b[31m"@ + "usage:"@ + "\x1b[0m"@
                + " /index <folder>\n"@
        },
        meaning(line) is Quit <==> action is Quit,
        meaning(line) is Empty <==> action is Nothing,
        meaning(line) is Forget <==> action is Forget,
        action is Ask ==> meaning(line) is Say,
        action is Index ==> meaning(line) is Index,
{
}

/// What is printed for each of the other lines.
pub proof fn law_lines_are_answered(
    before: Session,
    line: Seq<char>,
    home: Option<Seq<char>>,
    after: Session,
    action: ReplAction,
)
    requires
        reacts(before, meaning(line), home, after, action),
    ensures
        meaning(line) is Clear ==> (action matches ReplAction::Print { text } && text@ == "\x1b[2m"@ + (
        "cleared "@ + decimal(before.history@.len()) + " messages"@) + "\x1b[0m"@ + "\n"@),
        meaning(line) is Forget ==> after.knowledge.root@.len() == 0 && (action matches ReplAction::Forget {
            text,
        } && text@ == "\x1b[2m"@ + "forgot everything from the indexed files"@ + "\x1b[0m"@ + "\n"@),
        meaning(line) is Help ==> (action matches ReplAction::Print { text } && text@ == help()),
        meaning(line) matches CommandView::Unknown(verb) ==> (action matches ReplAction::Print { text }
            && text@ == "\x1b[31m"@ + "unknown command:"@ + "\x1b[0m"@ + " "@ + verb + " "@ + ("\x1b[2m"@
            + "(try /help)"@ + "\x1b[0m"@) + "\n"@),
        meaning(line) is Sources ==> (action matches ReplAction::Print { text } && sources_text(
            before.knowledge,
            text@,
        )),
{
}

/// A model that is there is switched to, whatever was used before; one that is not there
/// changes nothing, and all that are there are told. Without a name, they are listed.
pub proof fn law_model_is_switched_where_it_is_there(
    before: Session,
    line: Seq<char>,
    home: Option<Seq<char>>,
    after: Session,
    action: ReplAction,
)
    requires
        reacts(before, meaning(line), home, after, action),
    ensures
        meaning(line) matches CommandView::Model(Some(name)) ==> {
            &&& action is Print
            &&& (exists|i: int| 0 <= i < before.available@.len() && (#[trigger] before.available@[i])@ == name)
                ==> after.model@ == name && action->Print_text@ == "\x1b[2m"@ + "switched to "@ + "\x1b[1m"@
                + name + "\x1b[0m"@ + "\n"@
            &&& (forall|i: int|
                0 <= i < before.available@.len() ==> (#[trigger] before.available@[i])@ != name)
                ==> after.model@ == before.model@ && action->Print_text@ == "\x1b[31m"@ + "no such model:"@
                + "\x1b[0m"@ + " "@ + name + "\n"@ + "\x1b[2m"@ + "available: "@ + join(
                views(before.available@),
                ", "@,
            ) + "\x1b[0m"@ + "\n"@
        },
        meaning(line) matches CommandView::Model(None) ==> after.model == before.model && (
        action matches ReplAction::Print { text } && text@ == model_list(
            views(before.available@),
            before.model@,
        )),
{
    let models = views(before.available@);
    if let CommandView::Model(Some(name)) = meaning(line) {
        if models.contains(name) {
            let i = models.index_of(name);
            assert(before.available@[i]@ == name);
        }
        assert forall|i: int| 0 <= i < before.available@.len() && (#[trigger] before.available@[i])@ == name implies models.contains(name) by {
            assert(models[i] == name);
        }
    }
}

/// The help names every command.
pub proof fn law_help_names_every_command()
    ensures
        help() == "\x1b[2m"@
            + "  /index <folder>  read a folder and learn what's in it\n  /sources         what's currently loaded\n  /forget          drop everything it learned\n  /clear           forget the conversation (keeps indexed files)\n  /model           list available models\n  /model <name>    switch model\n  /help            this message\n  /quit            exit (ctrl-D works too)"@
            + "\x1b[0m"@ + "\n"@,
{
}

} // verus!
