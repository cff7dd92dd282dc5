//! One turn of the conversation: what the model is told, and what is remembered of it.
//!
//! Both front ends go through here, so the terminal and the browser can never drift apart on
//! what the model is actually told.

use vstd::prelude::*;

#[allow(unused_imports)]
use crate::governance::{floor, has_evidence, no_evidence, RefusalCode, RefusalView};
use crate::governance::{EvidenceGate, Refusal};
#[allow(unused_imports)]
use crate::knowledge::{
    citations, law_admission_agrees_with_retrieval, law_citations_are_evidence, retrieval, Chunk,
};
use crate::knowledge::{Knowledge, Retrieval};
use crate::ollama::Message;
#[allow(unused_imports)]
use crate::ollama::{from_assistant, from_system, from_user, MessageView};
use crate::single::Single;

verus! {

// ---------------------------------------------------------------------------
// Grounding
// ---------------------------------------------------------------------------

/// What came of looking up a question in the indexed files.
pub enum Lookup {
    /// Nothing is indexed, or the question has no embedding: there was nothing to look up.
    Skipped,
    /// The lookup failed, for this reason.
    Failed { reason: String },
    /// The lookup nominated this.
    Found { retrieval: Retrieval },
}

/// What to tell the user before the answer.
pub enum Notice {
    /// The lookup failed, so the answer does without the files.
    LookupFailed { reason: String },
    /// [`EvidenceGate`] refused to answer from what was found, so the answer does without it.
    Refused { refusal: Refusal },
}

/// What an answer is grounded in.
pub struct Grounding {
    /// What the model is told of the files, if anything.
    pub context: Option<String>,
    /// The files it is told of.
    pub sources: Vec<(String, Single)>,
    pub notice: Option<Notice>,
}

/// What to tell the user before the answer, by value.
pub enum NoticeView {
    LookupFailed(Seq<char>),
    Refused(RefusalView),
}

/// What an answer is grounded in, by value.
pub struct GroundingView {
    pub context: Option<Seq<char>>,
    pub sources: Seq<(Seq<char>, Single)>,
    pub notice: Option<NoticeView>,
}

/// A notice, by value.
pub open spec fn notice_view(notice: Option<Notice>) -> Option<NoticeView> {
    match notice {
        Some(Notice::LookupFailed { reason }) => Some(NoticeView::LookupFailed(reason@)),
        Some(Notice::Refused { refusal }) => Some(NoticeView::Refused(refusal@)),
        None => None,
    }
}

/// No grounding, with this notice.
pub open spec fn ungrounded(notice: Option<NoticeView>) -> GroundingView {
    GroundingView { context: None, sources: Seq::empty(), notice }
}

/// The similarity of each chunk to a question, or why there is none, by value.
pub open spec fn score_view(scores: Result<Option<Vec<Single>>, String>) -> Result<
    Option<Seq<Single>>,
    Seq<char>,
> {
    match scores {
        Ok(Some(list)) => Ok(Some(list@)),
        Ok(None) => Ok(None),
        Err(reason) => Err(reason@),
    }
}

/// What the answer to a question is grounded in: what retrieval nominates, where that is
/// evidence, and otherwise nothing.
pub open spec fn grounding(
    chunks: Seq<Chunk>,
    scores: Result<Option<Seq<Single>>, Seq<char>>,
) -> GroundingView {
    match scores {
        Err(reason) => ungrounded(Some(NoticeView::LookupFailed(reason))),
        Ok(None) => ungrounded(None),
        Ok(Some(list)) => {
            let found = retrieval(chunks, list);
            if chunks.len() == 0 {
                ungrounded(None)
            } else if has_evidence(found.sources.len(), found.best_score) {
                GroundingView { context: found.context, sources: found.sources, notice: None }
            } else {
                ungrounded(Some(NoticeView::Refused(no_evidence(found.best_score))))
            }
        },
    }
}

impl Grounding {
    /// Whether the answer is grounded in nothing.
    pub open spec fn bare(self) -> bool {
        self.context is None && self.sources@.len() == 0
    }
}

/// Looks a question up, given the similarity of each chunk to it, where there are any; or the
/// reason why there are none.
pub fn look_up(knowledge: &Knowledge, scores: Result<Option<Vec<Single>>, String>) -> (r: Lookup)
    requires
        scores matches Ok(Some(list)) ==> list@.len() == knowledge.chunks@.len(),
    ensures
        match scores {
            Err(reason) => r matches Lookup::Failed { reason: x } && x@ == reason@,
            Ok(None) => r is Skipped,
            Ok(Some(list)) => if knowledge.chunks@.len() == 0 {
                r is Skipped
            } else {
                r matches Lookup::Found { retrieval: found } && found@ == retrieval(
                    knowledge.chunks@,
                    list@,
                )
            },
        },
{
    match scores {
        Err(reason) => Lookup::Failed { reason },
        Ok(None) => Lookup::Skipped,
        Ok(Some(list)) => {
            if knowledge.is_empty() {
                Lookup::Skipped
            } else {
                Lookup::Found { retrieval: knowledge.context_for(&list) }
            }
        },
    }
}

/// Passes what was found through [`EvidenceGate`]. What is refused there never reaches the
/// model: the answer then comes from general knowledge, and the refusal is reported.
pub fn ground(lookup: Lookup) -> (r: Grounding)
    ensures
        match lookup {
            Lookup::Skipped => r.bare() && r.notice is None,
            Lookup::Failed { reason } => r.bare() && (r.notice matches Some(
                Notice::LookupFailed { reason: x },
            ) && x@ == reason@),
            Lookup::Found { retrieval: found } => if has_evidence(
                found.sources@.len(),
                found.best_score,
            ) {
                r.context == found.context && r.sources == found.sources && r.notice is None
            } else {
                r.bare() && (r.notice matches Some(Notice::Refused { refusal }) && refusal@
                    == no_evidence(found.best_score))
            },
        },
{
    match lookup {
        Lookup::Skipped => Grounding { context: None, sources: Vec::new(), notice: None },
        Lookup::Failed { reason } => Grounding {
            context: None,
            sources: Vec::new(),
            notice: Some(Notice::LookupFailed { reason }),
        },
        Lookup::Found { retrieval: found } => {
            match EvidenceGate::admit_evidence(found.sources.as_slice(), found.best_score) {
                Ok(()) => Grounding {
                    context: found.context,
                    sources: found.sources,
                    notice: None,
                },
                Err(refusal) => Grounding {
                    context: None,
                    sources: Vec::new(),
                    notice: Some(Notice::Refused { refusal }),
                },
            }
        },
    }
}

// ---------------------------------------------------------------------------
// Turns
// ---------------------------------------------------------------------------

/// A conversation, by value.
pub open spec fn messages(history: Seq<Message>) -> Seq<MessageView> {
    history.map_values(|m: Message| m@)
}

/// The history once a question has been asked.
pub open spec fn asked(history: Seq<MessageView>, question: Seq<char>) -> Seq<MessageView> {
    history.push(from_user(question))
}

/// The history once the question has been answered.
pub open spec fn answered(history: Seq<MessageView>, reply: Seq<char>) -> Seq<MessageView> {
    history.push(from_assistant(reply))
}

/// The history once the unanswered question has been dropped.
pub open spec fn dropped(history: Seq<MessageView>) -> Seq<MessageView> {
    if history.len() > 0 {
        history.drop_last()
    } else {
        history
    }
}

/// What is sent to the model: the grounding, if there is any, and then the conversation.
pub open spec fn request(context: Option<Seq<char>>, history: Seq<MessageView>) -> Seq<MessageView> {
    match context {
        Some(text) => seq![from_system(text)] + history,
        None => history,
    }
}

/// An optional text, by value.
pub open spec fn text_option(s: Option<String>) -> Option<Seq<char>> {
    match s {
        Some(t) => Some(t@),
        None => None,
    }
}

/// Asks a question: it joins the history, and the request to send comes back. The grounding
/// goes in front of this one request and is not stored, so it never accumulates.
pub fn begin_turn(history: &mut Vec<Message>, question: String, context: Option<String>) -> (r: Vec<
    Message,
>)
    ensures
        messages(final(history)@) == asked(messages(old(history)@), question@),
        messages(r@) == request(text_option(context), messages(final(history)@)),
{
    let ghost had = messages(history@);
    let ghost wanted = text_option(context);
    let ghost asked_now = asked(had, question@);
    history.push(Message::user(question));
    assert(messages(history@) =~= asked_now);
    let mut r: Vec<Message> = Vec::new();
    if let Some(text) = context {
        r.push(Message::system(text));
    }
    let ghost head = messages(r@);
    let mut i: usize = 0;
    assert(head + asked_now.take(0) =~= head);
    while i < history.len()
        invariant
            i <= history@.len(),
            asked_now == messages(history@),
            messages(r@) == head + asked_now.take(i as int),
        decreases history@.len() - i,
    {
        let ghost before = messages(r@);
        r.push(history[i].again());
        proof {
            assert(asked_now[i as int] == history@[i as int]@);
            assert(messages(r@) =~= before.push(asked_now[i as int]));
            assert(head + asked_now.take(i + 1) =~= (head + asked_now.take(i as int)).push(
                asked_now[i as int],
            ));
        }
        i += 1;
    }
    assert(asked_now.take(asked_now.len() as int) =~= asked_now);
    assert(messages(r@) =~= request(wanted, asked_now));
    r
}

/// The question was answered: the reply joins the history.
pub fn keep_reply(history: &mut Vec<Message>, reply: String)
    ensures
        messages(final(history)@) == answered(messages(old(history)@), reply@),
{
    let ghost had = messages(history@);
    let ghost text = reply@;
    history.push(Message::assistant(reply));
    assert(messages(history@) =~= answered(had, text));
}

/// The question was not answered: it leaves the history, which so stays coherent.
pub fn drop_question(history: &mut Vec<Message>)
    ensures
        messages(final(history)@) == dropped(messages(old(history)@)),
{
    let ghost had = messages(history@);
    let last = history.pop();
    assert(messages(history@) =~= dropped(had));
}

/// A question that waits for its answer.
pub struct Turn {
    /// The files that the answer is grounded in.
    pub sources: Vec<(String, Single)>,
}

/// What to do about a question: say this, send that, and come back with the answer.
pub struct Prompt {
    pub notice: Option<Notice>,
    pub request: Vec<Message>,
    pub turn: Turn,
}

/// Asks a question, given the similarity of each chunk to it: what is found is taken as
/// evidence or left out, the question joins the history, and the request to send comes back.
pub fn open_turn(
    history: &mut Vec<Message>,
    knowledge: &Knowledge,
    question: String,
    scores: Result<Option<Vec<Single>>, String>,
) -> (r: Prompt)
    requires
        scores matches Ok(Some(list)) ==> list@.len() == knowledge.chunks@.len(),
    ensures
        messages(final(history)@) == asked(messages(old(history)@), question@),
        ({
            let g = grounding(knowledge.chunks@, score_view(scores));
            &&& notice_view(r.notice) == g.notice
            &&& messages(r.request@) == request(g.context, messages(final(history)@))
            &&& citations(r.turn.sources@) == g.sources
        }),
{
    let ghost wanted = grounding(knowledge.chunks@, score_view(scores));
    let found = ground(look_up(knowledge, scores));
    assert(text_option(found.context) == wanted.context);
    assert(citations(found.sources@) =~= wanted.sources);
    let request = begin_turn(history, question, found.context);
    Prompt { notice: found.notice, request, turn: Turn { sources: found.sources } }
}

/// Ends a turn. With a reply it is complete, and the files behind the reply come back;
/// without one the question is taken back, and the reason is passed on.
pub fn close_turn(history: &mut Vec<Message>, turn: Turn, outcome: Result<String, String>) -> (r:
    Result<Vec<(String, Single)>, String>)
    ensures
        match outcome {
            Ok(reply) => {
                &&& messages(final(history)@) == answered(messages(old(history)@), reply@)
                &&& r == Ok::<Vec<(String, Single)>, String>(turn.sources)
            },
            Err(reason) => {
                &&& messages(final(history)@) == dropped(messages(old(history)@))
                &&& r == Err::<Vec<(String, Single)>, String>(reason)
            },
        },
{
    match outcome {
        Ok(reply) => {
            keep_reply(history, reply);
            Ok(turn.sources)
        },
        Err(reason) => {
            drop_question(history);
            Err(reason)
        },
    }
}

// ---------------------------------------------------------------------------
// What a conversation promises
// ---------------------------------------------------------------------------

/// The model is told of the files exactly when there is evidence: the context comes with at
/// least one source, every source reaches the floor, and without evidence there is neither.
pub proof fn law_only_evidence_reaches_the_model(
    chunks: Seq<Chunk>,
    scores: Result<Option<Seq<Single>>, Seq<char>>,
)
    ensures
        ({
            let g = grounding(chunks, scores);
            &&& g.context is Some <==> g.sources.len() > 0
            &&& g.context is Some ==> g.notice is None
            &&& forall|i: int| 0 <= i < g.sources.len() ==> (#[trigger] g.sources[i]).1.reaches(floor())
        }),
{
    if let Ok(Some(list)) = scores {
        law_admission_agrees_with_retrieval(chunks, list);
        law_citations_are_evidence(chunks, list);
    }
}

/// Whether questions and answers alternate, a question coming first.
pub open spec fn coherent(history: Seq<MessageView>) -> bool {
    forall|i: int|
        0 <= i < history.len() ==> (#[trigger] history[i]).role == if i % 2 == 0 {
            "user"@
        } else {
            "assistant"@
        }
}

/// A turn that fails leaves no trace in the history.
pub proof fn law_failed_turn_leaves_no_trace(history: Seq<MessageView>, question: Seq<char>)
    ensures
        dropped(asked(history, question)) == history,
{
    assert(asked(history, question).drop_last() =~= history);
}

/// Whole turns keep the history coherent, whether they are answered or fail.
pub proof fn law_turns_keep_history_coherent(
    history: Seq<MessageView>,
    question: Seq<char>,
    reply: Seq<char>,
)
    requires
        coherent(history),
        history.len() % 2 == 0,
    ensures
        coherent(answered(asked(history, question), reply)),
        answered(asked(history, question), reply).len() % 2 == 0,
        coherent(dropped(asked(history, question))),
        dropped(asked(history, question)).len() % 2 == 0,
{
    law_failed_turn_leaves_no_trace(history, question);
    let out = answered(asked(history, question), reply);
    let n = history.len() as int;
    assert forall|i: int| 0 <= i < out.len() implies (#[trigger] out[i]).role == if i % 2 == 0 {
        "user"@
    } else {
        "assistant"@
    } by {
        if i < n {
            assert(out[i] == history[i]);
        }
    }
}

/// Grounding does not accumulate: whatever context goes with a question, the history that
/// remains after the turn is the same, and only that one request is led by it.
pub proof fn law_context_is_not_stored(
    history: Seq<MessageView>,
    question: Seq<char>,
    context: Seq<char>,
)
    ensures
        request(Some(context), asked(history, question)).skip(1) == asked(history, question),
        request(Some(context), asked(history, question))[0] == from_system(context),
        request(None, asked(history, question)) == asked(history, question),
{
    assert(request(Some(context), asked(history, question)).skip(1) =~= asked(history, question));
}

/// Asking and answering keep the conversation: what was said before stays as it was, in
/// order, and the question or the reply comes behind it, word for word.
pub proof fn law_turns_only_add(history: Seq<MessageView>, text: Seq<char>)
    ensures
        asked(history, text).len() == history.len() + 1,
        asked(history, text).take(history.len() as int) == history,
        asked(history, text).last().role == "user"@,
        asked(history, text).last().content == text,
        answered(history, text).len() == history.len() + 1,
        answered(history, text).take(history.len() as int) == history,
        answered(history, text).last().role == "assistant"@,
        answered(history, text).last().content == text,
{
    assert(asked(history, text).take(history.len() as int) =~= history);
    assert(answered(history, text).take(history.len() as int) =~= history);
}

/// Taking a question back takes back that one message, and nothing else.
pub proof fn law_taking_back_takes_one(history: Seq<MessageView>)
    requires
        history.len() > 0,
    ensures
        dropped(history).len() == history.len() - 1,
        forall|i: int| 0 <= i < history.len() - 1 ==> #[trigger] dropped(history)[i] == history[i],
{
}

/// Every request holds the whole conversation, in order and behind the context, if there is
/// any; the context is word for word what the files say, as a message of its own.
pub proof fn law_request_holds_the_whole_conversation(
    context: Option<Seq<char>>,
    history: Seq<MessageView>,
    i: int,
)
    requires
        0 <= i < history.len(),
    ensures
        match context {
            Some(text) => {
                &&& request(context, history).len() == history.len() + 1
                &&& request(context, history)[0].role == "system"@
                &&& request(context, history)[0].content == text
                &&& request(context, history)[i + 1] == history[i]
            },
            None => {
                &&& request(context, history).len() == history.len()
                &&& request(context, history)[i] == history[i]
            },
        },
{
}

/// Whole turns, one after the other: after any number of answered questions each question and
/// each answer is still there, in its place.
pub proof fn law_answered_turns_stay(
    history: Seq<MessageView>,
    question: Seq<char>,
    reply: Seq<char>,
    next: Seq<char>,
    i: int,
)
    requires
        0 <= i < history.len(),
    ensures
        ({
            let after = asked(answered(asked(history, question), reply), next);
            let n = history.len() as int;
            &&& after.len() == n + 3
            &&& after[i] == history[i]
            &&& after[n].role == "user"@ && after[n].content == question
            &&& after[n + 1].role == "assistant"@ && after[n + 1].content == reply
            &&& after[n + 2].role == "user"@ && after[n + 2].content == next
        }),
{
}

/// What an answer is grounded in: where retrieval has a context, exactly that context and
/// exactly those sources, with nothing to report; where it has none, nothing, and a refusal that
/// names the best score seen. A failed lookup is reported with its reason, and where there is
/// nothing to look up nothing is said.
pub proof fn law_grounding_is_what_was_found(
    chunks: Seq<Chunk>,
    list: Seq<Single>,
    reason: Seq<char>,
)
    ensures
        ({
            let found = retrieval(chunks, list);
            let g = grounding(chunks, Ok(Some(list)));
            if chunks.len() == 0 {
                g.context is None && g.sources.len() == 0 && g.notice is None
            } else if found.context is Some {
                g.context == found.context && g.sources == found.sources && g.notice is None
            } else {
                &&& g.context is None && g.sources.len() == 0
                &&& g.notice matches Some(NoticeView::Refused(refusal)) && refusal.code
                    == RefusalCode::NoEvidenceRetrieved && refusal.detail
                    == "nothing in the indexed files is related to that (best match "@
                    + found.best_score.shown(2) + ", floor "@ + floor().shown(2) + ")"@
            }
        }),
        ({
            let g = grounding(chunks, Ok(None));
            g.context is None && g.sources.len() == 0 && g.notice is None
        }),
        ({
            let g = grounding(chunks, Err(reason));
            g.context is None && g.sources.len() == 0 && g.notice == Some(
                NoticeView::LookupFailed(reason),
            )
        }),
{
    law_admission_agrees_with_retrieval(chunks, list);
}

/// Conversations, notices and scores, by value, hold what they are made of.
pub proof fn law_turn_values(
    history: Seq<Message>,
    text: String,
    refusal: Refusal,
    list: Vec<Single>,
)
    ensures
        messages(history).len() == history.len(),
        forall|i: int|
            0 <= i < history.len() ==> (#[trigger] messages(history)[i]).role == history[i].role@
                && messages(history)[i].content == history[i].content@,
        text_option(Some(text)) == Some(text@),
        text_option(None::<String>) is None,
        notice_view(Some(Notice::LookupFailed { reason: text })) == Some(
            NoticeView::LookupFailed(text@),
        ),
        notice_view(Some(Notice::Refused { refusal })) matches Some(NoticeView::Refused(x)) && x.code
            == refusal.code && x.detail == refusal.detail@ && x.remedy == refusal.remedy@,
        notice_view(None) is None,
        score_view(Ok(Some(list))) == Ok::<Option<Seq<Single>>, Seq<char>>(Some(list@)),
        score_view(Ok(None)) == Ok::<Option<Seq<Single>>, Seq<char>>(None),
        score_view(Err(text)) == Err::<Option<Seq<Single>>, Seq<char>>(text@),
{
}

} // verus!
