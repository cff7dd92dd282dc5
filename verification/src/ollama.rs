//! The conversation with Ollama: what is said, and how its streamed reply is put together.
//!
//! Sending requests and parsing JSON is the caller's part. Cutting the byte stream into
//! lines, assembling the reply and judging responses happens here.

use vstd::prelude::*;
#[allow(unused_imports)]
use vstd::string::*;

use crate::error::ChatError;
use crate::paths::{copied, lossy};
#[allow(unused_imports)]
use crate::paths::{read_as_is, utf8_lossy};
#[allow(unused_imports)]
use crate::text::{decimal, trim};
use crate::text::{owned, push_decimal, trimmed};

verus! {

// ---------------------------------------------------------------------------
// Messages
// ---------------------------------------------------------------------------

/// One turn in the conversation. Shared between what we send and what we store.
#[derive(Debug, Clone)]
pub struct Message {
    pub role: String,
    pub content: String,
}

/// One turn, by value.
pub struct MessageView {
    pub role: Seq<char>,
    pub content: Seq<char>,
}

impl View for Message {
    type V = MessageView;

    open spec fn view(&self) -> MessageView {
        MessageView { role: self.role@, content: self.content@ }
    }
}

/// What the user says.
pub open spec fn from_user(content: Seq<char>) -> MessageView {
    MessageView { role: "user"@, content }
}

/// What the model answers.
pub open spec fn from_assistant(content: Seq<char>) -> MessageView {
    MessageView { role: "assistant"@, content }
}

/// Instructions and grounding evidence.
pub open spec fn from_system(content: Seq<char>) -> MessageView {
    MessageView { role: "system"@, content }
}

impl Message {
    pub fn user(content: String) -> (r: Self)
        ensures
            r@ == from_user(content@),
    {
        Message { role: owned("user"), content }
    }

    pub fn assistant(content: String) -> (r: Self)
        ensures
            r@ == from_assistant(content@),
    {
        Message { role: owned("assistant"), content }
    }

    /// Instructions and grounding evidence, not conversation.
    pub fn system(content: String) -> (r: Self)
        ensures
            r@ == from_system(content@),
    {
        Message { role: owned("system"), content }
    }

    /// The same message again.
    pub fn again(&self) -> (r: Self)
        ensures
            r@ == self@,
    {
        Message { role: owned(self.role.as_str()), content: owned(self.content.as_str()) }
    }
}

// ---------------------------------------------------------------------------
// Judging responses
// ---------------------------------------------------------------------------

/// The error for a response whose status is no success.
pub fn http_failure(status: &str, body: &str) -> (r: ChatError)
    ensures
        r matches ChatError::Ollama(message) && message@ == "HTTP "@ + status@ + ": "@ + body@,
{
    ChatError::Ollama(owned("HTTP ").concat(status).concat(": ").concat(body))
}

/// What is wrong with a reply that holds another number of embeddings than was asked for.
pub open spec fn embedding_mismatch(expected: nat, got: nat) -> Seq<char> {
    "expected "@ + decimal(expected) + " embeddings, got "@ + decimal(got)
}

/// Whether there is one embedding for each text. A silent mismatch here would misattribute
/// every citation, so it is an error.
pub fn check_embeddings(expected: usize, got: usize) -> (r: Result<(), ChatError>)
    ensures
        r is Ok <==> expected == got,
        r is Err ==> (r->Err_0 matches ChatError::Ollama(message) && message@
            == embedding_mismatch(expected as nat, got as nat)),
{
    if got != expected {
        let mut message = owned("expected ");
        push_decimal(&mut message, expected as u128);
        message.append(" embeddings, got ");
        push_decimal(&mut message, got as u128);
        return Err(ChatError::Ollama(message));
    }
    Ok(())
}

// ---------------------------------------------------------------------------
// The streamed reply
// ---------------------------------------------------------------------------

/// Where the first newline at or after `i` is, or the end of the bytes.
pub open spec fn newline(bytes: Seq<u8>, i: int) -> int
    decreases bytes.len() - i,
{
    if i >= bytes.len() {
        bytes.len() as int
    } else if bytes[i] == 0x0a {
        i
    } else {
        newline(bytes, i + 1)
    }
}

/// What follows the last newline.
pub open spec fn unfinished(bytes: Seq<u8>) -> Seq<u8>
    decreases bytes.len(),
{
    let p = newline(bytes, 0);
    if 0 <= p < bytes.len() {
        unfinished(bytes.skip(p + 1))
    } else {
        bytes
    }
}

/// What a line says: its text, without the whitespace around it.
pub open spec fn said(line: Seq<u8>) -> Seq<char> {
    trim(utf8_lossy(line))
}

/// What the complete lines among the bytes say, those that say nothing left out.
pub open spec fn spoken(bytes: Seq<u8>) -> Seq<Seq<char>>
    decreases bytes.len(),
{
    let p = newline(bytes, 0);
    if 0 <= p < bytes.len() {
        let text = said(bytes.take(p + 1));
        let here = if text.len() > 0 {
            seq![text]
        } else {
            Seq::empty()
        };
        here + spoken(bytes.skip(p + 1))
    } else {
        Seq::empty()
    }
}

/// The first complete line that says something, and the bytes that are left after it; or
/// nothing, and the unfinished line.
pub open spec fn next_said(bytes: Seq<u8>) -> (Option<Seq<char>>, Seq<u8>)
    decreases bytes.len(),
{
    let p = newline(bytes, 0);
    if 0 <= p < bytes.len() {
        let text = said(bytes.take(p + 1));
        if text.len() > 0 {
            (Some(text), bytes.skip(p + 1))
        } else {
            next_said(bytes.skip(p + 1))
        }
    } else {
        (None, bytes)
    }
}

/// Whether the lines up to and including the first that says something read as they are where
/// they are valid UTF-8.
pub open spec fn lines_as_is(bytes: Seq<u8>) -> bool
    decreases bytes.len(),
{
    let p = newline(bytes, 0);
    if 0 <= p < bytes.len() {
        read_as_is(bytes.take(p + 1)) && (said(bytes.take(p + 1)).len() == 0 ==> lines_as_is(
            bytes.skip(p + 1),
        ))
    } else {
        true
    }
}

/// One parsed line of the reply.
pub struct ReplyPart {
    pub content: Option<String>,
    pub done: bool,
    pub error: Option<String>,
}

/// What a parsed line leads to.
pub enum ReplyStep {
    /// Ollama reports an error: the reply is given up.
    Failed(ChatError),
    /// The reply goes on; a token may have come.
    Going { token: Option<String> },
    /// The reply is complete; a last token may have come.
    Finished { token: Option<String>, reply: String },
}

/// A reply that is still coming in: bytes not yet read as lines, and the text so far.
pub struct ReplyStream {
    buffer: Vec<u8>,
    reply: String,
}

/// The text that a parsed line adds to the reply.
pub open spec fn token_of(part: ReplyPart) -> Seq<char> {
    match part.content {
        Some(text) => text@,
        None => Seq::empty(),
    }
}

/// A token as a list: the one, or none.
pub open spec fn token_list(token: Option<String>) -> Seq<Seq<char>> {
    match token {
        Some(t) => seq![t@],
        None => Seq::empty(),
    }
}

/// How a reply stands: it goes on, it is complete, Ollama has reported an error, or a line
/// could not be read as one.
pub enum ReplyEnd {
    Going,
    Finished,
    Failed(Seq<char>),
    Unreadable,
}

/// A reply, by value: the tokens handed out, the text, and how it stands.
pub struct Reply {
    pub tokens: Seq<Seq<char>>,
    pub text: Seq<char>,
    pub end: ReplyEnd,
}

/// What a parsed line makes of a reply; nothing for a line that cannot be parsed.
pub open spec fn heard(reply: Reply, part: Option<ReplyPart>) -> Reply {
    match part {
        None => Reply { end: ReplyEnd::Unreadable, ..reply },
        Some(part) => match part.error {
            Some(message) => Reply { end: ReplyEnd::Failed(message@), ..reply },
            None => Reply {
                tokens: if token_of(part).len() > 0 {
                    reply.tokens.push(token_of(part))
                } else {
                    reply.tokens
                },
                text: reply.text + token_of(part),
                end: if part.done {
                    ReplyEnd::Finished
                } else {
                    ReplyEnd::Going
                },
            },
        },
    }
}

impl ReplyStream {
    /// The bytes not yet read as lines.
    pub closed spec fn bytes(self) -> Seq<u8> {
        self.buffer@
    }

    /// The reply so far.
    pub closed spec fn text(self) -> Seq<char> {
        self.reply@
    }

    /// A reply of which nothing has come yet.
    pub fn new() -> (r: Self)
        ensures
            r.bytes() == Seq::<u8>::empty(),
            r.text() == Seq::<char>::empty(),
    {
        ReplyStream { buffer: Vec::new(), reply: String::new() }
    }

    /// Takes in the next bytes. They need not end where a line or a character does.
    pub fn feed(&mut self, chunk: &[u8])
        ensures
            final(self).bytes() == old(self).bytes() + chunk@,
            final(self).text() == old(self).text(),
    {
        let mut more = copied(chunk);
        self.buffer.append(&mut more);
    }

    /// The next complete line that says something, or nothing until more bytes come.
    pub fn next_line(&mut self) -> (r: Option<String>)
        ensures
            final(self).text() == old(self).text(),
            final(self).bytes() == next_said(old(self).bytes()).1,
            r is Some <==> next_said(old(self).bytes()).0 is Some,
            r is Some ==> r->0@ == next_said(old(self).bytes()).0->0,
            lines_as_is(old(self).bytes()),
    {
        let ghost all = self.buffer@;
        let mut start: usize = 0;
        let mut i: usize = 0;
        assert(all.skip(0) =~= all);
        while i < self.buffer.len()
            invariant
                self.buffer@ == all,
                all == old(self).buffer@,
                self.reply@ == old(self).reply@,
                start <= i <= all.len(),
                next_said(all) == next_said(all.skip(start as int)),
                lines_as_is(all.skip(start as int)) ==> lines_as_is(all),
                newline(all.skip(start as int), 0) == newline(all.skip(start as int), i - start),
            decreases all.len() - i,
        {
            let ghost rest = all.skip(start as int);
            assert(rest[i - start] == all[i as int]);
            if self.buffer[i] == 0x0a {
                let line = trimmed(lossy(vstd::slice::slice_subrange(self.buffer.as_slice(), start, i + 1)).as_str());
                proof {
                    assert(newline(rest, 0) == i - start);
                    assert(rest.take(i - start + 1) =~= all.subrange(start as int, i + 1));
                    assert(rest.skip(i - start + 1) =~= all.skip(i + 1));
                }
                if !line.as_str().is_empty() {
                    let left = vstd::slice::slice_subrange(self.buffer.as_slice(), i + 1, self.buffer.len());
                    assert(left@ =~= all.skip(i + 1));
                    let buffer = copied(left);
                    self.buffer = buffer;
                    return Some(line);
                }
                start = i + 1;
            }
            i += 1;
        }
        let ghost rest = all.skip(start as int);
        assert(newline(rest, 0) == rest.len());
        let left = vstd::slice::slice_subrange(self.buffer.as_slice(), start, self.buffer.len());
        assert(left@ =~= rest);
        let buffer = copied(left);
        self.buffer = buffer;
        None
    }

    /// Takes in one parsed line. An error ends the reply at once; otherwise its text, if
    /// there is any, becomes a token and part of the reply.
    pub fn take(&mut self, part: ReplyPart) -> (r: ReplyStep)
        ensures
            final(self).bytes() == old(self).bytes(),
            ({
                let after = heard(
                    Reply {
                        tokens: Seq::empty(),
                        text: old(self).text(),
                        end: ReplyEnd::Going,
                    },
                    Some(part),
                );
                &&& final(self).text() == after.text
                &&& match after.end {
                    ReplyEnd::Failed(message) => r matches ReplyStep::Failed(ChatError::Ollama(m)) && m@
                        == message,
                    ReplyEnd::Finished => r matches ReplyStep::Finished { token, reply } && token_list(
                        token,
                    ) == after.tokens && reply@ == after.text,
                    ReplyEnd::Going => r matches ReplyStep::Going { token } && token_list(token)
                        == after.tokens,
                    ReplyEnd::Unreadable => false,
                }
            }),
    {
        if let Some(message) = part.error {
            return ReplyStep::Failed(ChatError::Ollama(message));
        }
        let mut token: Option<String> = None;
        if let Some(text) = part.content {
            if !text.as_str().is_empty() {
                self.reply.append(text.as_str());
                token = Some(text);
            } else {
                assert(self.reply@ =~= old(self).reply@ + token_of(part));
            }
        } else {
            assert(self.reply@ =~= old(self).reply@ + token_of(part));
        }
        if part.done {
            ReplyStep::Finished { token, reply: owned(self.reply.as_str()) }
        } else {
            ReplyStep::Going { token }
        }
    }

    /// The reply as it stands when the stream ends.
    pub fn finish(self) -> (r: String)
        ensures
            r@ == self.text(),
    {
        self.reply
    }
}

// ---------------------------------------------------------------------------
// What streaming promises
// ---------------------------------------------------------------------------

proof fn lemma_newline(bytes: Seq<u8>, i: int)
    requires
        0 <= i <= bytes.len(),
    ensures
        i <= newline(bytes, i) <= bytes.len(),
    decreases bytes.len() - i,
{
    if i < bytes.len() && bytes[i] != 0x0a {
        lemma_newline(bytes, i + 1);
    }
}

proof fn lemma_newline_stays(a: Seq<u8>, b: Seq<u8>, i: int)
    requires
        0 <= i <= a.len(),
        newline(a, i) < a.len(),
    ensures
        newline(a + b, i) == newline(a, i),
    decreases a.len() - i,
{
    if a[i] != 0x0a {
        lemma_newline_stays(a, b, i + 1);
    }
}

/// Lines come out one by one: each `next_line` hands out the first of what is left to be
/// said, and when it has nothing, only the unfinished line is left.
pub proof fn law_lines_come_in_order(bytes: Seq<u8>)
    ensures
        match next_said(bytes).0 {
            Some(text) => spoken(bytes) == seq![text] + spoken(next_said(bytes).1) && unfinished(bytes)
                == unfinished(next_said(bytes).1),
            None => spoken(bytes).len() == 0 && next_said(bytes).1 == unfinished(bytes),
        },
    decreases bytes.len(),
{
    lemma_newline(bytes, 0);
    let p = newline(bytes, 0);
    if p < bytes.len() {
        let rest = bytes.skip(p + 1);
        law_lines_come_in_order(rest);
        if said(bytes.take(p + 1)).len() == 0 {
            assert(spoken(bytes) =~= spoken(rest));
        }
    }
}

/// Where the network cuts the stream does not matter: reading the lines of a first part, and
/// then those that a second part completes, says the same as reading both parts at once.
pub proof fn law_cuts_do_not_matter(a: Seq<u8>, b: Seq<u8>)
    ensures
        spoken(a + b) == spoken(a) + spoken(unfinished(a) + b),
        unfinished(a + b) == unfinished(unfinished(a) + b),
    decreases a.len(),
{
    lemma_newline(a, 0);
    let p = newline(a, 0);
    if p < a.len() {
        let rest = a.skip(p + 1);
        lemma_newline_stays(a, b, 0);
        assert((a + b).take(p + 1) =~= a.take(p + 1));
        assert((a + b).skip(p + 1) =~= rest + b);
        law_cuts_do_not_matter(rest, b);
        let text = said(a.take(p + 1));
        let here = if text.len() > 0 {
            seq![text]
        } else {
            Seq::empty()
        };
        assert(here + (spoken(rest) + spoken(unfinished(rest) + b)) =~= here + spoken(rest) + spoken(
            unfinished(rest) + b,
        ));
    } else {
        assert(spoken(a) + spoken(a + b) =~= spoken(a + b));
    }
}

/// An unfinished line is not used: bytes without a newline add nothing to what is said.
pub proof fn law_unfinished_line_says_nothing(bytes: Seq<u8>, more: Seq<u8>)
    requires
        !more.contains(0x0a),
    ensures
        spoken(bytes + more) == spoken(bytes),
{
    law_cuts_do_not_matter(bytes, more);
    let rest = unfinished(bytes) + more;
    lemma_unfinished(bytes);
    lemma_newline(rest, 0);
    lemma_newline_is_one(rest, 0);
    let p = newline(rest, 0);
    if p < rest.len() {
        if p < unfinished(bytes).len() {
            assert(unfinished(bytes)[p] == 0x0a);
            assert(unfinished(bytes).contains(0x0a));
        } else {
            assert(more[p - unfinished(bytes).len()] == 0x0a);
        }
    }
    assert(spoken(bytes) + spoken(rest) =~= spoken(bytes));
}

proof fn lemma_newline_is_one(bytes: Seq<u8>, i: int)
    requires
        0 <= i <= bytes.len(),
    ensures
        newline(bytes, i) < bytes.len() ==> bytes[newline(bytes, i)] == 0x0a,
        forall|j: int| i <= j < newline(bytes, i) ==> bytes[j] != 0x0a,
    decreases bytes.len() - i,
{
    if i < bytes.len() && bytes[i] != 0x0a {
        lemma_newline_is_one(bytes, i + 1);
    }
}

proof fn lemma_unfinished(bytes: Seq<u8>)
    ensures
        !unfinished(bytes).contains(0x0a),
    decreases bytes.len(),
{
    lemma_newline(bytes, 0);
    lemma_newline_is_one(bytes, 0);
    if newline(bytes, 0) < bytes.len() {
        lemma_unfinished(bytes.skip(newline(bytes, 0) + 1));
    }
}

// ---------------------------------------------------------------------------
// A whole reply
// ---------------------------------------------------------------------------

/// Several sequences, one behind the other.
pub open spec fn strung<T>(parts: Seq<Seq<T>>) -> Seq<T>
    decreases parts.len(),
{
    if parts.len() == 0 {
        Seq::empty()
    } else {
        strung(parts.drop_last()) + parts.last()
    }
}

/// A reply of which nothing has come yet.
pub open spec fn silence() -> Reply {
    Reply { tokens: Seq::empty(), text: Seq::empty(), end: ReplyEnd::Going }
}

/// What some lines make of a reply, `parse` being how a line is read. Once it has ended, no
/// line counts any more.
pub open spec fn heard_all(
    reply: Reply,
    lines: Seq<Seq<char>>,
    parse: spec_fn(Seq<char>) -> Option<ReplyPart>,
) -> Reply
    decreases lines.len(),
{
    if lines.len() == 0 || !(reply.end is Going) {
        reply
    } else {
        heard_all(heard(reply, parse(lines[0])), lines.skip(1), parse)
    }
}

/// The reply that these bytes hold.
pub open spec fn answer(bytes: Seq<u8>, parse: spec_fn(Seq<char>) -> Option<ReplyPart>) -> Reply {
    heard_all(silence(), spoken(bytes), parse)
}

/// A reply that is coming in, by value: the bytes not yet read as lines, and the reply so far.
pub struct Incoming {
    pub bytes: Seq<u8>,
    pub reply: Reply,
}

/// All lines that are there taken in: [`ReplyStream::next_line`] and [`ReplyStream::take`] by
/// turns, until there is no line left or the reply has ended.
pub open spec fn drained(
    incoming: Incoming,
    parse: spec_fn(Seq<char>) -> Option<ReplyPart>,
) -> Incoming
    decreases incoming.bytes.len(),
{
    if !(incoming.reply.end is Going) {
        incoming
    } else {
        let (line, rest) = next_said(incoming.bytes);
        match line {
            Some(text) => if rest.len() < incoming.bytes.len() {
                drained(
                    Incoming { bytes: rest, reply: heard(incoming.reply, parse(text)) },
                    parse,
                )
            } else {
                incoming
            },
            None => Incoming { bytes: rest, reply: incoming.reply },
        }
    }
}

/// A reply that has come in these pieces: [`ReplyStream::feed`] for each of them, and all its
/// lines taken in before the next, until the reply has ended.
pub open spec fn received(
    pieces: Seq<Seq<u8>>,
    parse: spec_fn(Seq<char>) -> Option<ReplyPart>,
) -> Incoming
    decreases pieces.len(),
{
    if pieces.len() == 0 {
        Incoming { bytes: Seq::empty(), reply: silence() }
    } else {
        let before = received(pieces.drop_last(), parse);
        if before.reply.end is Going {
            drained(Incoming { bytes: before.bytes + pieces.last(), reply: before.reply }, parse)
        } else {
            before
        }
    }
}

proof fn lemma_next_said_shorter(bytes: Seq<u8>)
    ensures
        next_said(bytes).0 is Some ==> next_said(bytes).1.len() < bytes.len(),
    decreases bytes.len(),
{
    lemma_newline(bytes, 0);
    let p = newline(bytes, 0);
    if p < bytes.len() {
        lemma_next_said_shorter(bytes.skip(p + 1));
    }
}

proof fn lemma_heard_all_sum(
    reply: Reply,
    a: Seq<Seq<char>>,
    b: Seq<Seq<char>>,
    parse: spec_fn(Seq<char>) -> Option<ReplyPart>,
)
    ensures
        heard_all(reply, a + b, parse) == heard_all(heard_all(reply, a, parse), b, parse),
    decreases a.len(),
{
    if a.len() == 0 {
        assert(a + b =~= b);
    } else if reply.end is Going {
        assert((a + b).skip(1) =~= a.skip(1) + b);
        lemma_heard_all_sum(heard(reply, parse(a[0])), a.skip(1), b, parse);
    }
}

proof fn lemma_drained(incoming: Incoming, parse: spec_fn(Seq<char>) -> Option<ReplyPart>)
    requires
        incoming.reply.end is Going,
    ensures
        drained(incoming, parse).reply == heard_all(incoming.reply, spoken(incoming.bytes), parse),
        drained(incoming, parse).reply.end is Going ==> drained(incoming, parse).bytes == unfinished(
            incoming.bytes,
        ),
    decreases incoming.bytes.len(),
{
    law_lines_come_in_order(incoming.bytes);
    lemma_next_said_shorter(incoming.bytes);
    let (line, rest) = next_said(incoming.bytes);
    if line is Some {
        let now = Incoming { bytes: rest, reply: heard(incoming.reply, parse(line->0)) };
        assert(spoken(incoming.bytes).skip(1) =~= spoken(rest));
        assert(spoken(incoming.bytes)[0] == line->0);
        if now.reply.end is Going {
            lemma_drained(now, parse);
        }
    }
}

/// A whole reply depends on its bytes alone, not on where the network has cut them, be it
/// inside a line or inside a character: it is what the complete lines of all the bytes make
/// of it.
pub proof fn law_whole_reply(pieces: Seq<Seq<u8>>, parse: spec_fn(Seq<char>) -> Option<ReplyPart>)
    ensures
        received(pieces, parse).reply == answer(strung(pieces), parse),
        received(pieces, parse).reply.end is Going ==> received(pieces, parse).bytes == unfinished(
            strung(pieces),
        ),
    decreases pieces.len(),
{
    if pieces.len() > 0 {
        let front = pieces.drop_last();
        law_whole_reply(front, parse);
        let before = received(front, parse);
        let had = strung(front);
        law_cuts_do_not_matter(had, pieces.last());
        lemma_heard_all_sum(
            silence(),
            spoken(had),
            spoken(unfinished(had) + pieces.last()),
            parse,
        );
        if before.reply.end is Going {
            lemma_drained(
                Incoming { bytes: before.bytes + pieces.last(), reply: before.reply },
                parse,
            );
        }
    }
}

/// Two divisions of the same bytes give the same tokens, the same text and the same end.
pub proof fn law_reply_does_not_depend_on_cuts(
    pieces: Seq<Seq<u8>>,
    others: Seq<Seq<u8>>,
    parse: spec_fn(Seq<char>) -> Option<ReplyPart>,
)
    requires
        strung(pieces) == strung(others),
    ensures
        received(pieces, parse).reply == received(others, parse).reply,
{
    law_whole_reply(pieces, parse);
    law_whole_reply(others, parse);
}

proof fn lemma_tokens(
    reply: Reply,
    lines: Seq<Seq<char>>,
    parse: spec_fn(Seq<char>) -> Option<ReplyPart>,
)
    requires
        reply.text == strung(reply.tokens),
        forall|i: int| 0 <= i < reply.tokens.len() ==> (#[trigger] reply.tokens[i]).len() > 0,
    ensures
        ({
            let after = heard_all(reply, lines, parse);
            &&& after.text == strung(after.tokens)
            &&& forall|i: int| 0 <= i < after.tokens.len() ==> (#[trigger] after.tokens[i]).len() > 0
        }),
    decreases lines.len(),
{
    if lines.len() > 0 && reply.end is Going {
        let part = parse(lines[0]);
        let now = heard(reply, part);
        if part is Some && part->0.error is None {
            let token = token_of(part->0);
            if token.len() > 0 {
                assert(now.tokens.drop_last() =~= reply.tokens);
            } else {
                assert(now.text =~= reply.text);
            }
        }
        lemma_tokens(now, lines.skip(1), parse);
    }
}

/// A reply is its tokens, joined in the order in which they were handed out, and no token is
/// empty.
pub proof fn law_reply_is_its_tokens(bytes: Seq<u8>, parse: spec_fn(Seq<char>) -> Option<ReplyPart>)
    ensures
        answer(bytes, parse).text == strung(answer(bytes, parse).tokens),
        forall|i: int|
            0 <= i < answer(bytes, parse).tokens.len() ==> (#[trigger] answer(
                bytes,
                parse,
            ).tokens[i]).len() > 0,
{
    lemma_tokens(silence(), spoken(bytes), parse);
}

/// Nothing after the line that ends a reply is used, nor anything after the last newline.
pub proof fn law_what_follows_a_reply_is_not_used(
    bytes: Seq<u8>,
    more: Seq<u8>,
    parse: spec_fn(Seq<char>) -> Option<ReplyPart>,
)
    requires
        !(answer(bytes, parse).end is Going) || !more.contains(0x0a),
    ensures
        answer(bytes + more, parse) == answer(bytes, parse),
{
    if more.contains(0x0a) {
        law_cuts_do_not_matter(bytes, more);
        lemma_heard_all_sum(silence(), spoken(bytes), spoken(unfinished(bytes) + more), parse);
    } else {
        law_unfinished_line_says_nothing(bytes, more);
    }
}

// ---------------------------------------------------------------------------
// Tokens and lines, to the letter
// ---------------------------------------------------------------------------

/// A token is the content of its line, character for character; it goes behind the reply as it
/// stands, whitespace and all. A line without content changes nothing, and a line with an
/// error changes neither the tokens nor the text.
pub proof fn law_token_is_the_content(reply: Reply, part: ReplyPart)
    ensures
        part.error is None && part.content is Some && part.content->0@.len() > 0 ==> heard(
            reply,
            Some(part),
        ).text == reply.text + part.content->0@ && heard(reply, Some(part)).tokens
            == reply.tokens.push(part.content->0@),
        part.error is None && (part.content is None || part.content->0@.len() == 0) ==> heard(
            reply,
            Some(part),
        ).text == reply.text && heard(reply, Some(part)).tokens == reply.tokens,
        part.error is None ==> heard(reply, Some(part)).end == if part.done {
            ReplyEnd::Finished
        } else {
            ReplyEnd::Going
        },
        part.error is Some ==> heard(reply, Some(part)).text == reply.text && heard(
            reply,
            Some(part),
        ).tokens == reply.tokens && heard(reply, Some(part)).end == ReplyEnd::Failed(part.error->0@),
        heard(reply, None).text == reply.text && heard(reply, None).tokens == reply.tokens && heard(
            reply,
            None,
        ).end is Unreadable,
{
    if part.content is None || part.content->0@.len() == 0 {
        assert(reply.text + token_of(part) =~= reply.text);
    }
}

/// A token in a list is that token.
pub proof fn law_token_lists(token: String)
    ensures
        token_list(Some(token)) == seq![token@],
        token_list(None).len() == 0,
{
}

/// Sequences strung together keep every element: none is nothing, one is itself, and two lists
/// are both of them, one behind the other.
pub proof fn law_strung_keeps_every_part<T>(p: Seq<T>, a: Seq<Seq<T>>, b: Seq<Seq<T>>)
    ensures
        strung(Seq::<Seq<T>>::empty()) == Seq::<T>::empty(),
        strung(seq![p]) == p,
        strung(a + b) == strung(a) + strung(b),
    decreases b.len(),
{
    assert(seq![p].drop_last() =~= Seq::empty());
    assert(strung(seq![p].drop_last()) =~= Seq::empty());
    assert(strung(seq![p]) =~= p);
    if b.len() == 0 {
        assert(a + b =~= a);
        assert(strung(a) + strung(b) =~= strung(a));
    } else {
        law_strung_keeps_every_part(p, a, b.drop_last());
        assert((a + b).drop_last() =~= a + b.drop_last());
        assert((a + b).last() == b.last());
        assert(strung(a) + strung(b.drop_last()) + b.last() =~= strung(a) + (strung(b.drop_last())
            + b.last()));
    }
}

/// What a parsed line says: its content field, or nothing.
pub open spec fn content_of(part: Option<ReplyPart>) -> Seq<char> {
    match part {
        Some(p) => match p.content {
            Some(text) => text@,
            None => Seq::empty(),
        },
        None => Seq::empty(),
    }
}

/// Whether a line can be read, reports no error and does not end the reply.
pub open spec fn goes_on(part: Option<ReplyPart>) -> bool {
    part is Some && part->0.error is None && !part->0.done
}

proof fn lemma_contents(
    reply: Reply,
    lines: Seq<Seq<char>>,
    parse: spec_fn(Seq<char>) -> Option<ReplyPart>,
)
    requires
        reply.end is Going,
        forall|i: int| 0 <= i < lines.len() - 1 ==> goes_on(parse(#[trigger] lines[i])),
        lines.len() > 0 ==> parse(lines.last()) is Some && parse(lines.last())->0.error is None,
    ensures
        heard_all(reply, lines, parse).text == reply.text + strung(
            Seq::new(lines.len(), |i: int| content_of(parse(lines[i]))),
        ),
        lines.len() > 0 ==> heard_all(reply, lines, parse).end == if parse(lines.last())->0.done {
            ReplyEnd::Finished
        } else {
            ReplyEnd::Going
        },
    decreases lines.len(),
{
    let contents = Seq::new(lines.len(), |i: int| content_of(parse(lines[i])));
    if lines.len() == 0 {
        assert(reply.text + strung(contents) =~= reply.text);
    } else {
        let rest = lines.skip(1);
        let now = heard(reply, parse(lines[0]));
        let later = Seq::new(rest.len(), |i: int| content_of(parse(rest[i])));
        assert(contents =~= seq![content_of(parse(lines[0]))] + later);
        law_strung_keeps_every_part(
            content_of(parse(lines[0])),
            seq![content_of(parse(lines[0]))],
            later,
        );
        assert(now.text =~= reply.text + content_of(parse(lines[0])));
        if lines.len() == 1 {
            assert(lines[0] == lines.last());
            assert(later =~= Seq::empty());
            assert(heard_all(now, rest, parse) == now);
            assert(reply.text + (content_of(parse(lines[0])) + strung(later)) =~= now.text);
        } else {
            assert(goes_on(parse(lines[0])));
            assert forall|i: int| 0 <= i < rest.len() - 1 implies goes_on(parse(#[trigger] rest[i])) by {
                assert(rest[i] == lines[i + 1]);
            }
            assert(rest.last() == lines.last());
            lemma_contents(now, rest, parse);
            assert(reply.text + (content_of(parse(lines[0])) + strung(later)) =~= now.text + strung(later));
        }
    }
}

/// The reply is the contents of the lines heard, joined as they stand: those of all lines up to
/// the first that says it is the last one, or of all there are.
pub proof fn law_reply_is_the_contents(
    lines: Seq<Seq<char>>,
    parse: spec_fn(Seq<char>) -> Option<ReplyPart>,
)
    requires
        forall|i: int| 0 <= i < lines.len() - 1 ==> goes_on(parse(#[trigger] lines[i])),
        lines.len() > 0 ==> parse(lines.last()) is Some && parse(lines.last())->0.error is None,
    ensures
        heard_all(silence(), lines, parse).text == strung(
            Seq::new(lines.len(), |i: int| content_of(parse(lines[i]))),
        ),
        silence().text.len() == 0 && silence().tokens.len() == 0 && silence().end is Going,
{
    lemma_contents(silence(), lines, parse);
    let contents = Seq::new(lines.len(), |i: int| content_of(parse(lines[i])));
    assert(silence().text + strung(contents) =~= strung(contents));
}

/// Every line counts: what is said in front of a complete line, the line without the
/// whitespace around it where anything is left of it, and what is said behind it.
pub proof fn law_every_line_is_said(a: Seq<u8>, line: Seq<u8>, b: Seq<u8>)
    requires
        a.len() > 0 ==> a.last() == 0x0a,
        !line.contains(0x0a),
    ensures
        ({
            let text = trim(utf8_lossy(line.push(0x0a)));
            let here = if text.len() > 0 {
                seq![text]
            } else {
                Seq::empty()
            };
            &&& spoken(a + line.push(0x0a) + b) == spoken(a) + here + spoken(b)
            &&& spoken(line) == Seq::<Seq<char>>::empty()
        }),
{
    let text = trim(utf8_lossy(line.push(0x0a)));
    let here = if text.len() > 0 {
        seq![text]
    } else {
        Seq::empty()
    };
    let rest = line.push(0x0a) + b;
    lemma_newline(rest, 0);
    lemma_newline_is_one(rest, 0);
    let p = newline(rest, 0);
    if p < line.len() {
        assert(line[p] == 0x0a);
        assert(line.contains(0x0a));
    }
    assert(rest[line.len() as int] == 0x0a);
    assert(p == line.len());
    assert(rest.take(p + 1) =~= line.push(0x0a));
    assert(rest.skip(p + 1) =~= b);
    assert(spoken(rest) == here + spoken(b));
    law_cuts_do_not_matter(a, rest);
    assert(a + line.push(0x0a) + b =~= a + rest);
    lemma_unfinished_after_newline(a);
    assert(unfinished(a) + rest =~= rest);
    assert(spoken(a) + (here + spoken(b)) =~= spoken(a) + here + spoken(b));
    law_unfinished_line_says_nothing(Seq::empty(), line);
    assert(Seq::<u8>::empty() + line =~= line);
}

proof fn lemma_unfinished_after_newline(bytes: Seq<u8>)
    requires
        bytes.len() > 0 ==> bytes.last() == 0x0a,
    ensures
        unfinished(bytes).len() == 0,
    decreases bytes.len(),
{
    if bytes.len() > 0 {
        lemma_newline(bytes, 0);
        lemma_newline_is_one(bytes, 0);
        let p = newline(bytes, 0);
        if p == bytes.len() {
            assert(bytes[bytes.len() - 1] != 0x0a);
        }
        let rest = bytes.skip(p + 1);
        if rest.len() > 0 {
            assert(rest.last() == bytes.last());
        }
        lemma_unfinished_after_newline(rest);
    }
}

/// The unfinished line is what follows the last newline.
pub proof fn law_unfinished_follows_the_last_newline(bytes: Seq<u8>) -> (at: int)
    ensures
        0 <= at <= bytes.len(),
        unfinished(bytes) == bytes.skip(at),
        !unfinished(bytes).contains(0x0a),
        at > 0 ==> bytes[at - 1] == 0x0a,
    decreases bytes.len(),
{
    lemma_unfinished(bytes);
    lemma_newline(bytes, 0);
    lemma_newline_is_one(bytes, 0);
    let p = newline(bytes, 0);
    if p < bytes.len() {
        let rest = bytes.skip(p + 1);
        let at = law_unfinished_follows_the_last_newline(rest);
        assert(rest.skip(at) =~= bytes.skip(p + 1 + at));
        if at > 0 {
            assert(rest[at - 1] == bytes[p + at]);
        }
        p + 1 + at
    } else {
        assert(bytes.skip(0) =~= bytes);
        0
    }
}

/// A message, by value, is its role and its content, and each kind of message has its role.
pub proof fn law_message_values(m: Message, content: Seq<char>, expected: nat, got: nat)
    ensures
        m@.role == m.role@,
        m@.content == m.content@,
        from_user(content).role == "user"@ && from_user(content).content == content,
        from_assistant(content).role == "assistant"@ && from_assistant(content).content == content,
        from_system(content).role == "system"@ && from_system(content).content == content,
        embedding_mismatch(expected, got) == "expected "@ + crate::text::decimal(expected)
            + " embeddings, got "@ + crate::text::decimal(got),
{
}

} // verus!
