//! Cutting a text into pieces small enough to reason about.
//!
//! The pieces follow paragraph boundaries, with one paragraph of overlap, so that a
//! thought split across a boundary is still findable from either side. Working in whole
//! characters means that no character is ever cut in half.

use vstd::prelude::*;

use crate::text::{bytes_in, chars_of, joined, owned, text_of, trimmed};
#[allow(unused_imports)]
use crate::text::{blank, byte_len, is_space, join, trim, trim_end, trim_start, views};
#[allow(unused_imports)]
use vstd::string::*;

verus! {

/// Roughly how big each chunk should get, in bytes, before it is cut.
pub const CHUNK_TARGET_CHARS: usize = 1200;

// ---------------------------------------------------------------------------
// Paragraphs
// ---------------------------------------------------------------------------

/// Two newlines: what separates one paragraph from the next.
pub open spec fn gap() -> Seq<char> {
    seq!['\n', '\n']
}

/// Where the first pair of newlines at or after `i` starts, or the end of the text.
pub open spec fn next_gap(s: Seq<char>, i: int) -> int
    decreases s.len() - i,
{
    if i + 1 >= s.len() {
        s.len() as int
    } else if s[i] == '\n' && s[i + 1] == '\n' {
        i
    } else {
        next_gap(s, i + 1)
    }
}

/// What stands between the pairs of newlines.
pub open spec fn blocks(s: Seq<char>) -> Seq<Seq<char>>
    decreases s.len(),
{
    let j = next_gap(s, 0);
    if 0 <= j && j + 2 <= s.len() {
        seq![s.take(j)] + blocks(s.skip(j + 2))
    } else {
        seq![s]
    }
}

/// Those texts that hold at least one character.
pub open spec fn present(list: Seq<Seq<char>>) -> Seq<Seq<char>> {
    list.filter(|p: Seq<char>| p.len() > 0)
}

/// Each text without the whitespace around it.
pub open spec fn trim_all(list: Seq<Seq<char>>) -> Seq<Seq<char>> {
    list.map_values(|p: Seq<char>| trim(p))
}

/// The paragraphs of a text: its blocks, trimmed, without the empty ones.
pub open spec fn paragraphs(s: Seq<char>) -> Seq<Seq<char>> {
    present(trim_all(blocks(s)))
}

fn blocks_of(text: &str) -> (out: Vec<String>)
    ensures
        views(out@) == blocks(text@),
{
    let v = chars_of(text);
    let ghost s = text@;
    let mut out: Vec<String> = Vec::new();
    let mut start: usize = 0;
    let mut i: usize = 0;
    assert(s.skip(0) =~= s);
    assert(views(out@) + blocks(s) =~= blocks(s));
    while i < v.len()
        invariant
            v@ == s,
            start <= i <= s.len(),
            blocks(s) == views(out@) + blocks(s.skip(start as int)),
            next_gap(s.skip(start as int), 0) == next_gap(s.skip(start as int), i - start),
        decreases s.len() - i,
    {
        let ghost rest = s.skip(start as int);
        if i + 1 < v.len() && v[i] == '\n' && v[i + 1] == '\n' {
            let ghost before = views(out@);
            out.push(text_of(&v, start, i));
            proof {
                assert(rest[i - start] == '\n' && rest[i - start + 1] == '\n');
                assert(next_gap(rest, 0) == i - start);
                assert(rest.take(i - start) =~= s.subrange(start as int, i as int));
                assert(rest.skip(i - start + 2) =~= s.skip(i + 2));
                assert(views(out@) =~= before.push(s.subrange(start as int, i as int)));
                assert(views(out@) + blocks(s.skip(i + 2)) =~= before + (seq![rest.take(i - start)]
                    + blocks(rest.skip(i - start + 2))));
            }
            start = i + 2;
            i = i + 2;
        } else {
            proof {
                assert(rest[i - start] == s[i as int]);
                if i + 1 < s.len() {
                    assert(rest[i - start + 1] == s[i + 1]);
                }
            }
            i += 1;
            proof {
                if i == s.len() {
                    assert(next_gap(rest, i - start - 1) == rest.len());
                }
            }
        }
    }
    let ghost rest = s.skip(start as int);
    let ghost before = views(out@);
    assert(next_gap(rest, 0) == rest.len());
    out.push(text_of(&v, start, v.len()));
    assert(s.subrange(start as int, s.len() as int) =~= rest);
    assert(views(out@) =~= before + seq![rest]);
    out
}

/// The paragraphs of a text.
pub fn paragraphs_of(text: &str) -> (out: Vec<String>)
    ensures
        views(out@) == paragraphs(text@),
{
    let list = blocks_of(text);
    let mut out: Vec<String> = Vec::new();
    let mut i: usize = 0;
    proof {
        reveal(Seq::filter);
        assert(views(out@) =~= present(trim_all(blocks(text@).take(0))));
    }
    while i < list.len()
        invariant
            i <= list@.len(),
            views(list@) == blocks(text@),
            views(out@) == present(trim_all(blocks(text@).take(i as int))),
        decreases list@.len() - i,
    {
        let p = trimmed(list[i].as_str());
        let ghost before = views(out@);
        let ghost now = trim_all(blocks(text@).take(i + 1));
        proof {
            reveal(Seq::filter);
            assert(views(list@)[i as int] == list@[i as int]@);
            assert(now.drop_last() =~= trim_all(blocks(text@).take(i as int)));
            assert(now.last() == p@);
        }
        if !p.as_str().is_empty() {
            out.push(p);
            assert(views(out@) =~= before.push(p@));
        }
        i += 1;
    }
    assert(blocks(text@).take(list@.len() as int) =~= blocks(text@));
    out
}

// ---------------------------------------------------------------------------
// Lines
// ---------------------------------------------------------------------------

/// Where the first newline at or after `i` is, or the end of the text.
pub open spec fn line_end(s: Seq<char>, i: int) -> int
    decreases s.len() - i,
{
    if i >= s.len() {
        s.len() as int
    } else if s[i] == '\n' {
        i
    } else {
        line_end(s, i + 1)
    }
}

/// A line without the carriage return that belongs to its line ending.
pub open spec fn without_return(line: Seq<char>) -> Seq<char> {
    if line.len() > 0 && line.last() == '\r' {
        line.drop_last()
    } else {
        line
    }
}

/// The lines of a text, without their line endings; a last line need not be ended.
pub open spec fn lines(s: Seq<char>) -> Seq<Seq<char>>
    decreases s.len(),
{
    let j = line_end(s, 0);
    if 0 <= j < s.len() {
        seq![without_return(s.take(j))] + lines(s.skip(j + 1))
    } else if s.len() > 0 {
        seq![s]
    } else {
        Seq::empty()
    }
}

fn lines_of(text: &str) -> (out: Vec<String>)
    ensures
        views(out@) == lines(text@),
{
    let v = chars_of(text);
    let ghost s = text@;
    let mut out: Vec<String> = Vec::new();
    let mut start: usize = 0;
    let mut i: usize = 0;
    assert(s.skip(0) =~= s);
    assert(views(out@) + lines(s) =~= lines(s));
    while i < v.len()
        invariant
            v@ == s,
            start <= i <= s.len(),
            lines(s) == views(out@) + lines(s.skip(start as int)),
            line_end(s.skip(start as int), 0) == line_end(s.skip(start as int), i - start),
        decreases s.len() - i,
    {
        let ghost rest = s.skip(start as int);
        assert(rest[i - start] == s[i as int]);
        if v[i] == '\n' {
            let ghost before = views(out@);
            let end: usize = if start < i && v[i - 1] == '\r' {
                i - 1
            } else {
                i
            };
            out.push(text_of(&v, start, end));
            proof {
                assert(line_end(rest, 0) == i - start);
                assert(without_return(rest.take(i - start)) =~= s.subrange(start as int, end as int));
                assert(rest.skip(i - start + 1) =~= s.skip(i + 1));
                assert(views(out@) =~= before.push(s.subrange(start as int, end as int)));
                assert(views(out@) + lines(s.skip(i + 1)) =~= before + (seq![
                    without_return(rest.take(i - start)),
                ] + lines(rest.skip(i - start + 1))));
            }
            start = i + 1;
        }
        i += 1;
    }
    let ghost rest = s.skip(start as int);
    let ghost before = views(out@);
    assert(line_end(rest, 0) == rest.len());
    if start < v.len() {
        out.push(text_of(&v, start, v.len()));
        assert(s.subrange(start as int, s.len() as int) =~= rest);
        assert(views(out@) =~= before + seq![rest]);
    } else {
        assert(before + lines(rest) =~= before);
    }
    out
}

// ---------------------------------------------------------------------------
// Packing
// ---------------------------------------------------------------------------

/// Lines gathered into pieces: a piece is closed when the next line would take it past
/// the target. Every line keeps a newline behind it, and a blank last piece is dropped.
pub open spec fn pack_lines(lines: Seq<Seq<char>>, current: Seq<char>) -> Seq<Seq<char>>
    decreases lines.len(),
{
    if lines.len() == 0 {
        if blank(current) {
            Seq::empty()
        } else {
            seq![current]
        }
    } else if byte_len(current) + byte_len(lines[0]) > CHUNK_TARGET_CHARS && current.len() > 0 {
        seq![current] + pack_lines(lines.skip(1), lines[0].push('\n'))
    } else {
        pack_lines(lines.skip(1), current + lines[0].push('\n'))
    }
}

/// An oversized paragraph, broken on line boundaries.
pub open spec fn long_pieces(block: Seq<char>) -> Seq<Seq<char>> {
    pack_lines(lines(block), Seq::empty())
}

/// Whether a paragraph is too long to stay in one piece.
pub open spec fn oversized(p: Seq<char>) -> bool {
    byte_len(p) > 2 * CHUNK_TARGET_CHARS
}

/// The bytes of all these paragraphs together.
pub open spec fn total_bytes(list: Seq<Seq<char>>) -> nat
    decreases list.len(),
{
    if list.len() == 0 {
        0
    } else {
        total_bytes(list.drop_last()) + byte_len(list.last())
    }
}

/// Paragraphs gathered into chunks, `current` being those gathered so far: a chunk is
/// closed as soon as it reaches the target, and its last paragraph opens the next one.
/// An oversized paragraph closes the chunk before it and is broken up by itself.
pub open spec fn pack(list: Seq<Seq<char>>, current: Seq<Seq<char>>) -> Seq<Seq<char>>
    decreases list.len(),
{
    if list.len() == 0 {
        close(current)
    } else if oversized(list[0]) {
        close(current) + long_pieces(list[0]) + pack(list.skip(1), Seq::empty())
    } else {
        let grown = current.push(list[0]);
        if total_bytes(grown) >= CHUNK_TARGET_CHARS {
            seq![join(grown, gap())] + pack(list.skip(1), seq![list[0]])
        } else {
            pack(list.skip(1), grown)
        }
    }
}

/// The chunk that the gathered paragraphs make, if there are any.
pub open spec fn close(current: Seq<Seq<char>>) -> Seq<Seq<char>> {
    if current.len() == 0 {
        Seq::empty()
    } else {
        seq![join(current, gap())]
    }
}

/// Those texts that are more than whitespace.
pub open spec fn visible(list: Seq<Seq<char>>) -> Seq<Seq<char>> {
    list.filter(|c: Seq<char>| !blank(c))
}

/// The chunks of a text.
pub open spec fn chunks(text: Seq<char>) -> Seq<Seq<char>> {
    visible(pack(paragraphs(text), Seq::empty()))
}

/// Break an oversized paragraph on line boundaries.
pub fn split_long_block(block: &str) -> (out: Vec<String>)
    ensures
        views(out@) == long_pieces(block@),
{
    let list = lines_of(block);
    let ghost all = lines(block@);
    let mut out: Vec<String> = Vec::new();
    let mut current = String::new();
    let mut i: usize = 0;
    assert(all.skip(0) =~= all);
    assert(views(out@) + pack_lines(all, current@) =~= pack_lines(all, Seq::empty()));
    while i < list.len()
        invariant
            i <= list@.len(),
            views(list@) == all,
            pack_lines(all, Seq::empty()) == views(out@) + pack_lines(all.skip(i as int), current@),
        decreases list@.len() - i,
    {
        let line = list[i].as_str();
        let have = bytes_in(current.as_str());
        let more = bytes_in(line);
        let ghost rest = all.skip(i as int);
        proof {
            assert(all[i as int] == line@);
            assert(rest[0] == line@);
            assert(rest.skip(1) =~= all.skip(i + 1));
        }
        let full = have > CHUNK_TARGET_CHARS || more > CHUNK_TARGET_CHARS - have;
        let ghost before = views(out@);
        let ghost was = current@;
        if full && !current.as_str().is_empty() {
            out.push(current);
            current = String::new();
            proof {
                assert(views(out@) =~= before.push(was));
                assert(views(out@) + pack_lines(all.skip(i + 1), line@.push('\n')) =~= before + (seq![was]
                    + pack_lines(all.skip(i + 1), line@.push('\n'))));
                assert(current@ + line@.push('\n') =~= line@.push('\n'));
            }
        }
        let ghost head = current@;
        current.append(line);
        current.push('\n');
        assert(current@ =~= head + line@.push('\n'));
        i += 1;
    }
    let ghost before = views(out@);
    assert(all.skip(list@.len() as int) =~= Seq::empty());
    if !is_blank(current.as_str()) {
        let ghost last = current@;
        out.push(current);
        assert(views(out@) =~= before + seq![last]);
    } else {
        assert(before + Seq::<Seq<char>>::empty() =~= before);
    }
    out
}

/// Whether a string is nothing but whitespace.
pub fn is_blank(s: &str) -> (r: bool)
    ensures
        r == blank(s@),
{
    trimmed(s).as_str().is_empty()
}

fn joined_paragraphs(current: &Vec<String>) -> (r: String)
    ensures
        r@ == join(views(current@), gap()),
{
    proof {
        reveal_strlit("\n\n");
        assert("\n\n"@ =~= gap());
    }
    joined(current, "\n\n")
}

fn visible_of(list: Vec<String>) -> (out: Vec<String>)
    ensures
        views(out@) == visible(views(list@)),
{
    let mut out: Vec<String> = Vec::new();
    let ghost all = views(list@);
    let mut i: usize = 0;
    proof {
        reveal(Seq::filter);
        assert(views(out@) =~= visible(all.take(0)));
    }
    while i < list.len()
        invariant
            i <= list@.len(),
            all == views(list@),
            views(out@) == visible(all.take(i as int)),
        decreases list@.len() - i,
    {
        let ghost before = views(out@);
        proof {
            reveal(Seq::filter);
            assert(all.take(i + 1).drop_last() =~= all.take(i as int));
            assert(all.take(i + 1).last() == list@[i as int]@);
        }
        if !is_blank(list[i].as_str()) {
            out.push(owned(list[i].as_str()));
            assert(views(out@) =~= before.push(list@[i as int]@));
        }
        i += 1;
    }
    assert(all.take(list@.len() as int) =~= all);
    out
}

/// Cut text into chunks on paragraph boundaries, with one paragraph of overlap.
pub fn split_into_chunks(text: &str) -> (out: Vec<String>)
    ensures
        views(out@) == chunks(text@),
{
    let list = paragraphs_of(text);
    let ghost all = paragraphs(text@);
    let mut out: Vec<String> = Vec::new();
    let mut current: Vec<String> = Vec::new();
    let mut current_len: usize = 0;
    let mut i: usize = 0;
    proof {
        assert(all.skip(0) =~= all);
        assert(views(current@) =~= Seq::empty());
        assert(views(out@) + pack(all, Seq::empty()) =~= pack(all, Seq::empty()));
    }
    while i < list.len()
        invariant
            i <= list@.len(),
            views(list@) == all,
            current_len == total_bytes(views(current@)),
            current_len <= 2 * CHUNK_TARGET_CHARS,
            pack(all, Seq::empty()) == views(out@) + pack(all.skip(i as int), views(current@)),
        decreases list@.len() - i,
    {
        let para = list[i].as_str();
        let len = bytes_in(para);
        let ghost rest = all.skip(i as int);
        let ghost before = views(out@);
        let ghost had = views(current@);
        proof {
            assert(all[i as int] == para@);
            assert(rest[0] == para@);
            assert(rest.skip(1) =~= all.skip(i + 1));
        }
        if len > CHUNK_TARGET_CHARS * 2 {
            if current.len() > 0 {
                let chunk = joined_paragraphs(&current);
                out.push(chunk);
                assert(views(out@) =~= before + close(had));
            } else {
                assert(had =~= Seq::empty());
                assert(views(out@) =~= before + close(had));
            }
            current = Vec::new();
            current_len = 0;
            let mut pieces = split_long_block(para);
            let ghost mid = views(out@);
            let ghost long = views(pieces@);
            out.append(&mut pieces);
            proof {
                assert(views(out@) =~= mid + long);
                assert(views(current@) =~= Seq::empty());
                assert(views(out@) + pack(all.skip(i + 1), Seq::empty()) =~= before + (close(had)
                    + long_pieces(para@) + pack(all.skip(i + 1), Seq::empty())));
            }
        } else {
            current.push(owned(para));
            current_len = current_len + len;
            let ghost grown = views(current@);
            proof {
                assert(grown =~= had.push(para@));
                assert(grown.drop_last() =~= had);
            }
            if current_len >= CHUNK_TARGET_CHARS {
                let chunk = joined_paragraphs(&current);
                out.push(chunk);
                current = Vec::new();
                current.push(owned(para));
                current_len = len;
                proof {
                    reveal_with_fuel(total_bytes, 2);
                    assert(views(current@) =~= seq![para@]);
                    assert(views(current@).drop_last() =~= Seq::empty());
                    assert(views(out@) =~= before.push(join(grown, gap())));
                    assert(views(out@) + pack(all.skip(i + 1), seq![para@]) =~= before + (seq![
                        join(grown, gap()),
                    ] + pack(all.skip(i + 1), seq![para@])));
                }
            }
        }
        i += 1;
    }
    let ghost before = views(out@);
    let ghost had = views(current@);
    assert(all.skip(list@.len() as int) =~= Seq::empty());
    if current.len() > 0 {
        let chunk = joined_paragraphs(&current);
        out.push(chunk);
    } else {
        assert(had =~= Seq::empty());
    }
    assert(views(out@) =~= before + close(had));
    visible_of(out)
}

// ---------------------------------------------------------------------------
// What chunking promises
// ---------------------------------------------------------------------------

/// Whether `part` stands in `whole` from position `at` on.
pub open spec fn stands_at(whole: Seq<char>, part: Seq<char>, at: int) -> bool {
    0 <= at && at + part.len() <= whole.len() && whole.subrange(at, at + part.len()) == part
}

/// Whether `part` stands somewhere in `whole`, unbroken.
pub open spec fn holds(whole: Seq<char>, part: Seq<char>) -> bool {
    exists|at: int| stands_at(whole, part, at)
}

/// Whether some text of the list holds `part`.
pub open spec fn some_holds(list: Seq<Seq<char>>, part: Seq<char>) -> bool {
    exists|k: int| 0 <= k < list.len() && holds(#[trigger] list[k], part)
}

/// Lines set one below the other, each with a newline behind it.
pub open spec fn line_text(list: Seq<Seq<char>>) -> Seq<char>
    decreases list.len(),
{
    if list.len() == 0 {
        Seq::empty()
    } else {
        line_text(list.drop_last()) + list.last().push('\n')
    }
}

/// Whether a text is the paragraphs from `a` up to `b`, whole.
pub open spec fn spans_paragraphs(list: Seq<Seq<char>>, a: int, b: int, c: Seq<char>) -> bool {
    0 <= a < b <= list.len() && c == join(list.subrange(a, b), gap())
}

/// Whether a text is the lines from `a` up to `b` of a paragraph, whole.
pub open spec fn spans_lines(paragraph: Seq<char>, a: int, b: int, c: Seq<char>) -> bool {
    0 <= a <= b <= lines(paragraph).len() && c == line_text(lines(paragraph).subrange(a, b))
}

/// Whether a text is made of whole paragraphs, or of whole lines of one oversized paragraph.
pub open spec fn whole_parts(list: Seq<Seq<char>>, c: Seq<char>) -> bool {
    ||| exists|a: int, b: int| spans_paragraphs(list, a, b, c)
    ||| exists|i: int, a: int, b: int|
        0 <= i < list.len() && oversized(list[i]) && #[trigger] spans_lines(list[i], a, b, c)
}

pub proof fn lemma_holds_through(outer: Seq<char>, inner: Seq<char>, part: Seq<char>)
    requires
        holds(outer, inner),
        holds(inner, part),
    ensures
        holds(outer, part),
{
    let x = choose|at: int| stands_at(outer, inner, at);
    let y = choose|at: int| stands_at(inner, part, at);
    assert(outer.subrange(x + y, x + y + part.len()) =~= inner.subrange(y, y + part.len()));
    assert(stands_at(outer, part, x + y));
}

proof fn lemma_some_holds_in_sum(left: Seq<Seq<char>>, right: Seq<Seq<char>>, part: Seq<char>)
    ensures
        some_holds(left, part) ==> some_holds(left + right, part),
        some_holds(right, part) ==> some_holds(left + right, part),
{
    if some_holds(left, part) {
        let k = choose|k: int| 0 <= k < left.len() && holds(#[trigger] left[k], part);
        assert((left + right)[k] == left[k]);
    }
    if some_holds(right, part) {
        let k = choose|k: int| 0 <= k < right.len() && holds(#[trigger] right[k], part);
        assert((left + right)[left.len() + k] == right[k]);
    }
}

proof fn lemma_holds_ends(head: Seq<char>, next: Seq<char>)
    ensures
        holds(head + gap() + next, next),
        holds(head + gap() + next, head),
{
    let whole = head + gap() + next;
    assert(whole.subrange(head.len() as int + 2, whole.len() as int) =~= next);
    assert(stands_at(whole, next, head.len() as int + 2));
    assert(whole.subrange(0, head.len() as int) =~= head);
    assert(stands_at(whole, head, 0));
}

proof fn lemma_holds_last(head: Seq<char>, left: Seq<char>, last: Seq<char>, next: Seq<char>)
    requires
        head == left + last,
    ensures
        holds(head + gap() + next, last + gap() + next),
{
    let whole = head + gap() + next;
    let part = last + gap() + next;
    assert(whole.subrange(left.len() as int, left.len() + part.len() as int) =~= part);
    assert(stands_at(whole, part, left.len() as int));
}

proof fn lemma_join_parts(list: Seq<Seq<char>>, next: Seq<char>)
    ensures
        holds(join(list.push(next), gap()), next),
        list.len() > 0 ==> holds(join(list.push(next), gap()), join(list, gap())),
        list.len() > 0 ==> holds(join(list.push(next), gap()), list.last() + gap() + next),
{
    let grown = list.push(next);
    assert(grown.drop_last() =~= list);
    if list.len() > 0 {
        let head = join(list, gap());
        assert(join(grown, gap()) == head + gap() + next);
        lemma_holds_ends(head, next);
        let left = if list.len() == 1 {
            Seq::empty()
        } else {
            join(list.drop_last(), gap()) + gap()
        };
        assert(head =~= left + list.last());
        lemma_holds_last(head, left, list.last(), next);
    } else {
        assert(join(grown, gap()) == next);
        assert(next.subrange(0, next.len() as int) =~= next);
        assert(stands_at(next, next, 0));
    }
}

proof fn lemma_current_kept(list: Seq<Seq<char>>, current: Seq<Seq<char>>, part: Seq<char>)
    requires
        current.len() > 0,
        holds(join(current, gap()), part),
    ensures
        some_holds(pack(list, current), part),
    decreases list.len(),
{
    let closed = seq![join(current, gap())];
    if list.len() == 0 {
        assert(pack(list, current)[0] == join(current, gap()));
    } else if oversized(list[0]) {
        assert(closed[0] == join(current, gap()));
        assert(some_holds(closed, part));
        let tail = pack(list.skip(1), Seq::empty());
        lemma_some_holds_in_sum(closed, long_pieces(list[0]), part);
        lemma_some_holds_in_sum(closed + long_pieces(list[0]), tail, part);
    } else {
        let grown = current.push(list[0]);
        lemma_join_parts(current, list[0]);
        lemma_holds_through(join(grown, gap()), join(current, gap()), part);
        if total_bytes(grown) >= CHUNK_TARGET_CHARS {
            assert(pack(list, current)[0] == join(grown, gap()));
        } else {
            lemma_current_kept(list.skip(1), grown, part);
        }
    }
}

/// What `pack` goes on with once it has dealt with the first paragraph.
spec fn carried(list: Seq<Seq<char>>, current: Seq<Seq<char>>) -> Seq<Seq<char>> {
    if oversized(list[0]) {
        Seq::empty()
    } else if total_bytes(current.push(list[0])) >= CHUNK_TARGET_CHARS {
        seq![list[0]]
    } else {
        current.push(list[0])
    }
}

proof fn lemma_pack_tail(list: Seq<Seq<char>>, current: Seq<Seq<char>>, part: Seq<char>)
    requires
        list.len() > 0,
        some_holds(pack(list.skip(1), carried(list, current)), part),
    ensures
        some_holds(pack(list, current), part),
{
    let tail = pack(list.skip(1), carried(list, current));
    if oversized(list[0]) {
        lemma_some_holds_in_sum(close(current) + long_pieces(list[0]), tail, part);
    } else if total_bytes(current.push(list[0])) >= CHUNK_TARGET_CHARS {
        lemma_some_holds_in_sum(seq![join(current.push(list[0]), gap())], tail, part);
    }
}

proof fn lemma_paragraph_packed(list: Seq<Seq<char>>, current: Seq<Seq<char>>, i: int)
    requires
        0 <= i < list.len(),
        !oversized(list[i]),
    ensures
        some_holds(pack(list, current), list[i]),
    decreases list.len(),
{
    if i > 0 {
        assert(list.skip(1)[i - 1] == list[i]);
        lemma_paragraph_packed(list.skip(1), carried(list, current), i - 1);
        lemma_pack_tail(list, current, list[i]);
    } else {
        let grown = current.push(list[0]);
        lemma_join_parts(current, list[0]);
        if total_bytes(grown) >= CHUNK_TARGET_CHARS {
            assert(pack(list, current)[0] == join(grown, gap()));
        } else {
            lemma_current_kept(list.skip(1), grown, list[0]);
        }
    }
}

proof fn lemma_neighbours_packed(list: Seq<Seq<char>>, current: Seq<Seq<char>>, i: int)
    requires
        0 <= i,
        i + 1 < list.len(),
        !oversized(list[i]),
        !oversized(list[i + 1]),
    ensures
        some_holds(pack(list, current), list[i] + gap() + list[i + 1]),
    decreases list.len(),
{
    let both = list[i] + gap() + list[i + 1];
    let next = carried(list, current);
    let rest = list.skip(1);
    assert(rest[i] == list[i + 1]);
    if i > 0 {
        assert(rest[i - 1] == list[i]);
        lemma_neighbours_packed(rest, next, i - 1);
    } else {
        assert(next.last() == list[0]);
        let grown = next.push(rest[0]);
        lemma_join_parts(next, rest[0]);
        assert(holds(join(grown, gap()), both));
        if total_bytes(grown) >= CHUNK_TARGET_CHARS {
            assert(pack(rest, next)[0] == join(grown, gap()));
        } else {
            lemma_current_kept(rest.skip(1), grown, both);
        }
        assert(some_holds(pack(rest, next), both));
    }
    lemma_pack_tail(list, current, both);
}

proof fn lemma_trim_end_visible(s: Seq<char>)
    ensures
        trim_end(s).len() > 0 ==> !is_space(trim_end(s).last()),
    decreases s.len(),
{
    if s.len() > 0 && is_space(s.last()) {
        lemma_trim_end_visible(s.drop_last());
    }
}

proof fn lemma_trim_start_keeps(s: Seq<char>, i: int)
    requires
        0 <= i < s.len(),
        !is_space(s[i]),
    ensures
        trim_start(s).contains(s[i]),
    decreases s.len(),
{
    if is_space(s[0]) {
        assert(s.skip(1)[i - 1] == s[i]);
        lemma_trim_start_keeps(s.skip(1), i - 1);
    }
}

proof fn lemma_trim_end_keeps(s: Seq<char>, i: int)
    requires
        0 <= i < s.len(),
        !is_space(s[i]),
    ensures
        trim_end(s).len() > 0,
    decreases s.len(),
{
    if is_space(s.last()) {
        assert(s.drop_last()[i] == s[i]);
        lemma_trim_end_keeps(s.drop_last(), i);
    }
}

pub proof fn lemma_not_blank(s: Seq<char>, i: int)
    requires
        0 <= i < s.len(),
        !is_space(s[i]),
    ensures
        !blank(s),
{
    lemma_trim_start_keeps(s, i);
    let t = trim_start(s);
    let j = choose|j: int| 0 <= j < t.len() && t[j] == s[i];
    lemma_trim_end_keeps(t, j);
}

proof fn lemma_visible_holds(list: Seq<Seq<char>>, part: Seq<char>, i: int)
    requires
        some_holds(list, part),
        0 <= i < part.len(),
        !is_space(part[i]),
    ensures
        some_holds(visible(list), part),
{
    let k = choose|k: int| 0 <= k < list.len() && holds(#[trigger] list[k], part);
    let c = list[k];
    let at = choose|at: int| stands_at(c, part, at);
    assert(c.subrange(at, at + part.len())[i] == c[at + i]);
    lemma_not_blank(c, at + i);
    let shown = |c: Seq<char>| !blank(c);
    assert(visible(list) == list.filter(shown));
    list.lemma_filter_contains(shown, k);
    let m = choose|m: int| 0 <= m < visible(list).len() && visible(list)[m] == c;
    assert(holds(visible(list)[m], part));
}

pub proof fn lemma_paragraph_visible(text: Seq<char>, i: int)
    requires
        0 <= i < paragraphs(text).len(),
    ensures
        paragraphs(text)[i].len() > 0,
        !is_space(paragraphs(text)[i].last()),
{
    let all = trim_all(blocks(text));
    let kept = |p: Seq<char>| p.len() > 0;
    assert(present(all) == all.filter(kept));
    all.lemma_filter_pred(kept, i);
    all.lemma_filter_contains_rev(kept, paragraphs(text)[i]);
    let j = choose|j: int| 0 <= j < all.len() && all[j] == paragraphs(text)[i];
    lemma_trim_end_visible(trim_start(blocks(text)[j]));
}

/// Every paragraph that is not oversized stands whole in some chunk.
pub proof fn law_paragraph_kept_whole(text: Seq<char>, i: int)
    requires
        0 <= i < paragraphs(text).len(),
        !oversized(paragraphs(text)[i]),
    ensures
        some_holds(chunks(text), paragraphs(text)[i]),
{
    let p = paragraphs(text)[i];
    lemma_paragraph_packed(paragraphs(text), Seq::empty(), i);
    lemma_paragraph_visible(text, i);
    lemma_visible_holds(pack(paragraphs(text), Seq::empty()), p, p.len() - 1);
}

/// Overlap: two neighbouring paragraphs, neither of them oversized, always stand together
/// in some chunk, so no boundary separates them for good.
pub proof fn law_neighbours_stay_together(text: Seq<char>, i: int)
    requires
        0 <= i,
        i + 1 < paragraphs(text).len(),
        !oversized(paragraphs(text)[i]),
        !oversized(paragraphs(text)[i + 1]),
    ensures
        some_holds(chunks(text), paragraphs(text)[i] + gap() + paragraphs(text)[i + 1]),
{
    let p = paragraphs(text)[i];
    let both = p + gap() + paragraphs(text)[i + 1];
    lemma_neighbours_packed(paragraphs(text), Seq::empty(), i);
    lemma_paragraph_visible(text, i);
    assert(both[p.len() - 1] == p.last());
    lemma_visible_holds(pack(paragraphs(text), Seq::empty()), both, p.len() - 1);
}

// Lines of an oversized paragraph.

proof fn lemma_lines_carried(list: Seq<Seq<char>>, current: Seq<char>, part: Seq<char>, i: int)
    requires
        holds(current, part),
        0 <= i < part.len(),
        !is_space(part[i]),
    ensures
        some_holds(pack_lines(list, current), part),
    decreases list.len(),
{
    let at = choose|at: int| stands_at(current, part, at);
    assert(current.subrange(at, at + part.len())[i] == current[at + i]);
    lemma_not_blank(current, at + i);
    if list.len() == 0 {
        assert(pack_lines(list, current)[0] == current);
    } else if byte_len(current) + byte_len(list[0]) > CHUNK_TARGET_CHARS && current.len() > 0 {
        assert(pack_lines(list, current)[0] == current);
    } else {
        let grown = current + list[0].push('\n');
        assert(grown.subrange(at, at + part.len()) =~= part);
        assert(stands_at(grown, part, at));
        lemma_lines_carried(list.skip(1), grown, part, i);
    }
}

proof fn lemma_line_packed(list: Seq<Seq<char>>, current: Seq<char>, j: int, i: int)
    requires
        0 <= j < list.len(),
        0 <= i < list[j].len(),
        !is_space(list[j][i]),
    ensures
        some_holds(pack_lines(list, current), list[j].push('\n')),
    decreases list.len(),
{
    let part = list[j].push('\n');
    let cut = byte_len(current) + byte_len(list[0]) > CHUNK_TARGET_CHARS && current.len() > 0;
    let next = if cut {
        list[0].push('\n')
    } else {
        current + list[0].push('\n')
    };
    let tail = pack_lines(list.skip(1), next);
    assert(part[i] == list[j][i]);
    if j == 0 {
        let at = next.len() - part.len();
        assert(next.subrange(at, at + part.len()) =~= part);
        assert(stands_at(next, part, at));
        lemma_lines_carried(list.skip(1), next, part, i);
    } else {
        assert(list.skip(1)[j - 1] == list[j]);
        lemma_line_packed(list.skip(1), next, j - 1, i);
    }
    if cut {
        lemma_some_holds_in_sum(seq![current], tail, part);
    }
}

proof fn lemma_oversized_packed(list: Seq<Seq<char>>, current: Seq<Seq<char>>, i: int, part: Seq<char>)
    requires
        0 <= i < list.len(),
        oversized(list[i]),
        some_holds(long_pieces(list[i]), part),
    ensures
        some_holds(pack(list, current), part),
    decreases list.len(),
{
    if i > 0 {
        assert(list.skip(1)[i - 1] == list[i]);
        lemma_oversized_packed(list.skip(1), carried(list, current), i - 1, part);
        lemma_pack_tail(list, current, part);
    } else {
        lemma_some_holds_in_sum(close(current), long_pieces(list[0]), part);
        lemma_some_holds_in_sum(
            close(current) + long_pieces(list[0]),
            pack(list.skip(1), Seq::empty()),
            part,
        );
    }
}

/// Every line of an oversized paragraph with something on it stands whole in some chunk.
pub proof fn law_line_kept_whole(text: Seq<char>, i: int, j: int, at: int)
    requires
        0 <= i < paragraphs(text).len(),
        oversized(paragraphs(text)[i]),
        0 <= j < lines(paragraphs(text)[i]).len(),
        0 <= at < lines(paragraphs(text)[i])[j].len(),
        !is_space(lines(paragraphs(text)[i])[j][at]),
    ensures
        some_holds(chunks(text), lines(paragraphs(text)[i])[j].push('\n')),
{
    let p = paragraphs(text)[i];
    let part = lines(p)[j].push('\n');
    lemma_line_packed(lines(p), Seq::empty(), j, at);
    lemma_oversized_packed(paragraphs(text), Seq::empty(), i, part);
    assert(part[at] == lines(p)[j][at]);
    lemma_visible_holds(pack(paragraphs(text), Seq::empty()), part, at);
}

// Where the chunks come from.

proof fn lemma_line_piece(p: Seq<char>, a: int, i: int, c: Seq<char>)
    requires
        0 <= a <= i <= lines(p).len(),
        pack_lines(lines(p).skip(i), line_text(lines(p).subrange(a, i))).contains(c),
    ensures
        exists|x: int, y: int| spans_lines(p, x, y, c),
    decreases lines(p).len() - i,
{
    let list = lines(p);
    let current = line_text(list.subrange(a, i));
    let out = pack_lines(list.skip(i), current);
    let k = choose|k: int| 0 <= k < out.len() && out[k] == c;
    assert(spans_lines(p, a, i, current));
    if i < list.len() {
        let rest = list.skip(i);
        assert(rest[0] == list[i]);
        assert(rest.skip(1) =~= list.skip(i + 1));
        assert(list.subrange(a, i + 1).drop_last() =~= list.subrange(a, i));
        assert(line_text(list.subrange(a, i + 1)) =~= current + list[i].push('\n'));
        if byte_len(current) + byte_len(list[i]) > CHUNK_TARGET_CHARS && current.len() > 0 {
            let one = list.subrange(i, i + 1);
            assert(one.drop_last() =~= Seq::empty());
            assert(line_text(one.drop_last()) =~= Seq::empty());
            assert(line_text(one) =~= list[i].push('\n'));
            let tail = pack_lines(list.skip(i + 1), list[i].push('\n'));
            if k > 0 {
                assert(tail[k - 1] == c);
                lemma_line_piece(p, i, i + 1, c);
            }
        } else {
            lemma_line_piece(p, a, i + 1, c);
        }
    }
}

proof fn lemma_pack_part(all: Seq<Seq<char>>, a: int, i: int, c: Seq<char>)
    requires
        0 <= a <= i <= all.len(),
        pack(all.skip(i), all.subrange(a, i)).contains(c),
    ensures
        whole_parts(all, c),
    decreases all.len() - i,
{
    let current = all.subrange(a, i);
    let out = pack(all.skip(i), current);
    let k = choose|k: int| 0 <= k < out.len() && out[k] == c;
    assert(current.len() > 0 ==> spans_paragraphs(all, a, i, join(current, gap())));
    if i < all.len() {
        let rest = all.skip(i);
        let p = all[i];
        assert(rest[0] == p);
        assert(rest.skip(1) =~= all.skip(i + 1));
        assert(all.subrange(a, i + 1) =~= current.push(p));
        if oversized(p) {
            let pieces = long_pieces(p);
            let tail = pack(all.skip(i + 1), Seq::empty());
            let n = close(current).len() as int;
            assert(out =~= close(current) + pieces + tail);
            if n <= k < n + pieces.len() {
                assert(pieces[k - n] == c);
                assert(lines(p).skip(0) =~= lines(p));
                assert(lines(p).subrange(0, 0) =~= Seq::empty());
                lemma_line_piece(p, 0, 0, c);
                let (x, y) = choose|x: int, y: int| spans_lines(p, x, y, c);
                assert(spans_lines(all[i], x, y, c));
            } else if k >= n + pieces.len() {
                assert(tail[k - n - pieces.len()] == c);
                assert(all.subrange(i + 1, i + 1) =~= Seq::empty());
                lemma_pack_part(all, i + 1, i + 1, c);
            }
        } else if total_bytes(current.push(p)) >= CHUNK_TARGET_CHARS {
            let tail = pack(all.skip(i + 1), seq![p]);
            assert(spans_paragraphs(all, a, i + 1, join(current.push(p), gap())));
            if k > 0 {
                assert(tail[k - 1] == c);
                assert(all.subrange(i, i + 1) =~= seq![p]);
                lemma_pack_part(all, i, i + 1, c);
            }
        } else {
            lemma_pack_part(all, a, i + 1, c);
        }
    }
}

/// Chunks follow the seams of the text: each one is a run of whole paragraphs, or a run of
/// whole lines of one oversized paragraph, and none is blank.
pub proof fn law_chunks_follow_seams(text: Seq<char>, k: int)
    requires
        0 <= k < chunks(text).len(),
    ensures
        whole_parts(paragraphs(text), chunks(text)[k]),
        !blank(chunks(text)[k]),
{
    let all = paragraphs(text);
    let packed = pack(all, Seq::empty());
    let shown = |c: Seq<char>| !blank(c);
    assert(visible(packed) == packed.filter(shown));
    packed.lemma_filter_pred(shown, k);
    packed.lemma_filter_contains_rev(shown, chunks(text)[k]);
    assert(all.skip(0) =~= all);
    assert(all.subrange(0, 0) =~= Seq::empty());
    lemma_pack_part(all, 0, 0, chunks(text)[k]);
}

} // verus!
