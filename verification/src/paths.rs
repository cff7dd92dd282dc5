//! Paths, as the bytes the operating system knows them by.
//!
//! A path is read by its components, the way Unix reads it: repeated separators and inner
//! single dots do not count, and nothing is looked up on disk.

use vstd::prelude::*;
#[allow(unused_imports)]
use vstd::utf8::{decode_utf8, is_ascii_chars, valid_utf8};

#[allow(unused_imports)]
use crate::order::{
    ascending, lemma_lex_chain, lemma_lex_either, lemma_lex_self, lemma_place_is,
    lemma_sorted_ascending, lex, ranking, sorted, total,
};

verus! {

// ---------------------------------------------------------------------------
// Bytes and text
// ---------------------------------------------------------------------------

/// What `String::from_utf8_lossy` makes of these bytes.
pub uninterp spec fn utf8_lossy(bytes: Seq<u8>) -> Seq<char>;

/// `String::from_utf8_lossy`: valid UTF-8 is decoded as it is. How each invalid sequence is
/// replaced is left to the name `utf8_lossy`.
#[verifier::external_body]
pub(crate) fn lossy(bytes: &[u8]) -> (s: String)
    ensures
        s@ == utf8_lossy(bytes@),
        valid_utf8(bytes@) ==> s@ == decode_utf8(bytes@),
{
    String::from_utf8_lossy(bytes).into_owned()
}

/// Whether these bytes read as they are where they are valid UTF-8.
pub open spec fn read_as_is(bytes: Seq<u8>) -> bool {
    valid_utf8(bytes) ==> utf8_lossy(bytes) == decode_utf8(bytes)
}

/// `std::str::from_utf8`: the text that these bytes encode, or nothing where they are not
/// valid UTF-8.
#[verifier::external_body]
pub(crate) fn strict(bytes: &[u8]) -> (s: Option<String>)
    ensures
        s is Some <==> valid_utf8(bytes@),
        s is Some ==> s->0@ == decode_utf8(bytes@),
{
    match std::str::from_utf8(bytes) {
        Ok(text) => Some(text.to_owned()),
        Err(_) => None,
    }
}

/// What `str::to_lowercase` makes of this text.
pub uninterp spec fn unicode_lowercase(s: Seq<char>) -> Seq<char>;

/// An ASCII letter in lower case; any other character as it is.
pub open spec fn ascii_lower(c: char) -> char {
    if 'A' <= c <= 'Z' {
        ((c as u8) + 32) as u8 as char
    } else {
        c
    }
}

/// A text with each ASCII letter in lower case.
pub open spec fn lowered(s: Seq<char>) -> Seq<char> {
    s.map_values(|c: char| ascii_lower(c))
}

/// `str::to_lowercase`: on ASCII text each capital letter becomes the small one. What
/// Unicode's tables do beyond ASCII is left to the name `unicode_lowercase`.
#[verifier::external_body]
pub(crate) fn lowercase(s: &str) -> (r: String)
    ensures
        r@ == unicode_lowercase(s@),
        is_ascii_chars(s@) ==> r@ == lowered(s@),
{
    s.to_lowercase()
}

// ---------------------------------------------------------------------------
// Components
// ---------------------------------------------------------------------------

/// Where the first separator at or after `i` is, or the end of the path.
pub open spec fn piece_end(path: Seq<u8>, i: int) -> int
    decreases path.len() - i,
{
    if i >= path.len() {
        path.len() as int
    } else if path[i] == 0x2f {
        i
    } else {
        piece_end(path, i + 1)
    }
}

/// The ranges of the components from `i` on. Empty pieces do not count, nor do single dots
/// except at the very start of a path.
pub open spec fn spans_from(path: Seq<u8>, i: int) -> Seq<(int, int)>
    decreases path.len() - i,
{
    if i < 0 || i >= path.len() {
        Seq::empty()
    } else {
        let e = piece_end(path, i);
        let here = if e == i || (i > 0 && e == i + 1 && path[i] == 0x2e) {
            Seq::empty()
        } else {
            seq![(i, e)]
        };
        if i <= e < path.len() {
            here + spans_from(path, e + 1)
        } else {
            here
        }
    }
}

/// The ranges of all components of a path; the root of an absolute path is one of them.
pub open spec fn spans(path: Seq<u8>) -> Seq<(int, int)> {
    if path.len() > 0 && path[0] == 0x2f {
        seq![(0int, 1int)] + spans_from(path, 1)
    } else {
        spans_from(path, 0)
    }
}

/// The components of a path.
pub open spec fn components(path: Seq<u8>) -> Seq<Seq<u8>> {
    spans(path).map_values(|r: (int, int)| path.subrange(r.0, r.1))
}

pub proof fn lemma_piece_end(path: Seq<u8>, i: int)
    requires
        0 <= i <= path.len(),
    ensures
        i <= piece_end(path, i) <= path.len(),
        forall|j: int| i <= j < piece_end(path, i) ==> path[j] != 0x2f,
        piece_end(path, i) < path.len() ==> path[piece_end(path, i)] == 0x2f,
    decreases path.len() - i,
{
    if i < path.len() && path[i] != 0x2f {
        lemma_piece_end(path, i + 1);
    }
}

pub proof fn lemma_spans_from(path: Seq<u8>, i: int)
    requires
        0 <= i,
    ensures
        forall|k: int|
            0 <= k < spans_from(path, i).len() ==> i <= (#[trigger] spans_from(path, i)[k]).0
                < spans_from(path, i)[k].1 <= path.len(),
    decreases path.len() - i,
{
    if i < path.len() {
        lemma_piece_end(path, i);
        let e = piece_end(path, i);
        if e < path.len() {
            lemma_spans_from(path, e + 1);
            let tail = spans_from(path, e + 1);
            let out = spans_from(path, i);
            assert forall|k: int| 0 <= k < out.len() implies i <= (#[trigger] out[k]).0 < out[k].1
                <= path.len() by {
                let n = out.len() - tail.len();
                if k >= n {
                    assert(out[k] == tail[k - n]);
                }
            }
        }
    }
}

/// Every component is a stretch of the path that holds at least one byte.
pub proof fn lemma_spans(path: Seq<u8>)
    ensures
        forall|k: int|
            0 <= k < spans(path).len() ==> 0 <= (#[trigger] spans(path)[k]).0 < spans(path)[k].1
                <= path.len(),
{
    lemma_spans_from(path, 0);
    lemma_spans_from(path, 1);
}

/// What `spans_of` has found, in numbers.
pub open spec fn ranges(list: Seq<(usize, usize)>) -> Seq<(int, int)> {
    list.map_values(|r: (usize, usize)| (r.0 as int, r.1 as int))
}

/// The ranges of all components of a path.
pub fn spans_of(path: &[u8]) -> (out: Vec<(usize, usize)>)
    ensures
        ranges(out@) == spans(path@),
{
    let mut out: Vec<(usize, usize)> = Vec::new();
    let mut i: usize = 0;
    let ghost p = path@;
    if path.len() > 0 && path[0] == 0x2f {
        out.push((0, 1));
        i = 1;
        assert(ranges(out@) =~= seq![(0int, 1int)]);
    } else {
        assert(ranges(out@) + spans_from(p, 0) =~= spans_from(p, 0));
    }
    while i < path.len()
        invariant
            p == path@,
            i <= p.len() + 1,
            spans(p) == ranges(out@) + spans_from(p, i as int),
        decreases p.len() + 1 - i,
    {
        let mut e: usize = i;
        while e < path.len() && path[e] != 0x2f
            invariant
                p == path@,
                i <= e <= p.len(),
                piece_end(p, i as int) == piece_end(p, e as int),
            decreases p.len() - e,
        {
            e += 1;
        }
        let ghost before = ranges(out@);
        let dropped = e == i || (i > 0 && e == i + 1 && path[i] == 0x2e);
        if !dropped {
            out.push((i, e));
            assert(ranges(out@) =~= before.push((i as int, e as int)));
        }
        proof {
            assert(piece_end(p, i as int) == e);
            if e == p.len() {
                assert(spans_from(p, e as int).len() == 0);
            }
            let tail = if e < p.len() {
                spans_from(p, e + 1)
            } else {
                Seq::empty()
            };
            assert(ranges(out@) + tail =~= before + spans_from(p, i as int));
        }
        if e < path.len() {
            i = e + 1;
        } else {
            i = e;
        }
    }
    assert(ranges(out@) + spans_from(p, i as int) =~= ranges(out@));
    out
}

// ---------------------------------------------------------------------------
// Containment
// ---------------------------------------------------------------------------

/// Whether `path` lies at or below `base`: every component of `base`, in order, opens `path`.
pub open spec fn within(path: Seq<u8>, base: Seq<u8>) -> bool {
    components(base).len() <= components(path).len() && components(path).take(
        components(base).len() as int,
    ) == components(base)
}

/// Whether two stretches of bytes are the same.
fn same_stretch(a: &[u8], ra: (usize, usize), b: &[u8], rb: (usize, usize)) -> (r: bool)
    requires
        ra.0 <= ra.1 <= a@.len(),
        rb.0 <= rb.1 <= b@.len(),
    ensures
        r == (a@.subrange(ra.0 as int, ra.1 as int) == b@.subrange(rb.0 as int, rb.1 as int)),
{
    let ghost x = a@.subrange(ra.0 as int, ra.1 as int);
    let ghost y = b@.subrange(rb.0 as int, rb.1 as int);
    if ra.1 - ra.0 != rb.1 - rb.0 {
        assert(x.len() != y.len());
        return false;
    }
    let mut i: usize = 0;
    while i < ra.1 - ra.0
        invariant
            ra.0 <= ra.1 <= a@.len(),
            rb.0 <= rb.1 <= b@.len(),
            ra.1 - ra.0 == rb.1 - rb.0,
            i <= ra.1 - ra.0,
            x == a@.subrange(ra.0 as int, ra.1 as int),
            y == b@.subrange(rb.0 as int, rb.1 as int),
            forall|j: int| 0 <= j < i ==> x[j] == y[j],
        decreases ra.1 - ra.0 - i,
    {
        if a[ra.0 + i] != b[rb.0 + i] {
            assert(x[i as int] != y[i as int]);
            return false;
        }
        i += 1;
    }
    assert(x =~= y);
    true
}

/// Whether `path` lies at or below `base`, by whole components.
pub fn starts_with(path: &[u8], base: &[u8]) -> (r: bool)
    ensures
        r == within(path@, base@),
{
    let p = spans_of(path);
    let b = spans_of(base);
    proof {
        lemma_spans(path@);
        lemma_spans(base@);
        assert(ranges(p@).len() == p@.len());
        assert(ranges(b@).len() == b@.len());
    }
    if b.len() > p.len() {
        return false;
    }
    let mut i: usize = 0;
    while i < b.len()
        invariant
            i <= b@.len() <= p@.len(),
            ranges(p@) == spans(path@),
            ranges(b@) == spans(base@),
            forall|k: int|
                0 <= k < spans(path@).len() ==> 0 <= (#[trigger] spans(path@)[k]).0 < spans(path@)[k].1
                    <= path@.len(),
            forall|k: int|
                0 <= k < spans(base@).len() ==> 0 <= (#[trigger] spans(base@)[k]).0 < spans(base@)[k].1
                    <= base@.len(),
            forall|k: int| 0 <= k < i ==> components(path@)[k] == components(base@)[k],
        decreases b@.len() - i,
    {
        proof {
            assert(ranges(p@)[i as int] == spans(path@)[i as int]);
            assert(ranges(b@)[i as int] == spans(base@)[i as int]);
        }
        if !same_stretch(path, p[i], base, b[i]) {
            proof {
                assert(components(path@)[i as int] != components(base@)[i as int]);
                assert(components(path@).take(components(base@).len() as int)[i as int]
                    == components(path@)[i as int]);
            }
            return false;
        }
        assert(components(path@)[i as int] == components(base@)[i as int]);
        i += 1;
    }
    assert(components(path@).take(components(base@).len() as int) =~= components(base@));
    true
}

/// A copy of a stretch of bytes.
fn stretch(path: &[u8], from: usize, to: usize) -> (out: Vec<u8>)
    requires
        from <= to <= path@.len(),
    ensures
        out@ == path@.subrange(from as int, to as int),
{
    let mut out: Vec<u8> = Vec::new();
    let mut i: usize = from;
    while i < to
        invariant
            from <= i <= to <= path@.len(),
            out@ == path@.subrange(from as int, i as int),
        decreases to - i,
    {
        out.push(path[i]);
        assert(path@.subrange(from as int, i + 1) =~= path@.subrange(from as int, i as int).push(
            path@[i as int],
        ));
        i += 1;
    }
    out
}

/// A copy of a path.
pub fn copied(path: &[u8]) -> (out: Vec<u8>)
    ensures
        out@ == path@,
{
    let out = stretch(path, 0, path.len());
    assert(path@.subrange(0, path@.len() as int) =~= path@);
    out
}

/// What is left of `path` below `base`: the text from its first component past `base` to the
/// end of its last component.
pub open spec fn below(path: Seq<u8>, base: Seq<u8>) -> Seq<u8> {
    let n = components(base).len() as int;
    if n < spans(path).len() {
        path.subrange(spans(path)[n].0, spans(path).last().1)
    } else {
        Seq::empty()
    }
}

proof fn lemma_spans_apart_from(path: Seq<u8>, i: int, a: int, b: int)
    requires
        0 <= i,
        0 <= a < b < spans_from(path, i).len(),
    ensures
        spans_from(path, i)[a].1 <= spans_from(path, i)[b].0,
    decreases path.len() - i,
{
    lemma_spans_from(path, i);
    lemma_piece_end(path, i);
    let e = piece_end(path, i);
    if e < path.len() {
        let tail = spans_from(path, e + 1);
        let out = spans_from(path, i);
        let n = out.len() - tail.len();
        lemma_spans_from(path, e + 1);
        assert(out[b] == tail[b - n]);
        if a >= n {
            assert(out[a] == tail[a - n]);
            lemma_spans_apart_from(path, e + 1, a - n, b - n);
        }
    }
}

/// Components stand in the path one behind the other.
pub proof fn lemma_spans_apart(path: Seq<u8>, a: int, b: int)
    requires
        0 <= a < b < spans(path).len(),
    ensures
        spans(path)[a].1 <= spans(path)[b].0,
{
    lemma_spans_from(path, 1);
    if path.len() > 0 && path[0] == 0x2f {
        if a > 0 {
            lemma_spans_apart_from(path, 1, a - 1, b - 1);
        }
    } else {
        lemma_spans_apart_from(path, 0, a, b);
    }
}

/// `path` as it reads from `base`, where it lies at or below it.
pub fn strip_prefix(path: &[u8], base: &[u8]) -> (r: Option<Vec<u8>>)
    ensures
        r is Some <==> within(path@, base@),
        r is Some ==> r->0@ == below(path@, base@),
{
    if !starts_with(path, base) {
        return None;
    }
    let p = spans_of(path);
    let n = spans_of(base).len();
    proof {
        lemma_spans(path@);
        assert(ranges(p@).len() == p@.len());
        assert(n == components(base@).len());
    }
    if n < p.len() {
        proof {
            assert(ranges(p@)[n as int] == spans(path@)[n as int]);
            assert(ranges(p@).last() == spans(path@).last());
            if n < p@.len() - 1 {
                lemma_spans_apart(path@, n as int, p@.len() - 1);
            }
        }
        Some(stretch(path, p[n].0, p[p.len() - 1].1))
    } else {
        let out: Vec<u8> = Vec::new();
        assert(out@ =~= below(path@, base@));
        Some(out)
    }
}

// ---------------------------------------------------------------------------
// Reading and building paths
// ---------------------------------------------------------------------------

/// Whether a component names something, rather than being the root or a dot entry.
pub open spec fn named(c: Seq<u8>) -> bool {
    c != seq![0x2fu8] && c != seq![0x2eu8] && c != seq![0x2eu8, 0x2eu8]
}

/// The last component, where it names something.
pub open spec fn name_of(path: Seq<u8>) -> Option<Seq<u8>> {
    if components(path).len() > 0 && named(components(path).last()) {
        Some(components(path).last())
    } else {
        None
    }
}

fn is_named(path: &[u8], r: (usize, usize)) -> (b: bool)
    requires
        r.0 < r.1 <= path@.len(),
    ensures
        b == named(path@.subrange(r.0 as int, r.1 as int)),
{
    let ghost c = path@.subrange(r.0 as int, r.1 as int);
    let n = r.1 - r.0;
    assert(seq![0x2fu8].len() == 1 && seq![0x2eu8].len() == 1 && seq![0x2eu8, 0x2eu8].len() == 2);
    assert(seq![0x2fu8][0] == 0x2f && seq![0x2eu8][0] == 0x2e);
    if n == 1 {
        assert(c[0] == path@[r.0 as int]);
        if path[r.0] == 0x2f {
            assert(c =~= seq![0x2fu8]);
            false
        } else if path[r.0] == 0x2e {
            assert(c =~= seq![0x2eu8]);
            false
        } else {
            assert(c != seq![0x2fu8] && c != seq![0x2eu8]);
            true
        }
    } else if n == 2 {
        assert(c[0] == path@[r.0 as int] && c[1] == path@[r.0 + 1]);
        if path[r.0] == 0x2e && path[r.0 + 1] == 0x2e {
            assert(c =~= seq![0x2eu8, 0x2eu8]);
            false
        } else {
            assert(c[0] != seq![0x2eu8, 0x2eu8][0] || c[1] != seq![0x2eu8, 0x2eu8][1]);
            true
        }
    } else {
        true
    }
}

/// The final component of a path, unless it is the root or a dot entry.
pub fn file_name(path: &[u8]) -> (r: Option<Vec<u8>>)
    ensures
        r is Some <==> name_of(path@) is Some,
        r is Some ==> r->0@ == name_of(path@)->0,
{
    let p = spans_of(path);
    proof {
        lemma_spans(path@);
        assert(ranges(p@).len() == p@.len());
    }
    if p.len() == 0 {
        return None;
    }
    let last = p[p.len() - 1];
    proof {
        assert(ranges(p@).last() == spans(path@).last());
        assert(components(path@).last() == path@.subrange(last.0 as int, last.1 as int));
    }
    if is_named(path, last) {
        Some(stretch(path, last.0, last.1))
    } else {
        None
    }
}

/// Where the last dot of a name is, or -1.
pub open spec fn last_dot(name: Seq<u8>) -> int
    decreases name.len(),
{
    if name.len() == 0 {
        -1
    } else if name.last() == 0x2e {
        name.len() - 1
    } else {
        last_dot(name.drop_last())
    }
}

/// What follows the last dot of a file name. A dot at the very start does not count.
pub open spec fn suffix_of(path: Seq<u8>) -> Option<Seq<u8>> {
    match name_of(path) {
        Some(name) => if last_dot(name) > 0 {
            Some(name.skip(last_dot(name) + 1))
        } else {
            None
        },
        None => None,
    }
}

/// The extension of a path: what follows the last dot of its file name.
pub fn extension(path: &[u8]) -> (r: Option<Vec<u8>>)
    ensures
        r is Some <==> suffix_of(path@) is Some,
        r is Some ==> r->0@ == suffix_of(path@)->0,
{
    let name = match file_name(path) {
        Some(name) => name,
        None => return None,
    };
    let mut i: usize = name.len();
    assert(name@.take(name@.len() as int) =~= name@);
    while i > 0 && name[i - 1] != 0x2e
        invariant
            i <= name@.len(),
            last_dot(name@) == last_dot(name@.take(i as int)),
        decreases i,
    {
        assert(name@.take(i as int).drop_last() =~= name@.take(i - 1));
        i -= 1;
    }
    assert(last_dot(name@) == i - 1);
    if i > 1 {
        assert(name@.skip(i as int) =~= name@.subrange(i as int, name@.len() as int));
        Some(stretch(name.as_slice(), i, name.len()))
    } else {
        None
    }
}

/// A path without its last component: its text up to the end of the component before.
pub open spec fn above(path: Seq<u8>) -> Option<Seq<u8>> {
    let n = spans(path).len();
    if n == 0 || components(path).last() == seq![0x2fu8] {
        None
    } else if n == 1 {
        Some(Seq::empty())
    } else {
        Some(path.take(spans(path)[n - 2].1))
    }
}

/// A path without its last component. The root and the empty path have nothing above them.
pub fn parent(path: &[u8]) -> (r: Option<Vec<u8>>)
    ensures
        r is Some <==> above(path@) is Some,
        r is Some ==> r->0@ == above(path@)->0,
{
    let p = spans_of(path);
    proof {
        lemma_spans(path@);
        assert(ranges(p@).len() == p@.len());
    }
    if p.len() == 0 {
        return None;
    }
    let last = p[p.len() - 1];
    proof {
        assert(ranges(p@).last() == spans(path@).last());
        assert(components(path@).last() == path@.subrange(last.0 as int, last.1 as int));
    }
    if last.1 - last.0 == 1 && path[last.0] == 0x2f {
        assert(components(path@).last() =~= seq![0x2fu8]);
        return None;
    }
    proof {
        if components(path@).last() == seq![0x2fu8] {
            assert(seq![0x2fu8].len() == 1);
            assert(components(path@).last()[0] == path@[last.0 as int]);
        }
    }
    if p.len() == 1 {
        let out: Vec<u8> = Vec::new();
        assert(out@ =~= Seq::empty());
        Some(out)
    } else {
        let before = p[p.len() - 2];
        assert(ranges(p@)[p@.len() - 2] == spans(path@)[p@.len() - 2]);
        assert(path@.take(before.1 as int) =~= path@.subrange(0, before.1 as int));
        Some(stretch(path, 0, before.1))
    }
}

/// `rest` taken as a path below `base`. An absolute `rest` stands for itself.
pub open spec fn joined_to(base: Seq<u8>, rest: Seq<u8>) -> Seq<u8> {
    if rest.len() > 0 && rest[0] == 0x2f {
        rest
    } else if base.len() == 0 || base.last() == 0x2f {
        base + rest
    } else {
        base.push(0x2f) + rest
    }
}

/// `rest` taken as a path below `base`.
pub fn join(base: &[u8], rest: &[u8]) -> (r: Vec<u8>)
    ensures
        r@ == joined_to(base@, rest@),
{
    if rest.len() > 0 && rest[0] == 0x2f {
        return copied(rest);
    }
    let mut r = copied(base);
    if base.len() > 0 && base[base.len() - 1] != 0x2f {
        r.push(0x2f);
    }
    let mut tail = copied(rest);
    r.append(&mut tail);
    r
}

proof fn lemma_piece_end_below(dir: Seq<u8>, rest: Seq<u8>, i: int)
    requires
        0 <= i <= dir.len(),
    ensures
        piece_end(dir.push(0x2f) + rest, i) == piece_end(dir, i),
    decreases dir.len() - i,
{
    let path = dir.push(0x2f) + rest;
    if i < dir.len() {
        assert(path[i] == dir[i]);
        if dir[i] != 0x2f {
            lemma_piece_end_below(dir, rest, i + 1);
        }
    } else {
        assert(path[i] == 0x2f);
    }
}

proof fn lemma_spans_below(dir: Seq<u8>, rest: Seq<u8>, i: int)
    requires
        0 <= i <= dir.len(),
    ensures
        spans_from(dir.push(0x2f) + rest, i) == spans_from(dir, i) + spans_from(
            dir.push(0x2f) + rest,
            dir.len() as int + 1,
        ),
    decreases dir.len() - i,
{
    let path = dir.push(0x2f) + rest;
    let tail = spans_from(path, dir.len() as int + 1);
    lemma_piece_end_below(dir, rest, i);
    lemma_piece_end(dir, i);
    let e = piece_end(dir, i);
    if i < dir.len() {
        assert(path[i] == dir[i]);
    }
    if e < dir.len() {
        lemma_spans_below(dir, rest, e + 1);
    }
    assert(spans_from(path, i) =~= spans_from(dir, i) + tail);
}

proof fn lemma_joined_spans(base: Seq<u8>, rest: Seq<u8>)
    requires
        rest.len() > 0 ==> rest[0] != 0x2f,
    ensures
        spans(joined_to(base, rest)) == spans(base) + spans_from(
            joined_to(base, rest),
            joined_to(base, rest).len() - rest.len(),
        ),
        base.len() <= joined_to(base, rest).len() - rest.len(),
        joined_to(base, rest).take(base.len() as int) == base,
        joined_to(base, rest).skip(joined_to(base, rest).len() - rest.len()) == rest,
{
    let path = joined_to(base, rest);
    let at = path.len() - rest.len();
    assert(path.take(base.len() as int) =~= base);
    assert(path.skip(at) =~= rest);
    if base.len() == 0 {
        assert(path =~= rest);
        assert(spans(path) =~= spans(base) + spans_from(path, at));
    } else {
        assert(path[0] == base[0]);
        let start: int = if base[0] == 0x2f {
            1
        } else {
            0
        };
        if base.last() == 0x2f {
            let dir = base.drop_last();
            assert(dir.push(0x2f) + rest =~= path);
            assert(dir.push(0x2f) + Seq::empty() =~= base);
            if start <= dir.len() {
                lemma_spans_below(dir, rest, start);
                lemma_spans_below(dir, Seq::empty(), start);
            }
        } else {
            assert(path == base.push(0x2f) + rest);
            lemma_spans_below(base, rest, start);
        }
        assert(spans(path) =~= spans(base) + spans_from(path, at));
    }
}

/// A relative path taken below `base` opens with the components of `base`.
pub proof fn lemma_joined_lies_below(base: Seq<u8>, rest: Seq<u8>)
    requires
        rest.len() > 0 ==> rest[0] != 0x2f,
    ensures
        within(joined_to(base, rest), base),
{
    let path = joined_to(base, rest);
    let n = spans(base).len() as int;
    lemma_joined_spans(base, rest);
    lemma_spans(base);
    assert forall|k: int| 0 <= k < n implies #[trigger] components(path).take(n)[k] == components(
        base,
    )[k] by {
        let r = spans(base)[k];
        assert(spans(path)[k] == r);
        assert(path.take(base.len() as int).subrange(r.0, r.1) =~= path.subrange(r.0, r.1));
    }
    assert(components(path).take(n) =~= components(base));
}

/// Whether this can be the name of an entry in a folder: it is not empty, holds no separator,
/// and does not stand for the folder itself.
pub open spec fn plain_name(name: Seq<u8>) -> bool {
    name.len() > 0 && !name.contains(0x2f) && name != seq![0x2eu8]
}

/// A name taken below `base` is one component more.
pub proof fn lemma_joined_components(base: Seq<u8>, name: Seq<u8>)
    requires
        plain_name(name),
    ensures
        components(joined_to(base, name)) == components(base).push(name),
{
    assert(name.contains(name[0]));
    let path = joined_to(base, name);
    let at = path.len() - name.len();
    let n = spans(base).len() as int;
    lemma_joined_spans(base, name);
    lemma_joined_lies_below(base, name);
    lemma_piece_end(path, at);
    let e = piece_end(path, at);
    if e < path.len() {
        assert(path.skip(at)[e - at] == 0x2f);
        assert(name.contains(0x2f));
    }
    if name.len() == 1 && path[at] == 0x2e {
        assert(name[0] == path.skip(at)[0]);
        assert(name =~= seq![0x2eu8]);
    }
    assert(spans_from(path, at) =~= seq![(at, path.len() as int)]);
    assert(path.subrange(at, path.len() as int) =~= path.skip(at));
    let out = components(path);
    assert(out.len() == n + 1);
    assert(out[n] == name);
    assert(out =~= out.take(n).push(name));
}

proof fn lemma_piece_end_cut(path: Seq<u8>, i: int, e: int)
    requires
        0 <= i <= e <= path.len(),
    ensures
        piece_end(path.take(e), i) == if piece_end(path, i) < e {
            piece_end(path, i)
        } else {
            e
        },
    decreases e - i,
{
    lemma_piece_end(path, i);
    if i < e {
        assert(path.take(e)[i] == path[i]);
        if path[i] != 0x2f {
            lemma_piece_end_cut(path, i + 1, e);
        }
    }
}

pub proof fn lemma_spans_cut(path: Seq<u8>, i: int, k: int)
    requires
        0 <= i,
        0 <= k < spans_from(path, i).len(),
    ensures
        spans_from(path.take(spans_from(path, i)[k].1), i) == spans_from(path, i).take(k + 1),
    decreases path.len() - i,
{
    let out = spans_from(path, i);
    let cut = out[k].1;
    lemma_spans_from(path, i);
    assert(i <= out[k].0 < cut <= path.len());
    lemma_piece_end(path, i);
    lemma_piece_end_cut(path, i, cut);
    let e = piece_end(path, i);
    let short = path.take(cut);
    assert(short[i] == path[i]);
    let tail: Seq<(int, int)> = if e < path.len() {
        spans_from(path, e + 1)
    } else {
        Seq::empty()
    };
    let n = out.len() - tail.len();
    if k < n {
        assert(out[0] == (i, e));
        assert(spans_from(short, i) =~= out.take(1));
    } else {
        assert(out[k] == tail[k - n]);
        lemma_spans_from(path, e + 1);
        lemma_spans_cut(path, e + 1, k - n);
        assert(spans_from(short, e + 1) == tail.take(k - n + 1));
        assert(spans_from(short, i) =~= out.take(k + 1));
    }
}

/// A path cut off behind one of its components has the components up to there.
pub proof fn lemma_components_cut(path: Seq<u8>, k: int)
    requires
        0 <= k < spans(path).len(),
    ensures
        components(path.take(spans(path)[k].1)) == components(path).take(k + 1),
{
    let cut = spans(path)[k].1;
    let short = path.take(cut);
    lemma_spans(path);
    assert(0 <= spans(path)[k].0 < cut <= path.len());
    assert(short[0] == path[0]);
    if path[0] == 0x2f {
        if k > 0 {
            assert(spans(path)[k] == spans_from(path, 1)[k - 1]);
            lemma_spans_cut(path, 1, k - 1);
        }
        assert(spans(short) =~= spans(path).take(k + 1));
    } else {
        lemma_spans_cut(path, 0, k);
    }
    lemma_spans(short);
    assert forall|j: int| 0 <= j < k + 1 implies #[trigger] components(short)[j] == components(path).take(
        k + 1,
    )[j] by {
        assert(spans(short)[j] == spans(path).take(k + 1)[j]);
        let r = spans(short)[j];
        assert(short.subrange(r.0, r.1) =~= path.subrange(r.0, r.1));
    }
    assert(components(short) =~= components(path).take(k + 1));
}

/// Whether a path lies directly in a folder: what is above it is the folder, spelled one way
/// or another.
pub open spec fn directly_in(path: Seq<u8>, dir: Seq<u8>) -> bool {
    above(path) is Some && components(above(path)->0) == components(dir)
}

/// A name taken below a folder lies directly in that folder, and in no other.
pub proof fn lemma_joined_above(base: Seq<u8>, name: Seq<u8>, dir: Seq<u8>)
    requires
        plain_name(name),
    ensures
        directly_in(joined_to(base, name), dir) <==> components(dir) == components(base),
{
    let path = joined_to(base, name);
    let n = spans(path).len() as int;
    lemma_joined_components(base, name);
    assert(components(path).len() == n);
    assert(components(path).last() == name);
    if name == seq![0x2fu8] {
        assert(name[0] == 0x2f);
        assert(name.contains(0x2f));
    }
    assert(above(path) is Some);
    if n == 1 {
        assert(components(Seq::<u8>::empty()) =~= Seq::empty());
        assert(components(base) =~= Seq::empty());
    } else {
        lemma_components_cut(path, n - 2);
        assert(components(path).take(n - 1) =~= components(base));
    }
}

/// What lies below a path below `base` lies below `base`.
pub proof fn lemma_within_chain(path: Seq<u8>, middle: Seq<u8>, base: Seq<u8>)
    requires
        within(path, middle),
        within(middle, base),
    ensures
        within(path, base),
{
    let n = components(base).len() as int;
    let m = components(middle).len() as int;
    assert(components(path).take(m).take(n) =~= components(path).take(n));
}

/// A path without the separators at its start.
pub open spec fn relative(path: Seq<u8>) -> Seq<u8>
    decreases path.len(),
{
    if path.len() > 0 && path[0] == 0x2f {
        relative(path.skip(1))
    } else {
        path
    }
}

/// A path without the separators at its start.
pub fn without_root(path: &[u8]) -> (r: Vec<u8>)
    ensures
        r@ == relative(path@),
{
    let mut i: usize = 0;
    assert(path@.skip(0) =~= path@);
    while i < path.len() && path[i] == 0x2f
        invariant
            i <= path@.len(),
            relative(path@) == relative(path@.skip(i as int)),
        decreases path@.len() - i,
    {
        assert(path@.skip(i as int).skip(1) =~= path@.skip(i + 1));
        i += 1;
    }
    assert(path@.subrange(i as int, path@.len() as int) =~= path@.skip(i as int));
    stretch(path, i, path.len())
}

/// What is left without the separators at the start does not start with one.
pub proof fn lemma_relative(path: Seq<u8>)
    ensures
        relative(path).len() > 0 ==> relative(path)[0] != 0x2f,
    decreases path.len(),
{
    if path.len() > 0 && path[0] == 0x2f {
        lemma_relative(path.skip(1));
    }
}

// ---------------------------------------------------------------------------
// Order
// ---------------------------------------------------------------------------

/// Bytes in the order of their values.
pub open spec fn byte_order() -> spec_fn(u8, u8) -> bool {
    |x: u8, y: u8| x < y
}

/// The root comes first, then the dot entries, then everything with a name.
pub open spec fn rank(c: Seq<u8>) -> int {
    if c == seq![0x2fu8] {
        0
    } else if c == seq![0x2eu8] {
        1
    } else if c == seq![0x2eu8, 0x2eu8] {
        2
    } else {
        3
    }
}

/// Components by rank, and names by their bytes.
pub open spec fn component_order() -> spec_fn(Seq<u8>, Seq<u8>) -> bool {
    |x: Seq<u8>, y: Seq<u8>|
        rank(x) < rank(y) || (rank(x) == 3 && rank(y) == 3 && lex(x, y, byte_order()))
}

/// Paths by their components.
pub open spec fn path_order() -> spec_fn(Seq<u8>, Seq<u8>) -> bool {
    |x: Seq<u8>, y: Seq<u8>| lex(components(x), components(y), component_order())
}

proof fn lemma_component_order()
    ensures
        total(component_order()),
{
    let less = component_order();
    assert(total(byte_order()));
    assert forall|x: Seq<u8>| !#[trigger] less(x, x) by {
        lemma_lex_self(x, byte_order());
    }
    assert forall|x: Seq<u8>, y: Seq<u8>| #![trigger less(x, y)] x != y implies less(x, y) || less(
        y,
        x,
    ) by {
        if rank(x) == 3 && rank(y) == 3 {
            lemma_lex_either(x, y, byte_order());
        }
    }
    assert forall|x: Seq<u8>, y: Seq<u8>, z: Seq<u8>|
        #![trigger less(x, y), less(y, z)]
        less(x, y) && less(y, z) implies less(x, z) by {
        if rank(x) == 3 && rank(z) == 3 {
            lemma_lex_chain(x, y, z, byte_order());
        }
    }
}

/// Path order puts paths in ranks: those with the same components share one.
pub proof fn lemma_path_order()
    ensures
        ranking(path_order()),
{
    let less = path_order();
    lemma_component_order();
    assert forall|x: Seq<u8>| !#[trigger] less(x, x) by {
        lemma_lex_self(components(x), component_order());
    }
    assert forall|x: Seq<u8>, y: Seq<u8>| #![trigger less(x, y)] less(x, y) implies !less(y, x) by {
        if less(y, x) {
            lemma_lex_chain(components(x), components(y), components(x), component_order());
            lemma_lex_self(components(x), component_order());
        }
    }
    assert forall|x: Seq<u8>, y: Seq<u8>, z: Seq<u8>|
        #![trigger less(x, y), less(y, z)]
        #![trigger less(x, y), less(x, z)]
        #![trigger less(y, z), less(x, z)]
        less(x, z) implies less(x, y) || less(y, z) by {
        if !less(x, y) && components(x) != components(y) {
            lemma_lex_either(components(x), components(y), component_order());
            lemma_lex_chain(components(y), components(x), components(z), component_order());
        }
    }
}

fn rank_of(path: &[u8], r: (usize, usize)) -> (k: u8)
    requires
        r.0 < r.1 <= path@.len(),
    ensures
        k == rank(path@.subrange(r.0 as int, r.1 as int)),
{
    if is_named(path, r) {
        return 3;
    }
    let ghost c = path@.subrange(r.0 as int, r.1 as int);
    assert(c[0] == path@[r.0 as int]);
    assert(seq![0x2fu8][0] == 0x2f && seq![0x2eu8][0] == 0x2e && seq![0x2eu8, 0x2eu8][0] == 0x2e);
    assert(seq![0x2eu8].len() == 1 && seq![0x2eu8, 0x2eu8].len() == 2 && seq![0x2fu8].len() == 1);
    if path[r.0] == 0x2f {
        0
    } else if r.1 - r.0 == 1 {
        1
    } else {
        2
    }
}

fn bytes_before(a: &[u8], ra: (usize, usize), b: &[u8], rb: (usize, usize)) -> (r: bool)
    requires
        ra.0 <= ra.1 <= a@.len(),
        rb.0 <= rb.1 <= b@.len(),
    ensures
        r == lex(
            a@.subrange(ra.0 as int, ra.1 as int),
            b@.subrange(rb.0 as int, rb.1 as int),
            byte_order(),
        ),
{
    let ghost x = a@.subrange(ra.0 as int, ra.1 as int);
    let ghost y = b@.subrange(rb.0 as int, rb.1 as int);
    let mut i: usize = 0;
    assert(x.skip(0) =~= x);
    assert(y.skip(0) =~= y);
    while i < ra.1 - ra.0 && i < rb.1 - rb.0
        invariant
            ra.0 <= ra.1 <= a@.len(),
            rb.0 <= rb.1 <= b@.len(),
            i <= ra.1 - ra.0,
            i <= rb.1 - rb.0,
            x == a@.subrange(ra.0 as int, ra.1 as int),
            y == b@.subrange(rb.0 as int, rb.1 as int),
            lex(x, y, byte_order()) == lex(x.skip(i as int), y.skip(i as int), byte_order()),
        decreases ra.1 - ra.0 - i,
    {
        assert(x.skip(i as int)[0] == a@[ra.0 + i]);
        assert(y.skip(i as int)[0] == b@[rb.0 + i]);
        if a[ra.0 + i] != b[rb.0 + i] {
            return a[ra.0 + i] < b[rb.0 + i];
        }
        assert(x.skip(i as int).skip(1) =~= x.skip(i + 1));
        assert(y.skip(i as int).skip(1) =~= y.skip(i + 1));
        i += 1;
    }
    i < rb.1 - rb.0
}

/// Whether one path comes before another.
pub fn path_before(a: &[u8], b: &[u8]) -> (r: bool)
    ensures
        r == path_order()(a@, b@),
{
    let p = spans_of(a);
    let q = spans_of(b);
    let ghost x = components(a@);
    let ghost y = components(b@);
    proof {
        lemma_spans(a@);
        lemma_spans(b@);
        assert(ranges(p@).len() == p@.len());
        assert(ranges(q@).len() == q@.len());
        assert(x.skip(0) =~= x);
        assert(y.skip(0) =~= y);
    }
    let mut i: usize = 0;
    while i < p.len() && i < q.len()
        invariant
            i <= p@.len() == x.len(),
            i <= q@.len() == y.len(),
            x == components(a@),
            y == components(b@),
            ranges(p@) == spans(a@),
            ranges(q@) == spans(b@),
            forall|k: int|
                0 <= k < spans(a@).len() ==> 0 <= (#[trigger] spans(a@)[k]).0 < spans(a@)[k].1
                    <= a@.len(),
            forall|k: int|
                0 <= k < spans(b@).len() ==> 0 <= (#[trigger] spans(b@)[k]).0 < spans(b@)[k].1
                    <= b@.len(),
            lex(x, y, component_order()) == lex(x.skip(i as int), y.skip(i as int), component_order()),
        decreases p@.len() - i,
    {
        proof {
            assert(ranges(p@)[i as int] == spans(a@)[i as int]);
            assert(ranges(q@)[i as int] == spans(b@)[i as int]);
            assert(x.skip(i as int)[0] == x[i as int]);
            assert(y.skip(i as int)[0] == y[i as int]);
        }
        if !same_stretch(a, p[i], b, q[i]) {
            let ra = rank_of(a, p[i]);
            let rb = rank_of(b, q[i]);
            return ra < rb || (ra == 3 && rb == 3 && bytes_before(a, p[i], b, q[i]));
        }
        assert(x.skip(i as int).skip(1) =~= x.skip(i + 1));
        assert(y.skip(i as int).skip(1) =~= y.skip(i + 1));
        i += 1;
    }
    i < q.len()
}

/// The bytes of each path of a list.
pub open spec fn path_views(list: Seq<Vec<u8>>) -> Seq<Seq<u8>> {
    list.map_values(|p: Vec<u8>| p@)
}

/// Puts paths in order, those with the same components staying as they came.
pub fn sort_paths(list: Vec<Vec<u8>>) -> (out: Vec<Vec<u8>>)
    ensures
        path_views(out@) == sorted(path_views(list@), path_order()),
{
    let ghost all = path_views(list@);
    let mut out: Vec<Vec<u8>> = Vec::new();
    let mut i: usize = 0;
    proof {
        lemma_path_order();
        assert(path_views(out@) =~= sorted(all.take(0), path_order()));
    }
    while i < list.len()
        invariant
            i <= list@.len(),
            all == path_views(list@),
            ranking(path_order()),
            path_views(out@) == sorted(all.take(i as int), path_order()),
        decreases list@.len() - i,
    {
        let x = copied(list[i].as_slice());
        let ghost have = path_views(out@);
        let ghost less = path_order();
        proof {
            lemma_sorted_ascending(all.take(i as int), path_order());
            assert(all.take(i + 1).drop_last() =~= all.take(i as int));
            assert(all.take(i + 1).last() == x@);
        }
        let mut lo: usize = 0;
        let mut hi: usize = out.len();
        while lo < hi
            invariant
                lo <= hi <= out@.len(),
                have == path_views(out@),
                less == path_order(),
                ranking(less),
                ascending(have, less),
                forall|j: int| 0 <= j < lo ==> !less(x@, #[trigger] have[j]),
                forall|j: int| hi <= j < have.len() ==> less(x@, #[trigger] have[j]),
            decreases hi - lo,
        {
            let mid = lo + (hi - lo) / 2;
            assert(have[mid as int] == out@[mid as int]@);
            if path_before(x.as_slice(), out[mid].as_slice()) {
                assert forall|j: int| mid <= j < have.len() implies less(x@, #[trigger] have[j]) by {
                    if j > mid {
                        assert(!less(have[j], have[mid as int]));
                        assert(less(x@, have[mid as int]));
                    }
                }
                hi = mid;
            } else {
                assert forall|j: int| 0 <= j < mid + 1 implies !less(x@, #[trigger] have[j]) by {
                    if j < mid {
                        assert(!less(have[mid as int], have[j]));
                        assert(!less(x@, have[mid as int]));
                    }
                }
                lo = mid + 1;
            }
        }
        proof {
            lemma_place_is(have, x@, less, lo as int);
        }
        out.insert(lo, x);
        assert(path_views(out@) =~= have.insert(lo as int, x@));
        i += 1;
    }
    assert(all.take(list@.len() as int) =~= all);
    out
}

} // verus!
