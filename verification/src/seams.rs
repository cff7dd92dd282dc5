//! What chunking promises of the text itself: nothing is lost, nothing is made up, and cuts
//! only happen at the seams.

use vstd::prelude::*;
#[allow(unused_imports)]
use vstd::utf8::encode_utf8;

#[allow(unused_imports)]
use crate::chunking::{
    blocks, chunks, gap, holds, law_line_kept_whole, law_paragraph_kept_whole,
    lemma_holds_through, lemma_not_blank, lemma_paragraph_visible, line_end, line_text, lines,
    long_pieces, next_gap, oversized, pack, pack_lines, paragraphs, present, stands_at,
    total_bytes, trim_all, visible, without_return,
};
#[allow(unused_imports)]
use crate::text::{blank, byte_len, is_space, join, law_trim_takes_only_whitespace, trim};

verus! {

// ---------------------------------------------------------------------------
// Paragraphs
// ---------------------------------------------------------------------------

/// Whether there is a pair of newlines at this place of a text.
pub open spec fn pair_at(s: Seq<char>, g: int) -> bool {
    s[g] == '\n' && s[g + 1] == '\n'
}

/// Whether there is a pair of newlines between two places of a text.
pub open spec fn separated(s: Seq<char>, from: int, to: int) -> bool {
    exists|g: int| from <= g && g + 2 <= to && #[trigger] pair_at(s, g)
}

/// Whether a text is without a pair of newlines.
pub open spec fn unseparated(p: Seq<char>) -> bool {
    forall|i: int, j: int|
        #![trigger p[i], p[j]]
        0 <= i < j < p.len() && j == i + 1 ==> !(p[i] == '\n' && p[j] == '\n')
}

/// Whether these parts stand in the text at these places.
pub open spec fn in_place(s: Seq<char>, parts: Seq<Seq<char>>, at: Seq<int>) -> bool {
    &&& at.len() == parts.len()
    &&& forall|k: int|
        0 <= k < parts.len() ==> 0 <= #[trigger] at[k] && at[k] + parts[k].len() <= s.len() && s.subrange(
            at[k],
            at[k] + parts[k].len(),
        ) == parts[k]
}

/// Whether each of these parts holds something, is trimmed, and is without a pair of newlines.
pub open spec fn compact(parts: Seq<Seq<char>>) -> bool {
    forall|k: int|
        0 <= k < parts.len() ==> (#[trigger] parts[k]).len() > 0 && !is_space(parts[k][0]) && !is_space(
            parts[k].last(),
        ) && unseparated(parts[k])
}

/// Whether there is a pair of newlines between each two of these parts.
pub open spec fn all_separated(s: Seq<char>, parts: Seq<Seq<char>>, at: Seq<int>) -> bool {
    forall|k: int, l: int|
        #![trigger at[k], at[l]]
        0 <= k < l < parts.len() ==> separated(s, at[k] + parts[k].len(), at[l])
}

/// Whether this place lies in one of these parts.
pub open spec fn covered(parts: Seq<Seq<char>>, at: Seq<int>, i: int) -> bool {
    exists|k: int| 0 <= k < parts.len() && #[trigger] at[k] <= i < at[k] + parts[k].len()
}

/// Whether there is nothing but whitespace outside of these parts.
pub open spec fn all_covered(s: Seq<char>, parts: Seq<Seq<char>>, at: Seq<int>) -> bool {
    forall|i: int| 0 <= i < s.len() && !is_space(#[trigger] s[i]) ==> covered(parts, at, i)
}

/// Whether these parts are all of the text, at these places.
spec fn laid_out(s: Seq<char>, parts: Seq<Seq<char>>, at: Seq<int>) -> bool {
    in_place(s, parts, at) && compact(parts) && all_separated(s, parts, at) && all_covered(s, parts, at)
}

proof fn lemma_next_gap(s: Seq<char>, i: int)
    requires
        0 <= i <= s.len(),
    ensures
        i <= next_gap(s, i) <= s.len(),
        forall|k: int, l: int|
            #![trigger s[k], s[l]]
            i <= k < next_gap(s, i) && l == k + 1 && l < s.len() ==> !(s[k] == '\n' && s[l] == '\n'),
        next_gap(s, i) + 2 <= s.len() ==> s[next_gap(s, i)] == '\n' && s[next_gap(s, i) + 1] == '\n',
        next_gap(s, i) + 2 > s.len() ==> next_gap(s, i) == s.len(),
    decreases s.len() - i,
{
    if i + 1 < s.len() && !(s[i] == '\n' && s[i + 1] == '\n') {
        lemma_next_gap(s, i + 1);
    }
}

/// One block, trimmed, or nothing where it is blank.
spec fn one(block: Seq<char>) -> Seq<Seq<char>> {
    if trim(block).len() > 0 {
        seq![trim(block)]
    } else {
        Seq::empty()
    }
}

proof fn lemma_paragraphs_step(block: Seq<char>, rest: Seq<Seq<char>>)
    ensures
        present(trim_all(seq![block] + rest)) == one(block) + present(trim_all(rest)),
{
    let kept = |p: Seq<char>| p.len() > 0;
    assert(trim_all(seq![block] + rest) =~= seq![trim(block)] + trim_all(rest));
    Seq::filter_distributes_over_add(seq![trim(block)], trim_all(rest), kept);
    assert(present(seq![trim(block)] + trim_all(rest)) == (seq![trim(block)] + trim_all(rest)).filter(
        kept,
    ));
    assert(present(trim_all(rest)) == trim_all(rest).filter(kept));
    assert(seq![trim(block)].filter(kept) =~= one(block)) by {
        reveal(Seq::filter);
        assert(seq![trim(block)].drop_last() =~= Seq::empty());
        assert(seq![trim(block)].drop_last().filter(kept) =~= Seq::empty());
    }
}

proof fn lemma_one_laid_out(s: Seq<char>) -> (at: Seq<int>)
    requires
        next_gap(s, 0) + 2 > s.len(),
    ensures
        laid_out(s, one(s), at),
{
    lemma_next_gap(s, 0);
    let r = law_trim_takes_only_whitespace(s);
    let at = if r.0 < r.1 {
        seq![r.0]
    } else {
        Seq::empty()
    };
    let parts = one(s);
    if r.0 < r.1 {
        assert(parts[0] == s.subrange(r.0, r.1));
        assert forall|i: int| 0 <= i < s.len() && !is_space(#[trigger] s[i]) implies covered(
            parts,
            at,
            i,
        ) by {
            assert(at[0] <= i < at[0] + parts[0].len());
        }
        let p = parts[0];
        assert forall|i: int, j: int|
            #![trigger p[i], p[j]]
            0 <= i < j < p.len() && j == i + 1 implies !(p[i] == '\n' && p[j] == '\n') by {
            assert(p[i] == s[r.0 + i]);
            assert(p[j] == s[r.0 + j]);
        }
    }
    at
}

proof fn lemma_laid_out(s: Seq<char>) -> (at: Seq<int>)
    ensures
        laid_out(s, paragraphs(s), at),
    decreases s.len(),
{
    let j = next_gap(s, 0);
    lemma_next_gap(s, 0);
    if j + 2 > s.len() {
        lemma_paragraphs_step(s, Seq::empty());
        assert(seq![s] + Seq::empty() =~= seq![s]);
        assert(trim_all(Seq::empty()) =~= Seq::empty());
        assert(present(Seq::empty()) =~= Seq::empty()) by {
            reveal(Seq::filter);
        }
        assert(one(s) + Seq::empty() =~= one(s));
        assert(paragraphs(s) == one(s));
        lemma_one_laid_out(s)
    } else {
        let block = s.take(j);
        let rest = s.skip(j + 2);
        lemma_paragraphs_step(block, blocks(rest));
        let front = one(block);
        let back = paragraphs(rest);
        let parts = paragraphs(s);
        assert(parts == front + back);
        let later = lemma_laid_out(rest);
        lemma_next_gap(block, 0);
        if next_gap(block, 0) + 2 <= block.len() {
            let g = next_gap(block, 0);
            assert(s[g] == '\n' && s[g + 1] == '\n');
        }
        let early = lemma_one_laid_out(block);
        lemma_laid_out_behind(s, j, front, early, back, later)
    }
}

proof fn lemma_laid_out_behind(
    s: Seq<char>,
    j: int,
    front: Seq<Seq<char>>,
    early: Seq<int>,
    back: Seq<Seq<char>>,
    later: Seq<int>,
) -> (at: Seq<int>)
    requires
        0 <= j,
        j + 2 <= s.len(),
        s[j] == '\n',
        s[j + 1] == '\n',
        laid_out(s.take(j), front, early),
        laid_out(s.skip(j + 2), back, later),
    ensures
        laid_out(s, front + back, at),
{
    let at = early + later.map_values(|x: int| x + j + 2);
    let parts = front + back;
    let n = front.len() as int;
    assert forall|k: int| 0 <= k < parts.len() implies #[trigger] parts[k] == if k < n {
        front[k]
    } else {
        back[k - n]
    } by {}
    lemma_in_place_behind(s, j, front, early, back, later);
    lemma_separated_behind(s, j, front, early, back, later);
    lemma_covered_behind(s, j, front, early, back, later);
    at
}

proof fn lemma_in_place_behind(
    s: Seq<char>,
    j: int,
    front: Seq<Seq<char>>,
    early: Seq<int>,
    back: Seq<Seq<char>>,
    later: Seq<int>,
)
    requires
        0 <= j,
        j + 2 <= s.len(),
        in_place(s.take(j), front, early),
        in_place(s.skip(j + 2), back, later),
    ensures
        in_place(s, front + back, early + later.map_values(|x: int| x + j + 2)),
{
    let block = s.take(j);
    let rest = s.skip(j + 2);
    let parts = front + back;
    let n = front.len() as int;
    let at = early + later.map_values(|x: int| x + j + 2);
    assert forall|k: int| 0 <= k < parts.len() implies 0 <= #[trigger] at[k] && at[k] + parts[k].len()
        <= s.len() && s.subrange(at[k], at[k] + parts[k].len()) == parts[k] by {
        if k < n {
            assert(at[k] == early[k] && parts[k] == front[k]);
            assert(block.subrange(early[k], early[k] + front[k].len()) =~= s.subrange(
                early[k],
                early[k] + front[k].len(),
            ));
        } else {
            assert(at[k] == later[k - n] + j + 2 && parts[k] == back[k - n]);
            assert(rest.subrange(later[k - n], later[k - n] + back[k - n].len()) =~= s.subrange(
                at[k],
                at[k] + parts[k].len(),
            ));
        }
    }
}

proof fn lemma_separated_behind(
    s: Seq<char>,
    j: int,
    front: Seq<Seq<char>>,
    early: Seq<int>,
    back: Seq<Seq<char>>,
    later: Seq<int>,
)
    requires
        0 <= j,
        j + 2 <= s.len(),
        pair_at(s, j),
        in_place(s.take(j), front, early),
        in_place(s.skip(j + 2), back, later),
        all_separated(s.take(j), front, early),
        all_separated(s.skip(j + 2), back, later),
    ensures
        all_separated(s, front + back, early + later.map_values(|x: int| x + j + 2)),
{
    let block = s.take(j);
    let rest = s.skip(j + 2);
    let parts = front + back;
    let n = front.len() as int;
    let at = early + later.map_values(|x: int| x + j + 2);
    assert forall|k: int, l: int|
        #![trigger at[k], at[l]]
        0 <= k < l < parts.len() implies separated(s, at[k] + parts[k].len(), at[l]) by {
        if l < n {
            assert(at[k] == early[k] && at[l] == early[l] && parts[k] == front[k]);
            assert(separated(block, early[k] + front[k].len(), early[l]));
            let g = choose|g: int|
                early[k] + front[k].len() <= g && g + 2 <= early[l] && #[trigger] pair_at(block, g);
            assert(pair_at(s, g));
        } else if k >= n {
            let (x, y) = (k - n, l - n);
            assert(at[k] == later[x] + j + 2 && at[l] == later[y] + j + 2 && parts[k] == back[x]);
            assert(separated(rest, later[x] + back[x].len(), later[y]));
            let g = choose|g: int|
                later[x] + back[x].len() <= g && g + 2 <= later[y] && #[trigger] pair_at(rest, g);
            assert(pair_at(s, g + j + 2));
        } else {
            assert(at[k] == early[k] && parts[k] == front[k]);
            assert(at[l] == later[l - n] + j + 2);
            assert(0 <= later[l - n]);
            assert(pair_at(s, j));
        }
    }
}

proof fn lemma_covered_behind(
    s: Seq<char>,
    j: int,
    front: Seq<Seq<char>>,
    early: Seq<int>,
    back: Seq<Seq<char>>,
    later: Seq<int>,
)
    requires
        0 <= j,
        j + 2 <= s.len(),
        pair_at(s, j),
        early.len() == front.len(),
        later.len() == back.len(),
        all_covered(s.take(j), front, early),
        all_covered(s.skip(j + 2), back, later),
    ensures
        all_covered(s, front + back, early + later.map_values(|x: int| x + j + 2)),
{
    let block = s.take(j);
    let rest = s.skip(j + 2);
    let parts = front + back;
    let n = front.len() as int;
    let at = early + later.map_values(|x: int| x + j + 2);
    assert forall|i: int| 0 <= i < s.len() && !is_space(#[trigger] s[i]) implies covered(parts, at, i) by {
        if i < j {
            assert(block[i] == s[i]);
            assert(covered(front, early, i));
            let k = choose|k: int|
                0 <= k < front.len() && #[trigger] early[k] <= i < early[k] + front[k].len();
            assert(parts[k] == front[k] && at[k] == early[k]);
        } else if i >= j + 2 {
            assert(rest[i - j - 2] == s[i]);
            assert(covered(back, later, i - j - 2));
            let k = choose|k: int|
                0 <= k < back.len() && #[trigger] later[k] <= i - j - 2 < later[k] + back[k].len();
            assert(parts[k + n] == back[k] && at[k + n] == later[k] + j + 2);
        }
    }
}

/// Nothing of a text is lost: its paragraphs are, in order and at the places `at`, all the
/// stretches between pairs of newlines that hold something, without the whitespace around
/// them; every character outside of them is whitespace.
pub proof fn law_paragraphs_are_all_of_the_text(s: Seq<char>) -> (at: Seq<int>)
    ensures
        at.len() == paragraphs(s).len(),
        forall|k: int|
            0 <= k < paragraphs(s).len() ==> 0 <= #[trigger] at[k] && at[k] + paragraphs(s)[k].len()
                <= s.len() && s.subrange(at[k], at[k] + paragraphs(s)[k].len()) == paragraphs(s)[k],
        forall|k: int|
            0 <= k < paragraphs(s).len() ==> (#[trigger] paragraphs(s)[k]).len() > 0 && !is_space(
                paragraphs(s)[k][0],
            ) && !is_space(paragraphs(s)[k].last()) && unseparated(paragraphs(s)[k]),
        forall|k: int, l: int|
            #![trigger at[k], at[l]]
            0 <= k < l < paragraphs(s).len() ==> separated(s, at[k] + paragraphs(s)[k].len(), at[l]),
        forall|i: int|
            0 <= i < s.len() && !is_space(#[trigger] s[i]) ==> covered(paragraphs(s), at, i),
{
    lemma_laid_out(s)
}

// ---------------------------------------------------------------------------
// Lines
// ---------------------------------------------------------------------------

/// Whether a line that starts at `from` ends at `e` and the next one starts at `next`: there
/// is a newline between them, with or without a carriage return before it.
pub open spec fn breaks_at(s: Seq<char>, from: int, e: int, next: int) -> bool {
    ||| next == e + 1 && next <= s.len() && s[e] == '\n' && (e > from ==> s[e - 1] != '\r')
    ||| next == e + 2 && next <= s.len() && s[e] == '\r' && s[e + 1] == '\n'
}

proof fn lemma_line_end(s: Seq<char>, i: int)
    requires
        0 <= i <= s.len(),
    ensures
        i <= line_end(s, i) <= s.len(),
        forall|k: int| i <= k < line_end(s, i) ==> #[trigger] s[k] != '\n',
        line_end(s, i) < s.len() ==> s[line_end(s, i)] == '\n',
    decreases s.len() - i,
{
    if i < s.len() && s[i] != '\n' {
        lemma_line_end(s, i + 1);
    }
}

/// The lines of a text are all of it but the line breaks: they stand in it, in order, at the
/// places `at`, hold no newline, and between each two there is exactly one line break.
pub proof fn law_lines_are_all_of_the_text(s: Seq<char>) -> (at: Seq<int>)
    ensures
        at.len() == lines(s).len(),
        lines(s).len() == 0 <==> s.len() == 0,
        at.len() > 0 ==> at[0] == 0,
        forall|k: int|
            0 <= k < lines(s).len() ==> 0 <= #[trigger] at[k] && at[k] + lines(s)[k].len() <= s.len()
                && s.subrange(at[k], at[k] + lines(s)[k].len()) == lines(s)[k],
        forall|k: int, i: int|
            #![trigger lines(s)[k][i]]
            0 <= k < lines(s).len() && 0 <= i < lines(s)[k].len() ==> lines(s)[k][i] != '\n',
        forall|k: int, l: int|
            #![trigger at[k], at[l]]
            0 <= k < l < lines(s).len() && l == k + 1 ==> breaks_at(
                s,
                at[k],
                at[k] + lines(s)[k].len(),
                at[l],
            ),
        at.len() > 0 ==> at.last() + lines(s).last().len() == s.len() || breaks_at(
            s,
            at.last(),
            at.last() + lines(s).last().len(),
            s.len() as int,
        ),
    decreases s.len(),
{
    let j = line_end(s, 0);
    lemma_line_end(s, 0);
    if j < s.len() {
        let rest = s.skip(j + 1);
        let later = law_lines_are_all_of_the_text(rest);
        let first = without_return(s.take(j));
        let all = lines(s);
        assert(all == seq![first] + lines(rest));
        let at = Seq::new(
            all.len(),
            |k: int|
                if k == 0 {
                    0
                } else {
                    later[k - 1] + j + 1
                },
        );
        assert(s.subrange(0, first.len() as int) =~= first);
        assert(breaks_at(s, 0, first.len() as int, j + 1));
        assert forall|k: int| 0 <= k < all.len() implies 0 <= #[trigger] at[k] && at[k] + all[k].len()
            <= s.len() && s.subrange(at[k], at[k] + all[k].len()) == all[k] by {
            if k > 0 {
                assert(all[k] == lines(rest)[k - 1]);
                assert(later[k - 1] + lines(rest)[k - 1].len() <= rest.len());
                assert(rest.subrange(later[k - 1], later[k - 1] + all[k].len()) =~= s.subrange(
                    at[k],
                    at[k] + all[k].len(),
                ));
            }
        }
        assert forall|k: int, i: int|
            #![trigger all[k][i]]
            0 <= k < all.len() && 0 <= i < all[k].len() implies all[k][i] != '\n' by {
            if k > 0 {
                assert(all[k] == lines(rest)[k - 1]);
                assert(lines(rest)[k - 1][i] == all[k][i]);
            } else {
                assert(all[k][i] == s[i]);
            }
        }
        assert forall|k: int, l: int|
            #![trigger at[k], at[l]]
            0 <= k < l < all.len() && l == k + 1 implies breaks_at(
            s,
            at[k],
            at[k] + all[k].len(),
            at[l],
        ) by {
            if k == 0 {
                assert(later[0] == 0);
            } else {
                assert(all[k] == lines(rest)[k - 1]);
                assert(at[l] == later[l - 1] + j + 1);
                let e = later[k - 1] + lines(rest)[k - 1].len();
                assert(breaks_at(rest, later[k - 1], e, later[l - 1]));
                assert(0 <= later[k - 1]);
                assert(rest[e] == s[e + j + 1]);
                assert(e > 0 ==> rest[e - 1] == s[e + j]);
                assert(e + 1 < rest.len() ==> rest[e + 1] == s[e + j + 2]);
            }
        }
        if later.len() > 0 {
            let e = later.last() + lines(rest).last().len();
            assert(all.last() == lines(rest).last());
            assert(at.last() == later.last() + j + 1);
            assert(later[later.len() - 1] == later.last());
            assert(0 <= later[later.len() - 1]);
            if e != rest.len() {
                assert(rest[e] == s[e + j + 1]);
                assert(e > 0 ==> rest[e - 1] == s[e + j]);
                assert(e + 1 < rest.len() ==> rest[e + 1] == s[e + j + 2]);
            }
        }
        at
    } else if s.len() > 0 {
        assert(s.subrange(0, s.len() as int) =~= s);
        assert(lines(s) == seq![s]);
        seq![0int]
    } else {
        Seq::empty()
    }
}

/// Lines set below each other are each followed by a newline, one after the other.
pub proof fn law_line_text_keeps_every_line(line: Seq<char>, a: Seq<Seq<char>>, b: Seq<Seq<char>>)
    ensures
        line_text(Seq::empty()) == Seq::<char>::empty(),
        line_text(seq![line]) == line + seq!['\n'],
        line_text(a + b) == line_text(a) + line_text(b),
    decreases b.len(),
{
    assert(seq![line].drop_last() =~= Seq::empty());
    assert(line_text(seq![line].drop_last()) =~= Seq::empty());
    assert(line_text(seq![line]) =~= line + seq!['\n']);
    if b.len() == 0 {
        assert(a + b =~= a);
        assert(line_text(a) + line_text(b) =~= line_text(a));
    } else {
        law_line_text_keeps_every_line(line, a, b.drop_last());
        assert((a + b).drop_last() =~= a + b.drop_last());
        assert((a + b).last() == b.last());
        assert(line_text(a) + line_text(b.drop_last()) + b.last().push('\n') =~= line_text(a) + (
        line_text(b.drop_last()) + b.last().push('\n')));
    }
}

// ---------------------------------------------------------------------------
// Nothing is lost
// ---------------------------------------------------------------------------

proof fn lemma_stretch_in_one_paragraph(s: Seq<char>, a: int, b: int) -> (r: (int, int))
    requires
        0 <= a < b <= s.len(),
        forall|i: int| a <= i < b ==> #[trigger] s[i] != '\n',
        !is_space(s[a]),
        !is_space(s[b - 1]),
    ensures
        0 <= r.0 < paragraphs(s).len(),
        stands_at(paragraphs(s)[r.0], s.subrange(a, b), r.1),
{
    let at = lemma_laid_out(s);
    let parts = paragraphs(s);
    assert(covered(parts, at, a) && covered(parts, at, b - 1));
    let k = choose|k: int| 0 <= k < parts.len() && #[trigger] at[k] <= a < at[k] + parts[k].len();
    let l = choose|l: int| 0 <= l < parts.len() && #[trigger] at[l] <= b - 1 < at[l] + parts[l].len();
    assert(0 <= at[k] && 0 <= at[l]);
    if k < l {
        let g = choose|g: int|
            at[k] + parts[k].len() <= g && g + 2 <= at[l] && #[trigger] pair_at(s, g);
        assert(a <= g < b);
        assert(s[g] != '\n');
    } else if l < k {
        assert(separated(s, at[l] + parts[l].len(), at[k]));
    }
    assert(k == l);
    let p = parts[k];
    assert(p == s.subrange(at[k], at[k] + p.len()));
    assert(p.subrange(a - at[k], b - at[k]) =~= s.subrange(a, b));
    (k, a - at[k])
}

proof fn lemma_line_of(s: Seq<char>, at: Seq<int>, i: int, k: int) -> (r: int)
    requires
        0 <= i < s.len(),
        at.len() == lines(s).len(),
        0 <= k < at.len(),
        at[k] <= i,
        forall|k: int, l: int|
            #![trigger at[k], at[l]]
            0 <= k < l < lines(s).len() && l == k + 1 ==> breaks_at(
                s,
                at[k],
                at[k] + lines(s)[k].len(),
                at[l],
            ),
    ensures
        k <= r < at.len(),
        at[r] <= i,
        r + 1 < at.len() ==> i < at[r + 1],
    decreases at.len() - k,
{
    if k + 1 < at.len() && at[k + 1] <= i {
        lemma_line_of(s, at, i, k + 1)
    } else {
        k
    }
}

proof fn lemma_stretch_in_one_line(s: Seq<char>, a: int, b: int) -> (r: (int, int))
    requires
        0 <= a < b <= s.len(),
        forall|i: int| a <= i < b ==> #[trigger] s[i] != '\n',
        !is_space(s[b - 1]),
    ensures
        0 <= r.0 < lines(s).len(),
        stands_at(lines(s)[r.0], s.subrange(a, b), r.1),
{
    let at = law_lines_are_all_of_the_text(s);
    let all = lines(s);
    let k = lemma_line_of(s, at, a, 0);
    let e = at[k] + all[k].len();
    assert(0 <= at[k]);
    if k + 1 < at.len() {
        assert(breaks_at(s, at[k], e, at[k + 1]));
        if b > e {
            if at[k + 1] == e + 2 {
                assert(s[e + 1] == '\n');
                if a <= e + 1 && e + 1 < b {
                    assert(s[e + 1] != '\n');
                }
                assert(b == e + 1);
                assert(is_space('\r'));
            } else {
                assert(s[e] == '\n');
                if a <= e < b {
                    assert(s[e] != '\n');
                }
            }
        }
    } else {
        assert(at.last() == at[k]);
        assert(all.last() == all[k]);
        if b > e {
            assert(breaks_at(s, at[k], e, s.len() as int));
            if s.len() == e + 2 {
                assert(s[e + 1] == '\n');
                if a <= e + 1 && e + 1 < b {
                    assert(s[e + 1] != '\n');
                }
                assert(b == e + 1);
                assert(is_space('\r'));
            } else {
                assert(s[e] == '\n');
                if a <= e < b {
                    assert(s[e] != '\n');
                }
            }
        }
    }
    assert(b <= e);
    assert(all[k] == s.subrange(at[k], e));
    assert(all[k].subrange(a - at[k], b - at[k]) =~= s.subrange(a, b));
    (k, a - at[k])
}

/// Whatever stands on one line of a text can be found: every stretch without a newline that
/// starts and ends with something other than whitespace stands unbroken in some chunk, at
/// place `r.1` of chunk `r.0`.
pub proof fn law_every_stretch_is_in_some_chunk(text: Seq<char>, a: int, b: int) -> (r: (int, int))
    requires
        0 <= a < b <= text.len(),
        forall|i: int| a <= i < b ==> #[trigger] text[i] != '\n',
        !is_space(text[a]),
        !is_space(text[b - 1]),
    ensures
        0 <= r.0 < chunks(text).len(),
        0 <= r.1 && r.1 + (b - a) <= chunks(text)[r.0].len(),
        chunks(text)[r.0].subrange(r.1, r.1 + (b - a)) == text.subrange(a, b),
{
    let part = text.subrange(a, b);
    let (i, x) = lemma_stretch_in_one_paragraph(text, a, b);
    let p = paragraphs(text)[i];
    assert(holds(p, part));
    if oversized(p) {
        assert(p.subrange(x, x + part.len()) == part);
        assert forall|j: int| x <= j < x + part.len() implies #[trigger] p[j] != '\n' by {
            assert(p.subrange(x, x + part.len())[j - x] == p[j]);
            assert(part[j - x] == text[a + j - x]);
        }
        assert(p.subrange(x, x + part.len())[part.len() - 1] == p[x + part.len() - 1]);
        assert(part[part.len() - 1] == text[b - 1]);
        let (j, y) = lemma_stretch_in_one_line(p, x, x + part.len());
        let line = lines(p)[j];
        assert(line.subrange(y, y + part.len()) == part);
        assert(line[y] == line.subrange(y, y + part.len())[0]);
        assert(part[0] == text[a]);
        law_line_kept_whole(text, i, j, y);
        assert(line.push('\n').subrange(y, y + part.len()) =~= part);
        assert(stands_at(line.push('\n'), part, y));
        assert(holds(line.push('\n'), part));
        let k = choose|k: int|
            0 <= k < chunks(text).len() && holds(#[trigger] chunks(text)[k], line.push('\n'));
        lemma_holds_through(chunks(text)[k], line.push('\n'), part);
        let z = choose|z: int| stands_at(chunks(text)[k], part, z);
        (k, z)
    } else {
        law_paragraph_kept_whole(text, i);
        let k = choose|k: int| 0 <= k < chunks(text).len() && holds(#[trigger] chunks(text)[k], p);
        lemma_holds_through(chunks(text)[k], p, part);
        let z = choose|z: int| stands_at(chunks(text)[k], part, z);
        (k, z)
    }
}

// ---------------------------------------------------------------------------
// Where the cuts are
// ---------------------------------------------------------------------------

/// A paragraph is oversized when its UTF-8 encoding takes more than twice the target, and the
/// bytes of several paragraphs add up.
pub proof fn law_sizes_are_bytes(p: Seq<char>, a: Seq<Seq<char>>, b: Seq<Seq<char>>)
    ensures
        oversized(p) <==> encode_utf8(p).len() > 2 * 1200,
        total_bytes(Seq::empty()) == 0,
        total_bytes(seq![p]) == encode_utf8(p).len(),
        total_bytes(a + b) == total_bytes(a) + total_bytes(b),
    decreases b.len(),
{
    assert(seq![p].drop_last() =~= Seq::empty());
    assert(total_bytes(seq![p].drop_last()) == 0);
    if b.len() == 0 {
        assert(a + b =~= a);
    } else {
        law_sizes_are_bytes(p, a, b.drop_last());
        assert((a + b).drop_last() =~= a + b.drop_last());
        assert((a + b).last() == b.last());
    }
}

/// Where the paragraphs of a run start that are not carried over from the run before.
pub open spec fn fresh(runs: Seq<(int, int)>, k: int) -> int {
    if k == 0 {
        runs[k].0
    } else {
        runs[k].0 + 1
    }
}

/// Whether these runs cut a list of paragraphs, each of them as soon as it reaches the target:
/// they go from the first paragraph to the last, and each one starts with the last paragraph
/// of the one before.
pub open spec fn cut_in_runs(all: Seq<Seq<char>>, runs: Seq<(int, int)>) -> bool {
    &&& runs.len() == 0 <==> all.len() == 0
    &&& runs.len() > 0 ==> runs[0].0 == 0 && runs.last().1 == all.len()
    &&& forall|k: int| 0 <= k < runs.len() ==> 0 <= (#[trigger] runs[k]).0 < runs[k].1 <= all.len()
    &&& forall|k: int, l: int|
        #![trigger runs[k], runs[l]]
        0 <= k < l < runs.len() && l == k + 1 ==> runs[l].0 == runs[k].1 - 1
    &&& forall|k: int|
        0 <= k < runs.len() - 1 ==> total_bytes(
            all.subrange((#[trigger] runs[k]).0, runs[k].1),
        ) >= 1200
    &&& forall|k: int, m: int|
        #![trigger runs[k], all.subrange(runs[k].0, m)]
        0 <= k < runs.len() && fresh(runs, k) < m && (m < runs[k].1 || (k == runs.len() - 1 && m
            == runs[k].1)) ==> total_bytes(all.subrange(runs[k].0, m)) < 1200
}

/// Whether each of these chunks is a run of whole paragraphs with an empty line in between.
pub open spec fn are_runs(all: Seq<Seq<char>>, runs: Seq<(int, int)>, list: Seq<Seq<char>>) -> bool {
    &&& list.len() == runs.len()
    &&& forall|k: int|
        0 <= k < list.len() ==> #[trigger] list[k] == join(
            all.subrange(runs[k].0, runs[k].1),
            seq!['\n', '\n'],
        )
}

/// What holds of the runs from one place on, the first of them having begun at `lo`.
spec fn runs_from(all: Seq<Seq<char>>, lo: int, fresh_lo: int, runs: Seq<(int, int)>) -> bool {
    &&& runs.len() > 0
    &&& runs[0].0 == lo
    &&& runs.last().1 == all.len()
    &&& forall|k: int| 0 <= k < runs.len() ==> 0 <= (#[trigger] runs[k]).0 < runs[k].1 <= all.len()
    &&& forall|k: int, l: int|
        #![trigger runs[k], runs[l]]
        0 <= k < l < runs.len() && l == k + 1 ==> runs[l].0 == runs[k].1 - 1
    &&& forall|k: int|
        0 <= k < runs.len() - 1 ==> total_bytes(
            all.subrange((#[trigger] runs[k]).0, runs[k].1),
        ) >= 1200
    &&& forall|k: int, m: int|
        #![trigger runs[k], all.subrange(runs[k].0, m)]
        0 <= k < runs.len() && (if k == 0 {
            fresh_lo
        } else {
            runs[k].0 + 1
        }) < m && (m < runs[k].1 || (k == runs.len() - 1 && m == runs[k].1)) ==> total_bytes(
            all.subrange(runs[k].0, m),
        ) < 1200
}

proof fn lemma_runs(all: Seq<Seq<char>>, lo: int, fresh_lo: int, i: int) -> (runs: Seq<(int, int)>)
    requires
        0 <= lo <= fresh_lo <= i <= all.len(),
        fresh_lo <= lo + 1,
        lo < all.len(),
        lo < i || fresh_lo == lo,
        forall|j: int| 0 <= j < all.len() ==> !oversized(#[trigger] all[j]),
        forall|m: int|
            fresh_lo < m <= i ==> total_bytes(#[trigger] all.subrange(lo, m)) < 1200,
    ensures
        runs_from(all, lo, fresh_lo, runs),
        are_runs(all, runs, pack(all.skip(i), all.subrange(lo, i))),
    decreases all.len() - i,
{
    let current = all.subrange(lo, i);
    let list = all.skip(i);
    assert(gap() =~= seq!['\n', '\n']);
    if i == all.len() {
        let runs = seq![(lo, i)];
        assert(pack(list, current) =~= seq![join(current, gap())]);
        runs
    } else {
        assert(list[0] == all[i]);
        assert(list.skip(1) =~= all.skip(i + 1));
        let grown = current.push(all[i]);
        assert(grown =~= all.subrange(lo, i + 1));
        if total_bytes(grown) >= 1200 {
            assert(seq![all[i]] =~= all.subrange(i, i + 1));
            let later = lemma_runs(all, i, i + 1, i + 1);
            let runs = seq![(lo, i + 1)] + later;
            let out = pack(list, current);
            let tail = pack(all.skip(i + 1), all.subrange(i, i + 1));
            assert(out == seq![join(grown, gap())] + tail);
            assert forall|k: int| 0 <= k < out.len() implies #[trigger] out[k] == join(
                all.subrange(runs[k].0, runs[k].1),
                seq!['\n', '\n'],
            ) by {
                if k > 0 {
                    assert(out[k] == tail[k - 1] && runs[k] == later[k - 1]);
                }
            }
            assert forall|k: int| 0 <= k < runs.len() implies 0 <= (#[trigger] runs[k]).0 < runs[k].1
                <= all.len() by {
                if k > 0 {
                    assert(runs[k] == later[k - 1]);
                }
            }
            assert forall|k: int, l: int|
                #![trigger runs[k], runs[l]]
                0 <= k < l < runs.len() && l == k + 1 implies runs[l].0 == runs[k].1 - 1 by {
                assert(runs[l] == later[l - 1]);
                if k > 0 {
                    assert(runs[k] == later[k - 1]);
                }
            }
            assert forall|k: int| 0 <= k < runs.len() - 1 implies total_bytes(
                all.subrange((#[trigger] runs[k]).0, runs[k].1),
            ) >= 1200 by {
                if k > 0 {
                    assert(runs[k] == later[k - 1]);
                }
            }
            assert forall|k: int, m: int|
                #![trigger runs[k], all.subrange(runs[k].0, m)]
                0 <= k < runs.len() && (if k == 0 {
                    fresh_lo
                } else {
                    runs[k].0 + 1
                }) < m && (m < runs[k].1 || (k == runs.len() - 1 && m == runs[k].1)) implies total_bytes(
                all.subrange(runs[k].0, m),
            ) < 1200 by {
                if k > 0 {
                    assert(runs[k] == later[k - 1]);
                } else {
                    assert(later.len() > 0);
                    assert(m <= i);
                    assert(all.subrange(runs[k].0, m) == all.subrange(lo, m));
                }
            }
            assert(runs.last() == later.last());
            runs
        } else {
            assert forall|m: int| fresh_lo < m <= i + 1 implies total_bytes(
                #[trigger] all.subrange(lo, m),
            ) < 1200 by {}
            lemma_runs(all, lo, fresh_lo, i + 1)
        }
    }
}

proof fn lemma_all_visible(list: Seq<Seq<char>>)
    requires
        forall|k: int| 0 <= k < list.len() ==> !blank(#[trigger] list[k]),
    ensures
        visible(list) == list,
    decreases list.len(),
{
    reveal(Seq::filter);
    if list.len() > 0 {
        assert forall|k: int| 0 <= k < list.drop_last().len() implies !blank(
            #[trigger] list.drop_last()[k],
        ) by {
            assert(list.drop_last()[k] == list[k]);
        }
        lemma_all_visible(list.drop_last());
        assert(!blank(list[list.len() - 1]));
        assert(visible(list) =~= list);
    } else {
        assert(visible(list) =~= list);
    }
}

/// Without oversized paragraphs, the chunks are runs of whole paragraphs, in order, from the
/// first paragraph to the last: each is closed as soon as it reaches the target, and its last
/// paragraph opens the next one.
pub proof fn law_chunks_are_runs_of_paragraphs(text: Seq<char>) -> (runs: Seq<(int, int)>)
    requires
        forall|i: int| 0 <= i < paragraphs(text).len() ==> !oversized(#[trigger] paragraphs(text)[i]),
    ensures
        cut_in_runs(paragraphs(text), runs),
        are_runs(paragraphs(text), runs, chunks(text)),
{
    let all = paragraphs(text);
    let packed = pack(all, Seq::empty());
    assert(all.skip(0) =~= all);
    assert(all.subrange(0, 0) =~= Seq::empty());
    if all.len() == 0 {
        assert(packed =~= Seq::empty());
        lemma_all_visible(packed);
        Seq::empty()
    } else {
        let runs = lemma_runs(all, 0, 0, 0);
        assert forall|k: int| 0 <= k < packed.len() implies !blank(#[trigger] packed[k]) by {
            let run = all.subrange(runs[k].0, runs[k].1);
            assert(0 <= runs[k].0 < runs[k].1 <= all.len());
            let p = all[runs[k].0];
            lemma_paragraph_visible(text, runs[k].0);
            assert(run[0] == p);
            lemma_join_starts(run, seq!['\n', '\n']);
            assert(packed[k].take(p.len() as int)[p.len() - 1] == p.last());
            lemma_not_blank(packed[k], p.len() - 1);
        }
        lemma_all_visible(packed);
        assert forall|k: int, m: int|
            #![trigger runs[k], all.subrange(runs[k].0, m)]
            0 <= k < runs.len() && fresh(runs, k) < m && (m < runs[k].1 || (k == runs.len() - 1 && m
                == runs[k].1)) implies total_bytes(all.subrange(runs[k].0, m)) < 1200 by {}
        runs
    }
}

proof fn lemma_join_starts(list: Seq<Seq<char>>, sep: Seq<char>)
    requires
        list.len() > 0,
    ensures
        list[0].len() <= join(list, sep).len(),
        join(list, sep).take(list[0].len() as int) == list[0],
    decreases list.len(),
{
    if list.len() > 1 {
        lemma_join_starts(list.drop_last(), sep);
        assert(list.drop_last()[0] == list[0]);
        assert(join(list, sep).take(list[0].len() as int) =~= join(list.drop_last(), sep).take(
            list[0].len() as int,
        ));
    } else {
        assert(list[0].take(list[0].len() as int) =~= list[0]);
    }
}

/// The chunks of a text are what its paragraphs pack into, without the blank ones.
pub proof fn law_only_blank_chunks_are_left_out(text: Seq<char>)
    ensures
        chunks(text) == pack(paragraphs(text), Seq::empty()).filter(|c: Seq<char>| !blank(c)),
{
}

proof fn lemma_oversized_alone(
    a: Seq<Seq<char>>,
    current: Seq<Seq<char>>,
    p: Seq<char>,
    b: Seq<Seq<char>>,
)
    requires
        oversized(p),
    ensures
        pack(a + seq![p] + b, current) == pack(a, current) + long_pieces(p) + pack(b, Seq::empty()),
    decreases a.len(),
{
    let list = a + seq![p] + b;
    if a.len() == 0 {
        assert(list[0] == p);
        assert(list.skip(1) =~= b);
    } else {
        assert(list[0] == a[0]);
        assert(list.skip(1) =~= a.skip(1) + seq![p] + b);
        let next = if oversized(a[0]) {
            Seq::empty()
        } else if total_bytes(current.push(a[0])) >= 1200 {
            seq![a[0]]
        } else {
            current.push(a[0])
        };
        lemma_oversized_alone(a.skip(1), next, p, b);
        let tail = pack(a.skip(1), next) + long_pieces(p) + pack(b, Seq::empty());
        assert(pack(list, current) =~= pack(a, current) + long_pieces(p) + pack(b, Seq::empty()));
    }
}

/// An oversized paragraph stands alone: what comes before it and what comes after it are
/// packed as if it were not there, and its own pieces stand in between.
pub proof fn law_oversized_paragraph_stands_alone(a: Seq<Seq<char>>, p: Seq<char>, b: Seq<Seq<char>>)
    requires
        oversized(p),
    ensures
        pack(a + seq![p] + b, Seq::empty()) == pack(a, Seq::empty()) + long_pieces(p) + pack(
            b,
            Seq::empty(),
        ),
{
    lemma_oversized_alone(a, Seq::empty(), p, b);
}

/// Whether these groups cut lines one after the other, none of them over the target unless it
/// is a single line, and none of them closed before the next line would take it over.
pub open spec fn cut_in_groups(all: Seq<Seq<char>>, groups: Seq<(int, int)>) -> bool {
    &&& groups.len() > 0 ==> groups[0].0 == 0 && groups.last().1 == all.len()
    &&& groups.len() == 0 <==> all.len() == 0
    &&& forall|k: int| 0 <= k < groups.len() ==> 0 <= (#[trigger] groups[k]).0 < groups[k].1 <= all.len()
    &&& forall|k: int, l: int|
        #![trigger groups[k], groups[l]]
        0 <= k < l < groups.len() && l == k + 1 ==> groups[l].0 == groups[k].1 && byte_len(
            line_text(all.subrange(groups[k].0, groups[k].1)),
        ) + byte_len(all[groups[l].0]) > 1200
    &&& forall|k: int, m: int|
        #![trigger groups[k], all.subrange(groups[k].0, m)]
        0 <= k < groups.len() && groups[k].0 < m < groups[k].1 ==> byte_len(
            line_text(all.subrange(groups[k].0, m)),
        ) + byte_len(all[m]) <= 1200
}

/// The texts of groups of lines; the last one is left out where it is blank.
pub open spec fn group_texts(all: Seq<Seq<char>>, groups: Seq<(int, int)>, list: Seq<Seq<char>>) -> bool {
    &&& list.len() == groups.len() || (list.len() == groups.len() - 1 && blank(
        line_text(all.subrange(groups.last().0, groups.last().1)),
    ))
    &&& list.len() == groups.len() && list.len() > 0 ==> !blank(list.last())
    &&& forall|k: int|
        0 <= k < list.len() ==> #[trigger] list[k] == line_text(all.subrange(groups[k].0, groups[k].1))
}

spec fn groups_from(all: Seq<Seq<char>>, lo: int, groups: Seq<(int, int)>) -> bool {
    &&& groups.len() > 0
    &&& groups[0].0 == lo
    &&& groups.last().1 == all.len()
    &&& forall|k: int| 0 <= k < groups.len() ==> 0 <= (#[trigger] groups[k]).0 < groups[k].1 <= all.len()
    &&& forall|k: int, l: int|
        #![trigger groups[k], groups[l]]
        0 <= k < l < groups.len() && l == k + 1 ==> groups[l].0 == groups[k].1 && byte_len(
            line_text(all.subrange(groups[k].0, groups[k].1)),
        ) + byte_len(all[groups[l].0]) > 1200
    &&& forall|k: int, m: int|
        #![trigger groups[k], all.subrange(groups[k].0, m)]
        0 <= k < groups.len() && groups[k].0 < m < groups[k].1 ==> byte_len(
            line_text(all.subrange(groups[k].0, m)),
        ) + byte_len(all[m]) <= 1200
}

proof fn lemma_groups(all: Seq<Seq<char>>, lo: int, i: int) -> (groups: Seq<(int, int)>)
    requires
        0 <= lo < i <= all.len(),
        forall|m: int|
            lo < m < i ==> byte_len(line_text(#[trigger] all.subrange(lo, m))) + byte_len(all[m])
                <= 1200,
    ensures
        groups_from(all, lo, groups),
        group_texts(all, groups, pack_lines(all.skip(i), line_text(all.subrange(lo, i)))),
    decreases all.len() - i,
{
    let current = line_text(all.subrange(lo, i));
    let list = all.skip(i);
    assert(all.subrange(lo, i).drop_last() =~= all.subrange(lo, i - 1));
    assert(all.subrange(lo, i).last() == all[i - 1]);
    assert(current.len() > 0);
    if i == all.len() {
        let groups = seq![(lo, i)];
        let out = pack_lines(list, current);
        assert(group_texts(all, groups, out));
        groups
    } else {
        assert(list[0] == all[i]);
        assert(list.skip(1) =~= all.skip(i + 1));
        assert(all.subrange(lo, i + 1).drop_last() =~= all.subrange(lo, i));
        assert(all.subrange(lo, i + 1).last() == all[i]);
        if byte_len(current) + byte_len(all[i]) > 1200 {
            assert(all.subrange(i, i + 1).drop_last() =~= Seq::empty());
            assert(line_text(all.subrange(i, i + 1).drop_last()) =~= Seq::empty());
            assert(line_text(all.subrange(i, i + 1)) =~= all[i].push('\n'));
            let later = lemma_groups(all, i, i + 1);
            let groups = seq![(lo, i)] + later;
            let tail = pack_lines(all.skip(i + 1), all[i].push('\n'));
            let out = pack_lines(list, current);
            assert(out == seq![current] + tail);
            assert(groups.last() == later.last());
            assert forall|k: int| 0 <= k < out.len() implies #[trigger] out[k] == line_text(
                all.subrange(groups[k].0, groups[k].1),
            ) by {
                if k > 0 {
                    assert(out[k] == tail[k - 1] && groups[k] == later[k - 1]);
                }
            }
            assert(tail.len() > 0 ==> out.last() == tail.last());
            assert(group_texts(all, groups, out));
            assert forall|k: int| 0 <= k < groups.len() implies 0 <= (#[trigger] groups[k]).0
                < groups[k].1 <= all.len() by {
                if k > 0 {
                    assert(groups[k] == later[k - 1]);
                }
            }
            assert forall|k: int, l: int|
                #![trigger groups[k], groups[l]]
                0 <= k < l < groups.len() && l == k + 1 implies groups[l].0 == groups[k].1 && byte_len(
                line_text(all.subrange(groups[k].0, groups[k].1)),
            ) + byte_len(all[groups[l].0]) > 1200 by {
                assert(groups[l] == later[l - 1]);
                if k > 0 {
                    assert(groups[k] == later[k - 1]);
                }
            }
            assert forall|k: int, m: int|
                #![trigger groups[k], all.subrange(groups[k].0, m)]
                0 <= k < groups.len() && groups[k].0 < m < groups[k].1 implies byte_len(
                line_text(all.subrange(groups[k].0, m)),
            ) + byte_len(all[m]) <= 1200 by {
                if k > 0 {
                    assert(groups[k] == later[k - 1]);
                } else {
                    assert(all.subrange(groups[k].0, m) == all.subrange(lo, m));
                }
            }
            groups
        } else {
            assert(current + all[i].push('\n') == line_text(all.subrange(lo, i + 1)));
            lemma_groups(all, lo, i + 1)
        }
    }
}

/// The pieces of an oversized paragraph are groups of whole lines, in order, from the first
/// line to the last; a group ends only where the next line would take it over the target. A
/// blank group at the end is left out.
pub proof fn law_pieces_are_groups_of_lines(block: Seq<char>) -> (groups: Seq<(int, int)>)
    ensures
        cut_in_groups(lines(block), groups),
        group_texts(lines(block), groups, long_pieces(block)),
{
    let all = lines(block);
    if all.len() == 0 {
        assert(long_pieces(block) =~= Seq::empty()) by {
            crate::text::law_blank_is_nothing_but_whitespace(Seq::empty());
        }
        Seq::empty()
    } else {
        assert(all.subrange(0, 1).drop_last() =~= Seq::empty());
        assert(line_text(all.subrange(0, 1).drop_last()) =~= Seq::empty());
        assert(line_text(all.subrange(0, 1)) =~= all[0].push('\n'));
        assert(Seq::<char>::empty() + all[0].push('\n') =~= all[0].push('\n'));
        assert(all.skip(0) =~= all);
        lemma_groups(all, 0, 1)
    }
}

} // verus!
