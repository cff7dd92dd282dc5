//! The "know your stuff" layer: what has been read, and which parts of it bear on a question.
//!
//! Embedding a text and taking the dot product of two embeddings is the caller's part. It
//! hands over one similarity score per chunk; ranking, cutting off and citing happen here.

use vstd::prelude::*;
#[allow(unused_imports)]
use vstd::string::*;

#[allow(unused_imports)]
use crate::governance::{floor, has_evidence};
use crate::governance::evidence_floor;
#[allow(unused_imports)]
use crate::order::{
    lemma_lex_chain, lemma_lex_either, lemma_lex_self, lemma_place, lemma_place_is, lemma_sorted_same,
    place, placed, sorted, total,
};
use crate::single::Single;
#[allow(unused_imports)]
use crate::text::{char_order, text_less, views};
use crate::text::{owned, same, text_before};

verus! {

/// The embedding model.
pub const EMBED_MODEL: &'static str = "nomic-embed-text";

/// How many excerpts to feed the model per question.
pub const TOP_K: usize = 5;

/// One piece of one file, plus its meaning-vector.
#[derive(Debug, Clone)]
pub struct Chunk {
    /// Where this text came from, for citations.
    pub source: String,
    pub text: String,
    /// Scaled to length 1, so similarity is just a dot product.
    pub embedding: Vec<Single>,
}

/// Everything we know, plus where it came from.
#[derive(Debug)]
pub struct Knowledge {
    pub root: String,
    pub chunks: Vec<Chunk>,
}

impl Default for Knowledge {
    fn default() -> (k: Self)
        ensures
            k.root@ == Seq::<char>::empty(),
            k.chunks@ == Seq::<Chunk>::empty(),
    {
        Knowledge { root: String::new(), chunks: Vec::new() }
    }
}

/// What retrieval nominated for one question.
#[derive(Debug, Clone)]
pub struct Retrieval {
    /// The prompt context, if anything was admitted.
    pub context: Option<String>,
    /// (file, best score) for each cited file, for display.
    pub sources: Vec<(String, Single)>,
    /// Highest similarity seen, admitted or not. Zero when nothing is indexed.
    pub best_score: Single,
}

/// What retrieval nominated, by value.
pub struct RetrievalView {
    pub context: Option<Seq<char>>,
    pub sources: Seq<(Seq<char>, Single)>,
    pub best_score: Single,
}

/// Files and their scores, by value.
pub open spec fn citations(list: Seq<(String, Single)>) -> Seq<(Seq<char>, Single)> {
    list.map_values(|c: (String, Single)| (c.0@, c.1))
}

impl View for Retrieval {
    type V = RetrievalView;

    open spec fn view(&self) -> RetrievalView {
        RetrievalView {
            context: match self.context {
                Some(text) => Some(text@),
                None => None,
            },
            sources: citations(self.sources@),
            best_score: self.best_score,
        }
    }
}

/// Nothing at all: no context, no sources, and no similarity seen.
pub open spec fn nothing_found() -> RetrievalView {
    RetrievalView { context: None, sources: Seq::empty(), best_score: Single::zero_value() }
}

impl Retrieval {
    /// Nothing indexed at all -- distinct from "indexed, but nothing matched".
    pub fn nothing() -> (r: Self)
        ensures
            r@ == nothing_found(),
    {
        let r = Retrieval { context: None, sources: Vec::new(), best_score: Single::zero() };
        assert(citations(r.sources@) =~= Seq::empty());
        r
    }
}

// ---------------------------------------------------------------------------
// Ranking
// ---------------------------------------------------------------------------

/// Each chunk's position with its score.
pub open spec fn scored(scores: Seq<Single>) -> Seq<(int, Single)> {
    Seq::new(scores.len(), |i: int| (i, scores[i]))
}

/// The higher score first.
pub open spec fn best_first() -> spec_fn((int, Single), (int, Single)) -> bool {
    |x: (int, Single), y: (int, Single)| y.1.below(x.1)
}

/// The first `k` entries of a list, or all of them.
pub open spec fn first<T>(list: Seq<T>, k: int) -> Seq<T> {
    if k < list.len() {
        list.take(k)
    } else {
        list
    }
}

/// The best `top_k` positions with their scores, best first; equal scores in chunk order.
pub open spec fn ranked(scores: Seq<Single>, top_k: int) -> Seq<(int, Single)> {
    first(sorted(scored(scores), best_first()), top_k)
}

proof fn lemma_first_placed(list: Seq<(int, Single)>, x: (int, Single), k: int)
    requires
        0 <= k,
    ensures
        first(placed(first(list, k), x, best_first()), k) == first(placed(list, x, best_first()), k),
{
    let less = best_first();
    let head = first(list, k);
    lemma_place(list, x, less);
    lemma_place(head, x, less);
    let p = place(list, x, less);
    if k < list.len() {
        let q = if p < k {
            p
        } else {
            k
        };
        assert forall|i: int| 0 <= i < q implies !less(x, #[trigger] head[i]) by {
            assert(head[i] == list[i]);
        }
        if q < head.len() {
            assert(head[q] == list[q]);
        }
        lemma_place_is(head, x, less, q);
        assert(first(placed(head, x, less), k) =~= first(placed(list, x, less), k));
    }
}

/// What the ranking holds, in numbers.
pub open spec fn positions(list: Seq<(usize, Single)>) -> Seq<(int, Single)> {
    list.map_values(|h: (usize, Single)| (h.0 as int, h.1))
}

/// The best `top_k` positions with their scores.
pub fn rank(scores: &Vec<Single>, top_k: usize) -> (out: Vec<(usize, Single)>)
    ensures
        positions(out@) == ranked(scores@, top_k as int),
{
    let mut out: Vec<(usize, Single)> = Vec::new();
    let ghost all = scored(scores@);
    let ghost less = best_first();
    let mut i: usize = 0;
    proof {
        assert(all.take(0) =~= Seq::empty());
        assert(positions(out@) =~= first(sorted(all.take(0), less), top_k as int));
    }
    while i < scores.len()
        invariant
            i <= scores@.len(),
            all == scored(scores@),
            less == best_first(),
            positions(out@) == first(sorted(all.take(i as int), less), top_k as int),
        decreases scores@.len() - i,
    {
        let x = (i, scores[i]);
        let ghost px = (i as int, scores@[i as int]);
        let ghost have = positions(out@);
        let mut at: usize = 0;
        while at < out.len() && !out[at].1.less(x.1)
            invariant
                at <= out@.len(),
                have == positions(out@),
                less == best_first(),
                px == (x.0 as int, x.1),
                forall|j: int| 0 <= j < at ==> !less(px, #[trigger] have[j]),
            decreases out@.len() - at,
        {
            assert(have[at as int] == (out@[at as int].0 as int, out@[at as int].1));
            at += 1;
        }
        proof {
            if at < out@.len() {
                assert(have[at as int] == (out@[at as int].0 as int, out@[at as int].1));
            }
            lemma_place_is(have, px, less, at as int);
            lemma_first_placed(sorted(all.take(i as int), less), px, top_k as int);
            assert(all.take(i + 1).drop_last() =~= all.take(i as int));
            assert(all.take(i + 1).last() == px);
        }
        out.insert(at, x);
        assert(positions(out@) =~= placed(have, px, less));
        if out.len() > top_k {
            let ghost grown = positions(out@);
            out.truncate(top_k);
            assert(positions(out@) =~= grown.take(top_k as int));
        }
        i += 1;
    }
    assert(all.take(scores@.len() as int) =~= all);
    out
}

// ---------------------------------------------------------------------------
// Excerpts and citations
// ---------------------------------------------------------------------------

/// What the model is told before it reads the excerpts: to stay inside the evidence, and to
/// say so when the evidence doesn't cover the question.
pub open spec fn preamble() -> Seq<char> {
    "Answer the user's question using only the excerpts from their files below. If the excerpts don't contain the answer, say so plainly and do not guess. Mention which file you're drawing from when it helps.\n\n"@
}

/// One excerpt, under the name of the file it comes from.
pub open spec fn excerpt(c: Chunk) -> Seq<char> {
    "--- from "@ + c.source@ + " ---\n"@ + c.text@ + "\n\n"@
}

/// The excerpts of these hits, one after the other.
pub open spec fn excerpts(chunks: Seq<Chunk>, hits: Seq<(int, Single)>) -> Seq<char>
    decreases hits.len(),
{
    if hits.len() == 0 {
        Seq::empty()
    } else {
        excerpts(chunks, hits.drop_last()) + excerpt(chunks[hits.last().0])
    }
}

/// Where a file stands in a list of citations, or the length of the list.
pub open spec fn cited_at(list: Seq<(Seq<char>, Single)>, source: Seq<char>) -> int
    decreases list.len(),
{
    if list.len() == 0 || list[0].0 == source {
        0
    } else {
        1 + cited_at(list.skip(1), source)
    }
}

/// A list of citations with one more: a file that is already there keeps its better score.
pub open spec fn cite(
    list: Seq<(Seq<char>, Single)>,
    source: Seq<char>,
    score: Single,
) -> Seq<(Seq<char>, Single)> {
    let at = cited_at(list, source);
    if at < list.len() {
        list.update(at, (source, list[at].1.larger(score)))
    } else {
        list.push((source, score))
    }
}

/// The files these hits come from, each once, with its best score.
pub open spec fn cited(chunks: Seq<Chunk>, hits: Seq<(int, Single)>) -> Seq<(Seq<char>, Single)>
    decreases hits.len(),
{
    if hits.len() == 0 {
        Seq::empty()
    } else {
        cite(cited(chunks, hits.drop_last()), chunks[hits.last().0].source@, hits.last().1)
    }
}

/// Those hits that reach the evidence floor.
pub open spec fn above_floor(hits: Seq<(int, Single)>) -> Seq<(int, Single)> {
    hits.filter(|h: (int, Single)| h.1.reaches(floor()))
}

/// The highest number among the scores of these hits, if there is a number.
pub open spec fn highest_number(hits: Seq<(int, Single)>) -> Option<Single>
    decreases hits.len(),
{
    if hits.len() == 0 {
        None
    } else {
        let before = highest_number(hits.drop_last());
        let score = hits.last().1;
        if score.nan() {
            before
        } else {
            match before {
                Some(best) => Some(best.larger(score)),
                None => Some(score),
            }
        }
    }
}

/// The highest score of these hits, or zero where none of them is a number.
pub open spec fn highest(hits: Seq<(int, Single)>) -> Single {
    match highest_number(hits) {
        Some(best) => best,
        None => Single::zero_value(),
    }
}

/// What retrieval nominates, given the similarity of each chunk to the question.
pub open spec fn retrieval(chunks: Seq<Chunk>, scores: Seq<Single>) -> RetrievalView {
    let all = ranked(scores, TOP_K as int);
    let hits = above_floor(all);
    RetrievalView {
        context: if hits.len() == 0 {
            None
        } else {
            Some(preamble() + excerpts(chunks, hits))
        },
        sources: cited(chunks, hits),
        best_score: highest(all),
    }
}

pub proof fn lemma_cited_at(list: Seq<(Seq<char>, Single)>, source: Seq<char>)
    ensures
        0 <= cited_at(list, source) <= list.len(),
        cited_at(list, source) < list.len() ==> list[cited_at(list, source)].0 == source,
        forall|i: int| 0 <= i < cited_at(list, source) ==> (#[trigger] list[i]).0 != source,
    decreases list.len(),
{
    if list.len() > 0 && list[0].0 != source {
        let rest = list.skip(1);
        lemma_cited_at(rest, source);
        assert forall|i: int| 0 <= i < cited_at(list, source) implies (#[trigger] list[i]).0
            != source by {
            if i > 0 {
                assert(list[i] == rest[i - 1]);
            }
        }
    }
}

/// Adds one citation to a list.
fn add_citation(list: &mut Vec<(String, Single)>, source: &str, score: Single)
    ensures
        citations(final(list)@) == cite(citations(old(list)@), source@, score),
{
    let ghost had = citations(list@);
    let mut i: usize = 0;
    proof {
        lemma_cited_at(had, source@);
    }
    while i < list.len()
        invariant
            list@ == old(list)@,
            had == citations(list@),
            i <= list@.len(),
            forall|j: int| 0 <= j < i ==> (#[trigger] had[j]).0 != source@,
            0 <= cited_at(had, source@) <= had.len(),
            cited_at(had, source@) < had.len() ==> had[cited_at(had, source@)].0 == source@,
            forall|j: int| 0 <= j < cited_at(had, source@) ==> (#[trigger] had[j]).0 != source@,
        decreases list@.len() - i,
    {
        assert(had[i as int] == (list@[i as int].0@, list@[i as int].1));
        if same(list[i].0.as_str(), source) {
            assert(cited_at(had, source@) == i);
            let best = list[i].1.max(score);
            list.set(i, (owned(source), best));
            assert(citations(list@) =~= had.update(i as int, (source@, best)));
            return;
        }
        i += 1;
    }
    assert(cited_at(had, source@) == had.len());
    list.push((owned(source), score));
    assert(citations(list@) =~= had.push((source@, score)));
}

/// The sources of the chunks, in chunk order.
pub open spec fn sources_of(chunks: Seq<Chunk>) -> Seq<Seq<char>> {
    chunks.map_values(|c: Chunk| c.source@)
}

/// Whether each text comes strictly before all later ones.
pub open spec fn strictly_ascending(list: Seq<Seq<char>>) -> bool {
    forall|i: int, j: int|
        #![trigger list[i], list[j]]
        0 <= i < j < list.len() ==> text_less(list[i], list[j])
}

proof fn lemma_ascending_differ(list: Seq<Seq<char>>)
    requires
        strictly_ascending(list),
    ensures
        list.no_duplicates(),
{
    assert forall|i: int, j: int| 0 <= i < list.len() && 0 <= j < list.len() && i != j implies list[i]
        != list[j] by {
        lemma_lex_self(list[i], char_order());
        lemma_lex_self(list[j], char_order());
        if i < j {
            assert(text_less(list[i], list[j]));
        } else {
            assert(text_less(list[j], list[i]));
        }
    }
}

proof fn lemma_char_codes(x: char, y: char)
    requires
        x != y,
    ensures
        x as u32 != y as u32,
{
    assert(x as u32 as char == x);
    assert(y as u32 as char == y);
}

proof fn lemma_char_order()
    ensures
        total(char_order()),
{
    let less = char_order();
    assert forall|x: char, y: char| #![trigger less(x, y)] x != y implies less(x, y) || less(y, x) by {
        lemma_char_codes(x, y);
    }
}

/// Adds a name to an ascending list, unless it is there already.
fn add_name(list: &mut Vec<String>, name: &str)
    requires
        strictly_ascending(views(old(list)@)),
    ensures
        strictly_ascending(views(final(list)@)),
        views(final(list)@).to_set() == views(old(list)@).to_set().insert(name@),
{
    let ghost had = views(list@);
    let mut i: usize = 0;
    proof {
        lemma_char_order();
    }
    while i < list.len() && text_before(list[i].as_str(), name)
        invariant
            list@ == old(list)@,
            had == views(list@),
            i <= list@.len(),
            forall|j: int| 0 <= j < i ==> text_less(#[trigger] had[j], name@),
        decreases list@.len() - i,
    {
        assert(had[i as int] == list@[i as int]@);
        i += 1;
    }
    if i < list.len() && same(list[i].as_str(), name) {
        proof {
            assert(had[i as int] == name@);
            assert(had.to_set() =~= had.to_set().insert(name@));
        }
        return;
    }
    proof {
        let now = had.insert(i as int, name@);
        assert forall|j: int| i <= j < had.len() implies text_less(name@, #[trigger] had[j]) by {
            assert(had[i as int] == list@[i as int]@);
            lemma_lex_either(had[i as int], name@, char_order());
            if j > i {
                lemma_lex_chain(name@, had[i as int], had[j], char_order());
            }
        }
        assert forall|a: int, b: int|
            #![trigger now[a], now[b]]
            0 <= a < b < now.len() implies text_less(now[a], now[b]) by {
            let na = if a < i {
                had[a]
            } else if a == i {
                name@
            } else {
                had[a - 1]
            };
            let nb = if b < i {
                had[b]
            } else if b == i {
                name@
            } else {
                had[b - 1]
            };
            assert(now[a] == na && now[b] == nb);
        }
        assert forall|x: Seq<char>| now.to_set().contains(x) == had.to_set().insert(name@).contains(x) by {
            if had.contains(x) {
                let j = choose|j: int| 0 <= j < had.len() && had[j] == x;
                if j < i {
                    assert(now[j] == x);
                } else {
                    assert(now[j + 1] == x);
                }
            }
            if now.contains(x) {
                let j = choose|j: int| 0 <= j < now.len() && now[j] == x;
                if j < i {
                    assert(had[j] == x);
                } else if j > i {
                    assert(had[j - 1] == x);
                }
            }
            assert(now[i as int] == name@);
        }
        assert(now.to_set() =~= had.to_set().insert(name@));
    }
    list.insert(i, owned(name));
    assert(views(list@) =~= had.insert(i as int, name@));
}

/// Whether a found chunk is the one at this position, with this score.
pub open spec fn is_hit(chunks: Seq<Chunk>, hit: (int, Single), found: (&Chunk, Single)) -> bool {
    0 <= hit.0 < chunks.len() && *found.0 == chunks[hit.0] && found.1 == hit.1
}

impl Knowledge {
    /// Whether nothing is indexed.
    pub fn is_empty(&self) -> (r: bool)
        ensures
            r == (self.chunks@.len() == 0),
    {
        self.chunks.len() == 0
    }

    /// The names of the files that are represented, each once, in dictionary order.
    pub fn file_names(&self) -> (r: Vec<String>)
        ensures
            strictly_ascending(views(r@)),
            views(r@).to_set() == sources_of(self.chunks@).to_set(),
    {
        let ghost all = sources_of(self.chunks@);
        let mut r: Vec<String> = Vec::new();
        let mut i: usize = 0;
        assert(views(r@).to_set() =~= all.take(0).to_set());
        while i < self.chunks.len()
            invariant
                i <= self.chunks@.len(),
                all == sources_of(self.chunks@),
                strictly_ascending(views(r@)),
                views(r@).to_set() == all.take(i as int).to_set(),
            decreases self.chunks@.len() - i,
        {
            add_name(&mut r, self.chunks[i].source.as_str());
            proof {
                let have = all.take(i as int);
                let now = all.take(i + 1);
                assert(now =~= have.push(all[i as int]));
                assert forall|x: Seq<char>|
                    now.to_set().contains(x) == have.to_set().insert(all[i as int]).contains(x) by {
                    if have.contains(x) {
                        let j = choose|j: int| 0 <= j < have.len() && have[j] == x;
                        assert(now[j] == x);
                    }
                    assert(now[i as int] == all[i as int]);
                    if now.contains(x) && x != all[i as int] {
                        let j = choose|j: int| 0 <= j < now.len() && now[j] == x;
                        assert(have[j] == x);
                    }
                }
                assert(now.to_set() =~= have.to_set().insert(all[i as int]));
            }
            i += 1;
        }
        assert(all.take(self.chunks@.len() as int) =~= all);
        r
    }

    /// How many distinct files are represented.
    pub fn file_count(&self) -> (r: usize)
        ensures
            r == sources_of(self.chunks@).to_set().len(),
    {
        let names = self.file_names();
        proof {
            lemma_ascending_differ(views(names@));
            views(names@).unique_seq_to_set();
        }
        names.len()
    }

    /// Find the `top_k` chunks most related to a question, given the similarity of each
    /// chunk to it. Best first; chunks that score the same stay in their order.
    pub fn search(&self, scores: &Vec<Single>, top_k: usize) -> (r: Vec<(&Chunk, Single)>)
        requires
            scores@.len() == self.chunks@.len(),
        ensures
            r@.len() == ranked(scores@, top_k as int).len(),
            forall|i: int|
                #![trigger r@[i]]
                0 <= i < r@.len() ==> is_hit(self.chunks@, ranked(scores@, top_k as int)[i], r@[i]),
    {
        let hits = rank(scores, top_k);
        let mut r: Vec<(&Chunk, Single)> = Vec::new();
        let mut i: usize = 0;
        proof {
            lemma_ranked_in_range(scores@, top_k as int);
        }
        while i < hits.len()
            invariant
                i <= hits@.len(),
                r@.len() == i,
                scores@.len() == self.chunks@.len(),
                positions(hits@) == ranked(scores@, top_k as int),
                forall|j: int|
                    0 <= j < hits@.len() ==> 0 <= (#[trigger] ranked(scores@, top_k as int)[j]).0
                        < scores@.len(),
                forall|j: int|
                    #![trigger r@[j]]
                    0 <= j < i ==> is_hit(self.chunks@, ranked(scores@, top_k as int)[j], r@[j]),
            decreases hits@.len() - i,
        {
            assert(positions(hits@)[i as int] == (hits@[i as int].0 as int, hits@[i as int].1));
            r.push((&self.chunks[hits[i].0], hits[i].1));
            i += 1;
        }
        r
    }
}

pub proof fn lemma_ranked_in_range(scores: Seq<Single>, top_k: int)
    requires
        0 <= top_k,
    ensures
        forall|j: int|
            0 <= j < ranked(scores, top_k).len() ==> 0 <= (#[trigger] ranked(scores, top_k)[j]).0
                < scores.len() && ranked(scores, top_k)[j].1 == scores[ranked(scores, top_k)[j].0],
{
    let all = scored(scores);
    let s = sorted(all, best_first());
    lemma_sorted_same(all, best_first());
    broadcast use vstd::seq_lib::group_to_multiset_ensures;

    assert forall|j: int| 0 <= j < ranked(scores, top_k).len() implies 0 <= (#[trigger] ranked(
        scores,
        top_k,
    )[j]).0 < scores.len() && ranked(scores, top_k)[j].1 == scores[ranked(scores, top_k)[j].0] by {
        let hit = ranked(scores, top_k)[j];
        assert(hit == s[j]);
        assert(s.contains(hit));
        assert(s.to_multiset().count(hit) > 0);
        assert(all.contains(hit));
        let k = choose|k: int| 0 <= k < all.len() && all[k] == hit;
    }
}

impl Knowledge {
    /// Turn a question, given the similarity of each chunk to it, into grounding text for the
    /// model, plus the (file, score) pairs to show the user.
    ///
    /// Both are empty when nothing is indexed or nothing matched well enough.
    pub fn context_for(&self, scores: &Vec<Single>) -> (r: Retrieval)
        requires
            scores@.len() == self.chunks@.len(),
        ensures
            r@ == retrieval(self.chunks@, scores@),
    {
        let ghost all = ranked(scores@, TOP_K as int);
        if self.is_empty() {
            proof {
                reveal(Seq::filter);
                assert(scored(scores@) =~= Seq::empty());
                assert(all.len() == 0);
                assert(above_floor(all).len() == 0);
            }
            return Retrieval::nothing();
        }
        let hits = self.search(scores, TOP_K);
        let mut best: Option<Single> = None;
        let mut context = owned(
            "Answer the user's question using only the excerpts from their files below. If the excerpts don't contain the answer, say so plainly and do not guess. Mention which file you're drawing from when it helps.\n\n",
        );
        let mut sources: Vec<(String, Single)> = Vec::new();
        let mut any = false;
        let mut i: usize = 0;
        proof {
            reveal(Seq::filter);
            assert(all.take(0) =~= Seq::empty());
            assert(above_floor(all.take(0)) =~= Seq::empty());
            assert(context@ =~= preamble() + excerpts(self.chunks@, Seq::empty()));
            assert(citations(sources@) =~= Seq::empty());
        }
        while i < hits.len()
            invariant
                i <= hits@.len() == all.len(),
                all == ranked(scores@, TOP_K as int),
                scores@.len() == self.chunks@.len(),
                forall|j: int|
                    #![trigger hits@[j]]
                    0 <= j < hits@.len() ==> is_hit(self.chunks@, all[j], hits@[j]),
                best == highest_number(all.take(i as int)),
                any == (above_floor(all.take(i as int)).len() > 0),
                context@ == preamble() + excerpts(self.chunks@, above_floor(all.take(i as int))),
                citations(sources@) == cited(self.chunks@, above_floor(all.take(i as int))),
            decreases hits@.len() - i,
        {
            let chunk = hits[i].0;
            let score = hits[i].1;
            let ghost hit = all[i as int];
            let ghost kept = above_floor(all.take(i as int));
            let ghost now = above_floor(all.take(i + 1));
            let ghost was = context@;
            proof {
                reveal(Seq::filter);
                assert(is_hit(self.chunks@, hit, hits@[i as int]));
                assert(all.take(i + 1).drop_last() =~= all.take(i as int));
                assert(all.take(i + 1).last() == hit);
            }
            if !score.is_nan() {
                best = match best {
                    Some(b) => Some(b.max(score)),
                    None => Some(score),
                };
            }
            if score.at_least(evidence_floor()) {
                any = true;
                context.append("--- from ");
                context.append(chunk.source.as_str());
                context.append(" ---\n");
                context.append(chunk.text.as_str());
                context.append("\n\n");
                add_citation(&mut sources, chunk.source.as_str(), score);
                proof {
                    assert(now =~= kept.push(hit));
                    assert(now.drop_last() =~= kept);
                    assert(context@ =~= was + excerpt(self.chunks@[hit.0]));
                    assert(context@ =~= preamble() + excerpts(self.chunks@, now));
                }
            } else {
                assert(now =~= kept);
            }
            i += 1;
        }
        assert(all.take(all.len() as int) =~= all);
        let context = if any {
            Some(context)
        } else {
            None
        };
        let best_score = match best {
            Some(b) => b,
            None => Single::zero(),
        };
        Retrieval { context, sources, best_score }
    }
}

// ---------------------------------------------------------------------------
// What retrieval promises
// ---------------------------------------------------------------------------

/// Whether `x` is ranked ahead of `y`: by the better score, and by its position where the
/// scores are the same.
pub open spec fn ahead(x: (int, Single), y: (int, Single)) -> bool {
    y.1.below(x.1) || (x.1.rank() == y.1.rank() && x.0 < y.0)
}

/// Whether every entry is ranked ahead of all later ones.
pub open spec fn in_rank_order(list: Seq<(int, Single)>) -> bool {
    forall|i: int, j: int| #![trigger list[i], list[j]] 0 <= i < j < list.len() ==> ahead(list[i], list[j])
}

/// Whether no score is "not a number".
pub open spec fn all_numbers(scores: Seq<Single>) -> bool {
    forall|i: int| 0 <= i < scores.len() ==> !(#[trigger] scores[i]).nan()
}

proof fn lemma_sorted_in_rank_order(scores: Seq<Single>, n: int)
    requires
        all_numbers(scores),
        0 <= n <= scores.len(),
    ensures
        in_rank_order(sorted(scored(scores).take(n), best_first())),
        forall|k: int|
            0 <= k < sorted(scored(scores).take(n), best_first()).len() ==> {
                let hit = #[trigger] sorted(scored(scores).take(n), best_first())[k];
                0 <= hit.0 < n && hit.1 == scores[hit.0]
            },
    decreases n,
{
    let less = best_first();
    let all = scored(scores);
    if n > 0 {
        lemma_sorted_in_rank_order(scores, n - 1);
        let x = all[n - 1];
        assert(all.take(n).drop_last() =~= all.take(n - 1));
        assert(all.take(n).last() == x);
        let list = sorted(all.take(n - 1), less);
        lemma_place(list, x, less);
        let p = place(list, x, less);
        let out = placed(list, x, less);
        assert(!scores[n - 1].nan());
        assert forall|k: int| 0 <= k < out.len() implies {
            let hit = #[trigger] out[k];
            0 <= hit.0 < n && hit.1 == scores[hit.0]
        } by {
            if k < p {
                assert(out[k] == list[k]);
            } else if k > p {
                assert(out[k] == list[k - 1]);
            }
        }
        assert forall|i: int, j: int|
            #![trigger out[i], out[j]]
            0 <= i < j < out.len() implies ahead(out[i], out[j]) by {
            let oi = if i < p {
                list[i]
            } else if i == p {
                x
            } else {
                list[i - 1]
            };
            let oj = if j < p {
                list[j]
            } else if j == p {
                x
            } else {
                list[j - 1]
            };
            assert(out[i] == oi && out[j] == oj);
            assert(!scores[out[i].0].nan());
            assert(!scores[out[j].0].nan());
            if j == p {
                assert(!less(x, list[i]));
            } else if i == p {
                assert(less(x, list[p]));
                assert(!scores[list[p].0].nan());
                if j - 1 > p {
                    assert(ahead(list[p], list[j - 1]));
                }
            }
        }
    }
}

/// Search returns as many chunks as asked for and available, best score first, equal scores
/// in chunk order; and whatever is left out is ranked behind all that is kept.
pub proof fn law_search_keeps_the_best(scores: Seq<Single>, top_k: int)
    requires
        all_numbers(scores),
        0 <= top_k,
    ensures
        ranked(scores, top_k).len() == if top_k < scores.len() {
            top_k
        } else {
            scores.len() as int
        },
        in_rank_order(ranked(scores, top_k)),
        forall|j: int|
            0 <= j < ranked(scores, top_k).len() ==> 0 <= (#[trigger] ranked(scores, top_k)[j]).0
                < scores.len() && ranked(scores, top_k)[j].1 == scores[ranked(scores, top_k)[j].0],
        forall|i: int, j: int|
            #![trigger scores[i], ranked(scores, top_k)[j]]
            0 <= i < scores.len() && !ranked(scores, top_k).contains((i, scores[i])) && 0 <= j
                < ranked(scores, top_k).len() ==> ahead(ranked(scores, top_k)[j], (i, scores[i])),
{
    let all = scored(scores);
    let s = sorted(all, best_first());
    let kept = ranked(scores, top_k);
    lemma_sorted_in_rank_order(scores, scores.len() as int);
    assert(all.take(scores.len() as int) =~= all);
    lemma_ranked_in_range(scores, top_k);
    lemma_sorted_same(all, best_first());
    broadcast use vstd::seq_lib::group_to_multiset_ensures;

    assert(s.len() == s.to_multiset().len() == all.len());
    assert forall|i: int, j: int|
        #![trigger scores[i], kept[j]]
        0 <= i < scores.len() && !kept.contains((i, scores[i])) && 0 <= j < kept.len() implies ahead(
        kept[j],
        (i, scores[i]),
    ) by {
        let hit = (i, scores[i]);
        assert(all[i] == hit);
        assert(all.contains(hit));
        assert(s.to_multiset().count(hit) > 0);
        assert(s.contains(hit));
        let m = choose|m: int| 0 <= m < s.len() && s[m] == hit;
        if m < kept.len() {
            assert(kept[m] == hit);
        }
        assert(kept[j] == s[j]);
        assert(ahead(s[j], s[m]));
    }
}

/// The highest score of some hits is the score of one of them, and no number among them ranks
/// higher. Where none of them is a number, it is zero.
pub proof fn lemma_highest(hits: Seq<(int, Single)>)
    ensures
        !highest(hits).nan(),
        forall|i: int|
            0 <= i < hits.len() && !hits[i].1.nan() ==> highest(hits).rank() >= (
            #[trigger] hits[i]).1.rank(),
        (exists|i: int| 0 <= i < hits.len() && !(#[trigger] hits[i]).1.nan()) ==> exists|i: int|
            0 <= i < hits.len() && (#[trigger] hits[i]).1 == highest(hits),
        (forall|i: int| 0 <= i < hits.len() ==> (#[trigger] hits[i]).1.nan()) ==> highest(hits)
            == Single::zero_value(),
        highest_number(hits) is None <==> forall|i: int|
            0 <= i < hits.len() ==> (#[trigger] hits[i]).1.nan(),
    decreases hits.len(),
{
    if hits.len() > 0 {
        let front = hits.drop_last();
        lemma_highest(front);
        assert forall|i: int| 0 <= i < front.len() implies #[trigger] front[i] == hits[i] by {}
        assert(hits[hits.len() - 1] == hits.last());
        assert forall|i: int| 0 <= i < hits.len() - 1 implies #[trigger] hits[i] == front[i] by {}
        if highest_number(front) is Some {
            let j = choose|j: int| 0 <= j < front.len() && (#[trigger] front[j]).1 == highest(front);
            assert(hits[j].1 == highest(front));
        }
    }
}

pub proof fn lemma_cited_scores(chunks: Seq<Chunk>, hits: Seq<(int, Single)>)
    requires
        forall|i: int| 0 <= i < hits.len() ==> (#[trigger] hits[i]).1.reaches(floor()),
    ensures
        hits.len() > 0 ==> cited(chunks, hits).len() > 0,
        hits.len() == 0 ==> cited(chunks, hits).len() == 0,
        forall|i: int|
            0 <= i < cited(chunks, hits).len() ==> (#[trigger] cited(chunks, hits)[i]).1.reaches(floor()),
        forall|i: int, j: int|
            #![trigger cited(chunks, hits)[i], cited(chunks, hits)[j]]
            0 <= i < j < cited(chunks, hits).len() ==> cited(chunks, hits)[i].0 != cited(chunks, hits)[j].0,
    decreases hits.len(),
{
    if hits.len() > 0 {
        let front = hits.drop_last();
        assert forall|i: int| 0 <= i < front.len() implies (#[trigger] front[i]).1.reaches(floor()) by {
            assert(front[i] == hits[i]);
        }
        lemma_cited_scores(chunks, front);
        let list = cited(chunks, front);
        let source = chunks[hits.last().0].source@;
        lemma_cited_at(list, source);
        let at = cited_at(list, source);
        let out = cited(chunks, hits);
        assert(hits[hits.len() - 1].1.reaches(floor()));
        if at < list.len() {
            assert(list[at].1.reaches(floor()));
        }
    }
}

pub proof fn lemma_hits_reach_floor(hits: Seq<(int, Single)>)
    ensures
        forall|i: int| 0 <= i < above_floor(hits).len() ==> (#[trigger] above_floor(hits)[i]).1.reaches(floor()),
{
    let keeps = |h: (int, Single)| h.1.reaches(floor());
    assert(above_floor(hits) == hits.filter(keeps));
    assert forall|i: int| 0 <= i < above_floor(hits).len() implies (#[trigger] above_floor(hits)[i]).1.reaches(floor()) by {
        hits.lemma_filter_pred(keeps, i);
    }
}

/// Every citation reaches the evidence floor, and no file is cited twice.
pub proof fn law_citations_are_evidence(chunks: Seq<Chunk>, scores: Seq<Single>)
    ensures
        forall|i: int|
            0 <= i < retrieval(chunks, scores).sources.len() ==> (#[trigger] retrieval(
                chunks,
                scores,
            ).sources[i]).1.reaches(floor()),
        forall|i: int, j: int|
            #![trigger retrieval(chunks, scores).sources[i], retrieval(chunks, scores).sources[j]]
            0 <= i < j < retrieval(chunks, scores).sources.len() ==> retrieval(
                chunks,
                scores,
            ).sources[i].0 != retrieval(chunks, scores).sources[j].0,
{
    let all = ranked(scores, TOP_K as int);
    lemma_hits_reach_floor(all);
    lemma_cited_scores(chunks, above_floor(all));
}

/// Retrieval and admission agree: there is a context exactly when the retrieved sources are
/// admitted as evidence.
pub proof fn law_admission_agrees_with_retrieval(chunks: Seq<Chunk>, scores: Seq<Single>)
    ensures
        retrieval(chunks, scores).context is Some <==> has_evidence(
            retrieval(chunks, scores).sources.len(),
            retrieval(chunks, scores).best_score,
        ),
{
    let all = ranked(scores, TOP_K as int);
    let hits = above_floor(all);
    lemma_hits_reach_floor(all);
    lemma_cited_scores(chunks, hits);
    if hits.len() > 0 {
        let keeps = |h: (int, Single)| h.1.reaches(floor());
        assert(hits == all.filter(keeps));
        assert(hits[0].1.reaches(floor()));
        all.lemma_filter_contains_rev(keeps, hits[0]);
        let m = choose|m: int| 0 <= m < all.len() && all[m] == hits[0];
        lemma_highest(all);
    }
}

/// The best score is the highest similarity of all chunks, admitted or not: no chunk scores
/// higher, and one of them scores as high.
pub proof fn law_best_score_is_the_highest(chunks: Seq<Chunk>, scores: Seq<Single>, i: int)
    requires
        all_numbers(scores),
        0 <= i < scores.len(),
    ensures
        retrieval(chunks, scores).best_score.rank() >= scores[i].rank(),
        exists|j: int|
            0 <= j < scores.len() && retrieval(chunks, scores).best_score.rank() == (
            #[trigger] scores[j]).rank(),
{
    let all = ranked(scores, TOP_K as int);
    law_search_keeps_the_best(scores, TOP_K as int);
    lemma_highest(all);
    assert(all.len() > 0);
    assert(all[0].1 == scores[all[0].0]);
    let h = choose|h: int| 0 <= h < all.len() && (#[trigger] all[h]).1 == highest(all);
    assert(scores[all[h].0] == highest(all));
    if all.contains((i, scores[i])) {
        let m = choose|m: int| 0 <= m < all.len() && all[m] == (i, scores[i]);
    } else {
        assert(ahead(all[0], (i, scores[i])));
    }
}

/// Whether this hit comes from this file.
pub open spec fn comes_from(chunks: Seq<Chunk>, hit: (int, Single), source: Seq<char>) -> bool {
    chunks[hit.0].source@ == source
}

pub proof fn lemma_citation_best(chunks: Seq<Chunk>, hits: Seq<(int, Single)>)
    requires
        forall|i: int| 0 <= i < hits.len() ==> (#[trigger] hits[i]).1.reaches(floor()),
    ensures
        forall|i: int|
            0 <= i < hits.len() ==> {
                let at = cited_at(cited(chunks, hits), chunks[(#[trigger] hits[i]).0].source@);
                at < cited(chunks, hits).len() && cited(chunks, hits)[at].1.rank() >= hits[i].1.rank()
            },
        forall|j: int|
            0 <= j < cited(chunks, hits).len() ==> exists|i: int|
                0 <= i < hits.len() && hits[i].1 == (#[trigger] cited(chunks, hits)[j]).1 && comes_from(
                    chunks,
                    #[trigger] hits[i],
                    cited(chunks, hits)[j].0,
                ),
    decreases hits.len(),
{
    if hits.len() > 0 {
        let front = hits.drop_last();
        let last = hits.last();
        assert forall|i: int| 0 <= i < front.len() implies (#[trigger] front[i]).1.reaches(floor()) by {
            assert(front[i] == hits[i]);
        }
        lemma_citation_best(chunks, front);
        lemma_cited_scores(chunks, front);
        lemma_cited_scores(chunks, hits);
        let list = cited(chunks, front);
        let out = cited(chunks, hits);
        let source = chunks[last.0].source@;
        let at = cited_at(list, source);
        lemma_cited_at(list, source);
        assert(hits[hits.len() - 1].1.reaches(floor()));
        assert forall|i: int| 0 <= i < hits.len() implies {
            let p = cited_at(out, chunks[(#[trigger] hits[i]).0].source@);
            p < out.len() && out[p].1.rank() >= hits[i].1.rank()
        } by {
            let s = chunks[hits[i].0].source@;
            let p = cited_at(out, s);
            lemma_cited_at(out, s);
            if i < front.len() {
                assert(front[i] == hits[i]);
                let q = cited_at(list, s);
                lemma_cited_at(list, s);
                assert(list[q].1.reaches(floor()));
                assert(out[q].0 == s);
                if p != q {
                    assert(out[p].0 == s);
                }
            } else {
                let q = if at < list.len() {
                    at
                } else {
                    list.len() as int
                };
                assert(out[q].0 == source);
                if at < list.len() {
                    assert(list[at].1.reaches(floor()));
                }
                if p != q {
                    assert(out[p].0 == s);
                }
            }
        }
        assert forall|j: int| 0 <= j < out.len() implies exists|i: int|
            0 <= i < hits.len() && hits[i].1 == (#[trigger] out[j]).1 && comes_from(
                chunks,
                #[trigger] hits[i],
                out[j].0,
            ) by {
            if j < list.len() && out[j] == list[j] {
                let i = choose|i: int|
                    0 <= i < front.len() && front[i].1 == list[j].1 && comes_from(
                        chunks,
                        #[trigger] front[i],
                        list[j].0,
                    );
                assert(hits[i] == front[i]);
            } else {
                if j < list.len() {
                    assert(j == at);
                    assert(list[at].1.reaches(floor()));
                }
                let i = hits.len() - 1;
                assert(hits[i] == last);
                assert(comes_from(chunks, hits[i], out[j].0));
            }
        }
    }
}

/// The score beside a cited file is the best of that file's excerpts: one of them scores
/// exactly that, and none scores more.
pub proof fn law_citation_is_the_best_of_its_file(chunks: Seq<Chunk>, scores: Seq<Single>, j: int)
    requires
        0 <= j < retrieval(chunks, scores).sources.len(),
    ensures
        ({
            let hits = above_floor(ranked(scores, TOP_K as int));
            let c = retrieval(chunks, scores).sources[j];
            &&& exists|i: int|
                0 <= i < hits.len() && hits[i].1 == c.1 && comes_from(chunks, #[trigger] hits[i], c.0)
            &&& forall|i: int|
                0 <= i < hits.len() && comes_from(chunks, #[trigger] hits[i], c.0) ==> hits[i].1.rank()
                    <= c.1.rank()
        }),
{
    let all = ranked(scores, TOP_K as int);
    let hits = above_floor(all);
    let list = cited(chunks, hits);
    lemma_hits_reach_floor(all);
    lemma_citation_best(chunks, hits);
    lemma_cited_scores(chunks, hits);
    let c = list[j];
    assert forall|i: int| 0 <= i < hits.len() && comes_from(chunks, #[trigger] hits[i], c.0) implies hits[i].1.rank()
        <= c.1.rank() by {
        let p = cited_at(list, c.0);
        lemma_cited_at(list, c.0);
        if p != j {
            assert(list[p].0 == list[j].0);
        }
    }
}

} // verus!
