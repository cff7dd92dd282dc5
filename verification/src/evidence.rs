//! What retrieval promises of the excerpts that reach the model and of the files it cites.

use vstd::prelude::*;
#[allow(unused_imports)]
use vstd::string::*;

#[allow(unused_imports)]
use crate::governance::floor;
#[allow(unused_imports)]
use crate::knowledge::{
    above_floor, all_numbers, best_first, citations, cited, cited_at, excerpt, excerpts, is_hit,
    law_search_keeps_the_best, lemma_citation_best, lemma_cited_at, lemma_cited_scores,
    lemma_highest, lemma_hits_reach_floor, lemma_ranked_in_range, nothing_found, positions,
    preamble, ranked, retrieval, scored, sources_of, strictly_ascending, Chunk, Retrieval,
};
#[allow(unused_imports)]
use crate::order::{lemma_sorted_same, sorted};
#[allow(unused_imports)]
use crate::single::Single;
#[allow(unused_imports)]
use crate::text::text_less;

verus! {

/// How the model is told of a chunk: the name of its file on a line of its own, its whole text,
/// and an empty line.
pub open spec fn told(c: Chunk) -> Seq<char> {
    "--- from "@ + c.source@ + " ---\n"@ + c.text@ + "\n\n"@
}

/// The hits among the best that reach the floor, by their place in the ranking.
pub open spec fn picks(all: Seq<(int, Single)>, idx: Seq<int>) -> bool {
    &&& forall|k: int| 0 <= k < idx.len() ==> 0 <= #[trigger] idx[k] < all.len()
    &&& forall|k: int| 0 <= k < idx.len() ==> all[#[trigger] idx[k]].1.reaches(floor())
    &&& forall|k: int, l: int| #![trigger idx[k], idx[l]] 0 <= k < l < idx.len() ==> idx[k] < idx[l]
    &&& forall|i: int| 0 <= i < all.len() && (#[trigger] all[i]).1.reaches(floor()) ==> idx.contains(i)
}

proof fn lemma_picks(all: Seq<(int, Single)>) -> (idx: Seq<int>)
    ensures
        picks(all, idx),
        idx.len() == above_floor(all).len(),
        forall|k: int| 0 <= k < idx.len() ==> above_floor(all)[k] == all[#[trigger] idx[k]],
    decreases all.len(),
{
    reveal(Seq::filter);
    let hits = above_floor(all);
    if all.len() == 0 {
        assert(hits =~= Seq::empty());
        Seq::empty()
    } else {
        let front = all.drop_last();
        let before = lemma_picks(front);
        let n = all.len() - 1;
        assert(all[n] == all.last());
        if all.last().1.reaches(floor()) {
            let idx = before.push(n);
            assert(hits =~= above_floor(front).push(all.last()));
            assert forall|i: int| 0 <= i < all.len() && (#[trigger] all[i]).1.reaches(floor()) implies idx.contains(
                i,
            ) by {
                if i < n {
                    assert(front[i] == all[i]);
                    assert(before.contains(i));
                    let k = before.index_of(i);
                    assert(idx[k] == i);
                } else {
                    assert(idx[before.len() as int] == i);
                }
            }
            assert forall|k: int| 0 <= k < idx.len() implies hits[k] == all[#[trigger] idx[k]] by {
                if k < before.len() {
                    assert(idx[k] == before[k]);
                    assert(front[before[k]] == all[before[k]]);
                }
            }
            assert forall|k: int| 0 <= k < idx.len() implies 0 <= #[trigger] idx[k] < all.len()
                && all[idx[k]].1.reaches(floor()) by {
                if k < before.len() {
                    assert(idx[k] == before[k]);
                    assert(front[before[k]] == all[before[k]]);
                }
            }
            idx
        } else {
            assert(hits =~= above_floor(front));
            assert forall|i: int| 0 <= i < all.len() && (#[trigger] all[i]).1.reaches(floor()) implies before.contains(
                i,
            ) by {
                assert(front[i] == all[i]);
            }
            assert forall|k: int| 0 <= k < before.len() implies 0 <= #[trigger] before[k] < all.len()
                && all[before[k]].1.reaches(floor()) && hits[k] == all[before[k]] by {
                assert(front[before[k]] == all[before[k]]);
            }
            before
        }
    }
}

/// Whether these texts stand in `whole` one behind the other, at these places, up to its end.
pub open spec fn set_out(whole: Seq<char>, parts: Seq<Seq<char>>, at: Seq<int>) -> bool {
    &&& at.len() == parts.len()
    &&& forall|k: int|
        0 <= k < parts.len() ==> 0 <= #[trigger] at[k] && at[k] + parts[k].len() <= whole.len()
            && whole.subrange(at[k], at[k] + parts[k].len()) == parts[k]
    &&& forall|k: int, l: int|
        #![trigger at[k], at[l]]
        0 <= k < l < parts.len() && l == k + 1 ==> at[l] == at[k] + parts[k].len()
    &&& parts.len() > 0 ==> at.last() + parts.last().len() == whole.len()
}

/// The excerpts of these chunks.
pub open spec fn told_of(chunks: Seq<Chunk>, hits: Seq<(int, Single)>) -> Seq<Seq<char>> {
    hits.map_values(|h: (int, Single)| told(chunks[h.0]))
}

proof fn lemma_set_out(head: Seq<char>, chunks: Seq<Chunk>, hits: Seq<(int, Single)>) -> (at: Seq<int>)
    ensures
        set_out(head + excerpts(chunks, hits), told_of(chunks, hits), at),
        hits.len() > 0 ==> at[0] == head.len(),
    decreases hits.len(),
{
    if hits.len() == 0 {
        Seq::empty()
    } else {
        let front = hits.drop_last();
        let before = lemma_set_out(head, chunks, front);
        let short = head + excerpts(chunks, front);
        let piece = told(chunks[hits.last().0]);
        assert(excerpt(chunks[hits.last().0]) == piece);
        let whole = head + excerpts(chunks, hits);
        assert(whole =~= short + piece);
        let at = before.push(short.len() as int);
        let parts = told_of(chunks, hits);
        assert(parts =~= told_of(chunks, front).push(piece));
        assert forall|k: int| 0 <= k < parts.len() implies 0 <= #[trigger] at[k] && at[k]
            + parts[k].len() <= whole.len() && whole.subrange(at[k], at[k] + parts[k].len()) == parts[k] by {
            if k < before.len() {
                assert(at[k] == before[k]);
                assert(parts[k] == told_of(chunks, front)[k]);
                assert(short.subrange(before[k], before[k] + parts[k].len()) =~= whole.subrange(
                    at[k],
                    at[k] + parts[k].len(),
                ));
            } else {
                assert(whole.subrange(short.len() as int, whole.len() as int) =~= piece);
            }
        }
        assert forall|k: int, l: int|
            #![trigger at[k], at[l]]
            0 <= k < l < parts.len() && l == k + 1 implies at[l] == at[k] + parts[k].len() by {
            assert(at[k] == before[k]);
            assert(parts[k] == told_of(chunks, front)[k]);
            if l < before.len() {
                assert(at[l] == before[l]);
            } else {
                assert(before.last() == before[k]);
                assert(told_of(chunks, front).last() == parts[k]);
            }
        }
        if front.len() == 0 {
            assert(excerpts(chunks, front) =~= Seq::empty());
            assert(short =~= head);
        } else {
            assert(at[0] == before[0]);
        }
        at
    }
}

/// The context is the instruction to stay inside the evidence, followed by the excerpts of all
/// those among the best chunks that reach the floor, each one whole, in the order of the
/// ranking, and by nothing else; where none reaches the floor, there is no context. `r.0` are
/// their places in the ranking, `r.1` their places in the context.
pub proof fn law_context_is_every_excerpt(chunks: Seq<Chunk>, scores: Seq<Single>) -> (r: (
    Seq<int>,
    Seq<int>,
))
    ensures
        picks(ranked(scores, 5), r.0),
        retrieval(chunks, scores).context is None <==> r.0.len() == 0,
        retrieval(chunks, scores).context matches Some(context) ==> {
            let all = ranked(scores, 5);
            let head =
                "Answer the user's question using only the excerpts from their files below. If the excerpts don't contain the answer, say so plainly and do not guess. Mention which file you're drawing from when it helps.\n\n"@;
            &&& context.take(head.len() as int) == head
            &&& r.1[0] == head.len()
            &&& set_out(
                context,
                Seq::new(r.0.len(), |k: int| told(chunks[all[r.0[k]].0])),
                r.1,
            )
        },
{
    let all = ranked(scores, 5);
    let hits = above_floor(all);
    let idx = lemma_picks(all);
    let at = lemma_set_out(preamble(), chunks, hits);
    assert(told_of(chunks, hits) =~= Seq::new(idx.len(), |k: int| told(chunks[all[idx[k]].0])));
    assert((preamble() + excerpts(chunks, hits)).take(preamble().len() as int) =~= preamble());
    (idx, at)
}

/// Every chunk among the best that reaches the floor is in the context, at place `r`: the line
/// that names its file, directly followed by its whole text.
pub proof fn law_every_good_chunk_reaches_the_model(
    chunks: Seq<Chunk>,
    scores: Seq<Single>,
    i: int,
) -> (r: int)
    requires
        0 <= i < ranked(scores, 5).len(),
        ranked(scores, 5)[i].1.reaches(floor()),
    ensures
        retrieval(chunks, scores).context is Some,
        ({
            let context = retrieval(chunks, scores).context->0;
            let c = chunks[ranked(scores, 5)[i].0];
            let part = "--- from "@ + c.source@ + " ---\n"@ + c.text@ + "\n\n"@;
            0 <= r && r + part.len() <= context.len() && context.subrange(r, r + part.len()) == part
        }),
{
    let all = ranked(scores, 5);
    let (idx, at) = law_context_is_every_excerpt(chunks, scores);
    assert(idx.contains(i));
    let k = idx.index_of(i);
    let parts = Seq::new(idx.len(), |k: int| told(chunks[all[idx[k]].0]));
    assert(parts[k] == told(chunks[all[i].0]));
    at[k]
}

/// Every file with an excerpt in the context is cited, as source `r`.
pub proof fn law_told_file_is_cited(chunks: Seq<Chunk>, scores: Seq<Single>, i: int) -> (r: int)
    requires
        0 <= i < ranked(scores, 5).len(),
        ranked(scores, 5)[i].1.reaches(floor()),
    ensures
        0 <= r < retrieval(chunks, scores).sources.len(),
        retrieval(chunks, scores).sources[r].0 == chunks[ranked(scores, 5)[i].0].source@,
{
    let all = ranked(scores, 5);
    let hits = above_floor(all);
    let list = cited(chunks, hits);
    let idx = lemma_picks(all);
    lemma_hits_reach_floor(all);
    lemma_citation_best(chunks, hits);
    assert(idx.contains(i));
    let k = idx.index_of(i);
    assert(hits[k] == all[idx[k]]);
    lemma_cited_at(list, chunks[hits[k].0].source@);
    cited_at(list, chunks[hits[k].0].source@)
}

/// Every cited file has an excerpt in the context: that of hit `r`, whose score is cited.
pub proof fn law_cited_file_is_told(chunks: Seq<Chunk>, scores: Seq<Single>, j: int) -> (r: int)
    requires
        0 <= j < retrieval(chunks, scores).sources.len(),
    ensures
        0 <= r < ranked(scores, 5).len(),
        ranked(scores, 5)[r].1.reaches(floor()),
        ranked(scores, 5)[r].1 == retrieval(chunks, scores).sources[j].1,
        chunks[ranked(scores, 5)[r].0].source@ == retrieval(chunks, scores).sources[j].0,
{
    let all = ranked(scores, 5);
    let hits = above_floor(all);
    let list = cited(chunks, hits);
    let idx = lemma_picks(all);
    lemma_hits_reach_floor(all);
    lemma_citation_best(chunks, hits);
    let c = list[j];
    let k = choose|k: int|
        0 <= k < hits.len() && hits[k].1 == c.1 && crate::knowledge::comes_from(
            chunks,
            #[trigger] hits[k],
            c.0,
        );
    assert(hits[k] == all[idx[k]]);
    idx[k]
}

proof fn lemma_cited_descend(chunks: Seq<Chunk>, hits: Seq<(int, Single)>)
    requires
        forall|i: int| 0 <= i < hits.len() ==> (#[trigger] hits[i]).1.reaches(floor()),
        forall|i: int, j: int|
            #![trigger hits[i], hits[j]]
            0 <= i < j < hits.len() ==> hits[i].1.rank() >= hits[j].1.rank(),
    ensures
        forall|i: int, j: int|
            #![trigger cited(chunks, hits)[i], cited(chunks, hits)[j]]
            0 <= i < j < cited(chunks, hits).len() ==> cited(chunks, hits)[i].1.rank() >= cited(
                chunks,
                hits,
            )[j].1.rank(),
        forall|i: int|
            0 <= i < cited(chunks, hits).len() && hits.len() > 0 ==> (#[trigger] cited(
                chunks,
                hits,
            )[i]).1.rank() >= hits.last().1.rank(),
    decreases hits.len(),
{
    if hits.len() > 0 {
        let front = hits.drop_last();
        let n = hits.len() - 1;
        assert(hits[n] == hits.last());
        assert forall|i: int| 0 <= i < front.len() implies #[trigger] front[i] == hits[i] by {}
        lemma_cited_descend(chunks, front);
        lemma_cited_scores(chunks, front);
        let list = cited(chunks, front);
        let out = cited(chunks, hits);
        let source = chunks[hits.last().0].source@;
        let at = cited_at(list, source);
        lemma_cited_at(list, source);
        if front.len() > 0 {
            assert(front.last() == hits[n - 1]);
            assert(hits[n - 1].1.rank() >= hits[n].1.rank());
        }
        if at < list.len() {
            assert(list[at].1.reaches(floor()));
            assert(out =~= list);
        } else {
            assert(out =~= list.push((source, hits.last().1)));
        }
    }
}

/// Files are cited in the order of their scores, the best one first.
pub proof fn law_best_citation_comes_first(chunks: Seq<Chunk>, scores: Seq<Single>, i: int, j: int)
    requires
        all_numbers(scores),
        0 <= i < j < retrieval(chunks, scores).sources.len(),
    ensures
        retrieval(chunks, scores).sources[i].1.rank() >= retrieval(chunks, scores).sources[j].1.rank(),
{
    let all = ranked(scores, 5);
    let hits = above_floor(all);
    let idx = lemma_picks(all);
    law_search_keeps_the_best(scores, 5);
    lemma_hits_reach_floor(all);
    assert forall|a: int, b: int| #![trigger hits[a], hits[b]] 0 <= a < b < hits.len() implies hits[a].1.rank()
        >= hits[b].1.rank() by {
        assert(hits[a] == all[idx[a]] && hits[b] == all[idx[b]]);
        assert(idx[a] < idx[b]);
        assert(crate::knowledge::ahead(all[idx[a]], all[idx[b]]));
    }
    lemma_cited_descend(chunks, hits);
}

/// What a search returns: the chunk that stands at the position of the ranking, with its score.
pub proof fn law_hit_is_the_ranked_chunk(chunks: Seq<Chunk>, hit: (int, Single), found: (&Chunk, Single))
    requires
        is_hit(chunks, hit, found),
    ensures
        0 <= hit.0 < chunks.len(),
        *found.0 == chunks[hit.0],
        found.1 == hit.1,
{
}

/// Scores ranked in full, by value: every position of the list with its own score.
pub proof fn law_lists_by_value(
    ranking: Seq<(usize, Single)>,
    list: Seq<(String, Single)>,
    chunks: Seq<Chunk>,
    r: Retrieval,
    names: Seq<Seq<char>>,
)
    ensures
        positions(ranking).len() == ranking.len(),
        forall|i: int|
            0 <= i < ranking.len() ==> (#[trigger] positions(ranking)[i]).0 == ranking[i].0 && positions(
                ranking,
            )[i].1 == ranking[i].1,
        citations(list).len() == list.len(),
        forall|i: int|
            0 <= i < list.len() ==> (#[trigger] citations(list)[i]).0 == list[i].0@ && citations(list)[i].1
                == list[i].1,
        sources_of(chunks).len() == chunks.len(),
        forall|i: int| 0 <= i < chunks.len() ==> #[trigger] sources_of(chunks)[i] == chunks[i].source@,
        r@.context is Some <==> r.context is Some,
        r@.context is Some ==> r@.context->0 == r.context->0@,
        r@.best_score == r.best_score,
        r@.sources.len() == r.sources@.len(),
        forall|i: int|
            0 <= i < r.sources@.len() ==> (#[trigger] r@.sources[i]).0 == r.sources@[i].0@ && r@.sources[i].1
                == r.sources@[i].1,
        nothing_found().context is None && nothing_found().sources.len() == 0
            && nothing_found().best_score.bits == 0,
        strictly_ascending(names) <==> forall|i: int, j: int|
            #![trigger names[i], names[j]]
            0 <= i < j < names.len() ==> text_less(names[i], names[j]),
{
}

/// Whether one of the first `m` hits comes from the file of this name.
pub open spec fn seen_before(chunks: Seq<Chunk>, hits: Seq<(int, Single)>, name: Seq<char>, m: int) -> bool {
    exists|k: int| 0 <= k < m && chunks[(#[trigger] hits[k]).0].source@ == name
}

proof fn lemma_cited_in_order(chunks: Seq<Chunk>, hits: Seq<(int, Single)>, i: int, j: int, m: int)
    requires
        forall|k: int| 0 <= k < hits.len() ==> (#[trigger] hits[k]).1.reaches(floor()),
        0 <= i < j < cited(chunks, hits).len(),
        0 <= m < hits.len(),
        chunks[hits[m].0].source@ == cited(chunks, hits)[j].0,
    ensures
        seen_before(chunks, hits, cited(chunks, hits)[i].0, m),
    decreases hits.len(),
{
    let front = hits.drop_last();
    let n = hits.len() - 1;
    assert(hits[n] == hits.last());
    assert forall|k: int| 0 <= k < front.len() implies #[trigger] front[k] == hits[k] by {}
    assert forall|k: int| 0 <= k < front.len() implies (#[trigger] front[k]).1.reaches(floor()) by {
        assert(front[k] == hits[k]);
    }
    let list = cited(chunks, front);
    let source = chunks[hits.last().0].source@;
    let at = cited_at(list, source);
    lemma_cited_at(list, source);
    lemma_citation_best(chunks, front);
    assert(i < list.len());
    assert(cited(chunks, hits)[i].0 == list[i].0);
    if m < n {
        assert(front[m] == hits[m]);
        if j < list.len() {
            lemma_cited_in_order(chunks, front, i, j, m);
            let k = choose|k: int| 0 <= k < m && chunks[(#[trigger] front[k]).0].source@ == list[i].0;
            assert(chunks[hits[k].0].source@ == list[i].0);
        } else {
            assert(source == cited(chunks, hits)[j].0);
            let p = cited_at(list, chunks[front[m].0].source@);
            assert(p == at && p < list.len());
        }
    } else {
        let k = choose|k: int|
            0 <= k < front.len() && front[k].1 == list[i].1 && crate::knowledge::comes_from(
                chunks,
                #[trigger] front[k],
                list[i].0,
            );
        assert(chunks[hits[k].0].source@ == list[i].0);
    }
}

/// Files are cited in the order of their first excerpt: in front of every excerpt of a file
/// stands one of each file that is cited before it.
pub proof fn law_files_are_cited_as_they_are_told(
    chunks: Seq<Chunk>,
    scores: Seq<Single>,
    i: int,
    j: int,
    m: int,
)
    requires
        0 <= i < j < retrieval(chunks, scores).sources.len(),
        0 <= m < ranked(scores, 5).len(),
        ranked(scores, 5)[m].1.reaches(floor()),
        chunks[ranked(scores, 5)[m].0].source@ == retrieval(chunks, scores).sources[j].0,
    ensures
        exists|k: int|
            0 <= k < m && (#[trigger] ranked(scores, 5)[k]).1.reaches(floor()) && chunks[ranked(
                scores,
                5,
            )[k].0].source@ == retrieval(chunks, scores).sources[i].0,
{
    let all = ranked(scores, 5);
    let hits = above_floor(all);
    let idx = lemma_picks(all);
    lemma_hits_reach_floor(all);
    assert(idx.contains(m));
    let p = idx.index_of(m);
    assert(hits[p] == all[idx[p]]);
    lemma_cited_in_order(chunks, hits, i, j, p);
    let q = choose|q: int|
        0 <= q < p && chunks[(#[trigger] hits[q]).0].source@ == cited(chunks, hits)[i].0;
    assert(hits[q] == all[idx[q]]);
    assert(idx[q] < idx[p]);
}

/// Whatever the scores are, a search names as many chunks as were asked for, or all there are,
/// each with its own score and none of them twice.
pub proof fn law_search_names_chunks_once(scores: Seq<Single>, top_k: int)
    requires
        0 <= top_k,
    ensures
        ranked(scores, top_k).len() == if top_k < scores.len() {
            top_k
        } else {
            scores.len() as int
        },
        forall|j: int|
            0 <= j < ranked(scores, top_k).len() ==> 0 <= (#[trigger] ranked(scores, top_k)[j]).0
                < scores.len() && ranked(scores, top_k)[j].1 == scores[ranked(scores, top_k)[j].0],
        forall|i: int, j: int|
            #![trigger ranked(scores, top_k)[i], ranked(scores, top_k)[j]]
            0 <= i < j < ranked(scores, top_k).len() ==> ranked(scores, top_k)[i].0 != ranked(
                scores,
                top_k,
            )[j].0,
{
    let all = scored(scores);
    let s = sorted(all, best_first());
    let out = ranked(scores, top_k);
    lemma_ranked_in_range(scores, top_k);
    lemma_sorted_same(all, best_first());
    broadcast use vstd::seq_lib::group_to_multiset_ensures;

    assert(s.len() == s.to_multiset().len() == all.len());
    assert(all.no_duplicates());
    all.lemma_multiset_has_no_duplicates();
    s.lemma_multiset_has_no_duplicates_conv();
    assert forall|i: int, j: int|
        #![trigger out[i], out[j]]
        0 <= i < j < out.len() implies out[i].0 != out[j].0 by {
        assert(out[i] == s[i] && out[j] == s[j]);
        assert(s[i] != s[j]);
    }
}

/// The best score is never "not a number": it is the highest of the five best chunks, numbers
/// alone being looked at, and zero where there is none.
pub proof fn law_best_score_is_a_number(chunks: Seq<Chunk>, scores: Seq<Single>)
    ensures
        ({
            let all = ranked(scores, 5);
            let best = retrieval(chunks, scores).best_score;
            &&& !best.nan()
            &&& forall|i: int| 0 <= i < all.len() && !(#[trigger] all[i]).1.nan() ==> best.reaches(all[i].1)
            &&& best.bits == 0 || exists|i: int| 0 <= i < all.len() && (#[trigger] all[i]).1 == best
            &&& (forall|i: int| 0 <= i < all.len() ==> (#[trigger] all[i]).1.nan()) ==> best.bits == 0
        }),
{
    lemma_highest(ranked(scores, 5));
}

} // verus!
