use chatbot::knowledge::{rank, Chunk, Knowledge, Retrieval, EMBED_MODEL, TOP_K};
use chatbot::single::Single;

fn single(x: f32) -> Single {
    Single::from_bits(x.to_bits())
}

fn chunk(source: &str, text: &str) -> Chunk {
    Chunk {
        source: source.to_string(),
        text: text.to_string(),
        embedding: Vec::new(),
    }
}

fn known(sources: &[&str]) -> Knowledge {
    let mut chunks: Vec<Chunk> = Vec::new();
    for s in sources {
        let text = format!("text {}", chunks.len());
        chunks.push(chunk(s, &text));
    }
    Knowledge {
        root: "/k".to_string(),
        chunks,
    }
}

fn scores(list: &[f32]) -> Vec<Single> {
    list.iter().map(|x| single(*x)).collect()
}

#[test]
fn nothing_is_known_at_first() {
    let k = Knowledge::default();
    assert!(k.is_empty());
    assert_eq!(k.file_count(), 0);
    assert_eq!(k.root, "");
    assert_eq!(EMBED_MODEL, "nomic-embed-text");
    assert_eq!(TOP_K, 5);
}

#[test]
fn files_are_counted_once() {
    let k = known(&["b.md", "a.md", "b.md", "c.md", "a.md"]);
    assert!(!k.is_empty());
    assert_eq!(k.file_count(), 3);
    assert_eq!(k.file_names(), vec!["a.md", "b.md", "c.md"]);
}

#[test]
fn search_ranks_best_first_and_keeps_ties_in_order() {
    let k = known(&["a", "b", "c", "d"]);
    let hits = k.search(&scores(&[0.2, 0.9, 0.2, 0.5]), 3);
    let names: Vec<&str> = hits.iter().map(|(c, _)| c.source.as_str()).collect();
    assert_eq!(names, vec!["b", "d", "a"]);
    assert_eq!(hits[0].1, single(0.9));
    assert_eq!(k.search(&scores(&[0.2, 0.9, 0.2, 0.5]), 9).len(), 4);
    assert!(k.search(&scores(&[0.2, 0.9, 0.2, 0.5]), 0).is_empty());
}

#[test]
fn ranking_matches_a_stable_sort() {
    let list = [0.5f32, -0.0, 0.0, 0.5, -1.0, 0.25, 0.5];
    let mut theirs: Vec<(usize, f32)> = list.iter().copied().enumerate().collect();
    theirs.sort_by(|a, b| b.1.partial_cmp(&a.1).unwrap());
    let ours = rank(&scores(&list), list.len());
    let order: Vec<usize> = ours.iter().map(|(i, _)| *i).collect();
    let expected: Vec<usize> = theirs.iter().map(|(i, _)| *i).collect();
    assert_eq!(order, expected);
}

#[test]
fn an_empty_index_retrieves_nothing() {
    let r: Retrieval = Knowledge::default().context_for(&Vec::new());
    assert!(r.context.is_none());
    assert!(r.sources.is_empty());
    assert_eq!(r.best_score, single(0.0));
    let n = Retrieval::nothing();
    assert!(n.context.is_none() && n.sources.is_empty());
}

#[test]
fn below_the_floor_only_the_best_score_is_reported() {
    let k = known(&["a", "b"]);
    let r = k.context_for(&scores(&[0.18, 0.1]));
    assert!(r.context.is_none());
    assert!(r.sources.is_empty());
    assert_eq!(r.best_score, single(0.18));
    // A score below zero is reported as it is, too.
    let r = k.context_for(&scores(&[-0.5, -0.1]));
    assert_eq!(r.best_score, single(-0.1));
    let r = known(&["a.md"]).context_for(&scores(&[-1.0]));
    assert!(r.context.is_none());
    assert!(r.sources.is_empty());
    assert_eq!(r.best_score, single(-1.0));
    // What is no number is not seen, and where there is no number the best is zero.
    let r = k.context_for(&scores(&[f32::NAN, -0.1]));
    assert_eq!(r.best_score, single(-0.1));
    let r = k.context_for(&scores(&[f32::NAN, f32::NAN]));
    assert_eq!(r.best_score, single(0.0));
}

#[test]
fn evidence_becomes_context_and_citations() {
    let k = known(&["a.md", "b.md", "a.md"]);
    let r = k.context_for(&scores(&[0.4, 0.2, 0.75]));
    assert_eq!(
        r.context.unwrap(),
        "Answer the user's question using only the excerpts from their files below. \
         If the excerpts don't contain the answer, say so plainly and do not guess. \
         Mention which file you're drawing from when it helps.\n\n\
         --- from a.md ---\ntext 2\n\n--- from a.md ---\ntext 0\n\n"
    );
    assert_eq!(r.sources, vec![("a.md".to_string(), single(0.75))]);
    assert_eq!(r.best_score, single(0.75));
}

#[test]
fn only_the_best_five_are_cited() {
    let k = known(&["a", "b", "c", "d", "e", "f"]);
    let r = k.context_for(&scores(&[0.4, 0.5, 0.6, 0.7, 0.8, 0.9]));
    let names: Vec<&str> = r.sources.iter().map(|(s, _)| s.as_str()).collect();
    assert_eq!(names, vec!["f", "e", "d", "c", "b"]);
}

#[test]
fn the_floor_counts_as_evidence_in_retrieval_too() {
    let k = known(&["a", "b"]);
    let r = k.context_for(&scores(&[0.35, 0.3499]));
    assert_eq!(r.sources, vec![("a".to_string(), single(0.35))]);
}
