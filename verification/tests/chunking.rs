use chatbot::chunking::{
    is_blank, paragraphs_of, split_into_chunks, split_long_block, CHUNK_TARGET_CHARS,
};

#[test]
fn short_text_is_one_chunk() {
    let chunks = split_into_chunks("hello world");
    assert_eq!(chunks.len(), 1);
}

#[test]
fn long_text_splits_and_overlaps() {
    let para = "x".repeat(700);
    let text = format!("{para}\n\n{para}\n\n{para}");
    let chunks = split_into_chunks(&text);
    assert!(chunks.len() >= 2, "expected a split, got {}", chunks.len());
}

#[test]
fn multibyte_text_is_never_cut_in_half() {
    // If we sliced by byte offset this would panic or corrupt.
    let para = "日本語のテキストです。".repeat(200);
    let text = format!("{para}\n\n{para}");
    let chunks = split_into_chunks(&text);
    assert!(!chunks.is_empty());
    for c in &chunks {
        assert!(c.chars().count() > 0);
    }
}

#[test]
fn empty_input_yields_nothing() {
    assert!(split_into_chunks("   \n\n  \n\n ").is_empty());
}

#[test]
fn neighbouring_chunks_share_a_paragraph() {
    let a = "a".repeat(700);
    let b = "b".repeat(700);
    let c = "c".repeat(700);
    let chunks = split_into_chunks(&format!("{a}\n\n{b}\n\n{c}"));
    assert_eq!(
        chunks,
        vec![
            format!("{a}\n\n{b}"),
            format!("{b}\n\n{c}"),
            c.clone(),
        ]
    );
}

#[test]
fn a_chunk_is_cut_once_it_reaches_the_target() {
    assert_eq!(CHUNK_TARGET_CHARS, 1200);
    let just_under = "a".repeat(1199);
    assert_eq!(split_into_chunks(&just_under), vec![just_under.clone()]);
    // The last paragraph is carried over, so a single one of target size comes twice.
    let exact = "a".repeat(1200);
    assert_eq!(split_into_chunks(&exact), vec![exact.clone(), exact.clone()]);
}

#[test]
fn length_is_counted_in_bytes() {
    // 400 characters of three bytes each reach the target.
    let para = "語".repeat(400);
    assert_eq!(split_into_chunks(&para).len(), 2);
    let less = "語".repeat(399);
    assert_eq!(split_into_chunks(&less).len(), 1);
}

#[test]
fn a_huge_paragraph_is_cut_between_lines() {
    let line = "x".repeat(700);
    let block = format!("{line}\n{line}\n{line}\n{line}");
    let before = "before".to_string();
    let after = "after".to_string();
    let chunks = split_into_chunks(&format!("{before}\n\n{block}\n\n{after}"));
    assert_eq!(
        chunks,
        vec![
            before,
            format!("{line}\n"),
            format!("{line}\n"),
            format!("{line}\n"),
            format!("{line}\n"),
            after,
        ]
    );
}

#[test]
fn a_paragraph_of_twice_the_target_is_not_yet_huge() {
    let para = "x".repeat(2400);
    assert_eq!(split_into_chunks(&para), vec![para.clone(), para.clone()]);
    let more = "x".repeat(2401);
    assert_eq!(split_into_chunks(&more), vec![format!("{more}\n")]);
}

#[test]
fn long_blocks_keep_their_lines() {
    let long = "y".repeat(1196);
    let block = format!("ab\r\n{long}\ncd");
    assert_eq!(
        split_long_block(&block),
        vec![format!("ab\n{long}\n"), "cd\n".to_string()]
    );
    assert_eq!(split_long_block(""), Vec::<String>::new());
    assert_eq!(split_long_block(" \n\t"), Vec::<String>::new());
}

#[test]
fn paragraphs_are_trimmed_and_blank_ones_dropped() {
    assert_eq!(
        paragraphs_of(" a \n\n\n\n b\nc \n\n \t \n\nd"),
        vec!["a", "b\nc", "d"]
    );
    assert_eq!(paragraphs_of("a\n\n\nb"), vec!["a", "b"]);
    assert!(paragraphs_of("").is_empty());
}

#[test]
fn blank_is_nothing_but_whitespace() {
    assert!(is_blank(""));
    assert!(is_blank(" \u{2003}\n"));
    assert!(!is_blank(" . "));
}
