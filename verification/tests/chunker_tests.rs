use omnirecall::chunker::DocumentPipeline;

fn texts(chunks: &[omnirecall::chunker::TextChunk]) -> Vec<String> {
    chunks.iter().map(|c| c.text.clone()).collect()
}

#[test]
fn split_sentences_on_boundaries() {
    let p = DocumentPipeline::new();
    let s = p.split_sentences("One. Two! Three?\nFour");
    assert_eq!(s, vec!["One.", "Two!", "Three?", "Four"]);
}

#[test]
fn split_sentences_drops_empty_units() {
    let p = DocumentPipeline::new();
    let s = p.split_sentences("  \n\n Hi. \n ");
    assert_eq!(s, vec!["Hi."]);
}

#[test]
fn split_sentences_empty_input() {
    let p = DocumentPipeline::new();
    let s = p.split_sentences("");
    assert!(s.is_empty());
}

#[test]
fn estimate_tokens_is_ceiling_of_quarter() {
    let p = DocumentPipeline::new();
    assert_eq!(p.estimate_tokens(""), 0);
    assert_eq!(p.estimate_tokens("abc"), 1);
    assert_eq!(p.estimate_tokens("abcd"), 1);
    assert_eq!(p.estimate_tokens("abcde"), 2);
    assert_eq!(p.estimate_tokens("abcdefgh"), 2);
}

#[test]
fn chunk_text_greedy_with_overlap() {
    let p = DocumentPipeline::new();
    let chunks = p.chunk_text("One. Two. Three.", 1, 50);
    assert_eq!(texts(&chunks), vec!["One.", "One. Two.", "Two. Three."]);
    assert_eq!(chunks[0].token_count, 1);
    assert_eq!(chunks[1].token_count, 2);
    // "Two." estimates 1 token, "Three." estimates 2
    assert_eq!(chunks[2].token_count, 3);
}

#[test]
fn chunk_text_empty_input_gives_no_chunks() {
    let p = DocumentPipeline::new();
    assert!(p.chunk_text("", 512, 50).is_empty());
}

#[test]
fn chunk_text_oversized_sentence_emitted_whole() {
    let p = DocumentPipeline::new();
    let text = "a single long sentence that runs on without any boundary at all";
    let chunks = p.chunk_text(text, 1, 0);
    assert_eq!(chunks.len(), 1);
    assert_eq!(chunks[0].text, text);
}

// Chunk coverage: with no overlap, concatenating the chunk texts
// reproduces the sentence sequence with nothing dropped.
#[test]
fn chunk_coverage_no_sentence_dropped() {
    let p = DocumentPipeline::new();
    let text = "Alpha. Beta. Gamma. Delta. Epsilon.";
    let sentences = p.split_sentences(text);
    let chunks = p.chunk_text(text, 2, 0);
    let mut rebuilt: Vec<String> = Vec::new();
    for c in &chunks {
        for s in p.split_sentences(&c.text) {
            rebuilt.push(s);
        }
    }
    assert_eq!(rebuilt, sentences);
}

// Overlap non-negativity: with overlap 0, consecutive chunks share no
// sentence.
#[test]
fn zero_overlap_shares_no_sentence() {
    let p = DocumentPipeline::new();
    let chunks = p.chunk_text("Alpha. Beta. Gamma. Delta. Epsilon.", 2, 0);
    assert!(chunks.len() >= 2);
    for w in chunks.windows(2) {
        let left = p.split_sentences(&w[0].text);
        let right = p.split_sentences(&w[1].text);
        for s in &left {
            assert!(!right.contains(s));
        }
    }
}

// Determinism: two calls on identical input give identical boundaries and
// token estimates (ids are fresh each time).
#[test]
fn chunking_is_deterministic() {
    let p = DocumentPipeline::new();
    let text = "One sentence. Another one follows! A third? And more text here.";
    let a = p.chunk_text(text, 512, 50);
    let b = p.chunk_text(text, 512, 50);
    assert_eq!(texts(&a), texts(&b));
    let ta: Vec<usize> = a.iter().map(|c| c.token_count).collect();
    let tb: Vec<usize> = b.iter().map(|c| c.token_count).collect();
    assert_eq!(ta, tb);
}

#[test]
fn chunk_ids_are_fresh_uuids() {
    let p = DocumentPipeline::new();
    let chunks = p.chunk_text("One. Two. Three.", 1, 0);
    assert_eq!(chunks.len(), 3);
    for c in &chunks {
        assert_eq!(c.id.len(), 36);
    }
    assert_ne!(chunks[0].id, chunks[1].id);
}

#[test]
fn page_count_is_one_for_pdf_only() {
    let p = DocumentPipeline::new();
    assert_eq!(p.get_page_count("notes/report.PDF").unwrap(), Some(1));
    assert_eq!(p.get_page_count("report.pdf").unwrap(), Some(1));
    assert_eq!(p.get_page_count("report.txt").unwrap(), None);
    assert_eq!(p.get_page_count("pdf").unwrap(), None);
    // a bare ".pdf" is a hidden file without an extension
    assert_eq!(p.get_page_count(".pdf").unwrap(), None);
}
