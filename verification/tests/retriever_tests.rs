use omnirecall::retriever::retrieve_context;
use omnirecall::store::{DocumentChunk, VectorStore};

fn chunk(id: &str, name: &str, content: &str, embedding: Vec<i64>, index: usize) -> DocumentChunk {
    DocumentChunk {
        id: id.to_string(),
        document_id: "D".to_string(),
        document_name: name.to_string(),
        content: content.to_string(),
        embedding,
        chunk_index: index,
        token_count: content.len() / 4,
    }
}

// Scenario: retrieval on an empty store returns the empty string.
#[test]
fn empty_store_gives_empty_context() {
    let store = VectorStore::new();
    let query = vec![1000, 0, 0];
    assert_eq!(retrieve_context(&store, &query, 4000, 10), "");
}

#[test]
fn context_has_header_content_and_separator() {
    let mut store = VectorStore::new();
    store.store_chunk(&chunk("c1", "Doc", "abcdefgh", vec![1000, 0, 0], 0)).unwrap();
    let query = vec![1000, 0, 0];
    let ctx = retrieve_context(&store, &query, 4000, 10);
    assert_eq!(ctx, "[Doc | score 1.000000]\nabcdefgh\n\n");
}

// Budget respect: the included chunks' estimated cost (chars / 4) never
// exceeds max_tokens.
#[test]
fn budget_is_respected() {
    let mut store = VectorStore::new();
    // three chunks of 40 characters each: cost 10 apiece
    for i in 0..3 {
        let content = "x".repeat(40);
        store
            .store_chunk(&chunk(&format!("c{}", i), "Doc", &content, vec![1000, 0, 0], i))
            .unwrap();
    }
    for budget in [0usize, 9, 10, 19, 20, 25, 30, 100] {
        let ctx = retrieve_context(&store, &vec![1000, 0, 0], budget, 10);
        let included = ctx.matches("x".repeat(40).as_str()).count();
        assert!(included * 10 <= budget, "budget {} broken", budget);
        assert_eq!(included, (budget / 10).min(3));
    }
}

#[test]
fn budget_stop_excludes_partial_chunks() {
    let mut store = VectorStore::new();
    store.store_chunk(&chunk("c1", "Doc", &"a".repeat(8), vec![1000, 0, 0], 0)).unwrap();
    store.store_chunk(&chunk("c2", "Doc", &"b".repeat(80), vec![999, 10, 0], 1)).unwrap();
    // budget 3: first chunk costs 2, second costs 20 and must not appear
    let ctx = retrieve_context(&store, &vec![1000, 0, 0], 3, 10);
    assert!(ctx.contains(&"a".repeat(8)));
    assert!(!ctx.contains("b"));
}

// Relevance cutoff: after three included results, a candidate scoring
// below 0.5 stops the assembly even with budget to spare.
#[test]
fn low_relevance_tail_is_cut_after_three() {
    let mut store = VectorStore::new();
    for i in 0..3 {
        store
            .store_chunk(&chunk(&format!("c{}", i), "Doc", &format!("relevant {}", i), vec![
                1000, 0, 0,
            ], i))
            .unwrap();
    }
    store.store_chunk(&chunk("c9", "Doc", "irrelevant tail", vec![0, 1000, 0], 9)).unwrap();
    let ctx = retrieve_context(&store, &vec![1000, 0, 0], 4000, 10);
    assert!(ctx.contains("relevant 0"));
    assert!(ctx.contains("relevant 1"));
    assert!(ctx.contains("relevant 2"));
    assert!(!ctx.contains("irrelevant tail"));
}

#[test]
fn low_scores_within_first_three_are_kept() {
    let mut store = VectorStore::new();
    store.store_chunk(&chunk("c1", "Doc", "weak match", vec![0, 1000, 0], 0)).unwrap();
    let ctx = retrieve_context(&store, &vec![1000, 0, 0], 4000, 10);
    // a single low-scoring result is still included (cutoff needs three)
    assert!(ctx.contains("weak match"));
    assert!(ctx.contains("score 0.000000"));
}

#[test]
fn search_k_limits_candidates() {
    let mut store = VectorStore::new();
    for i in 0..5 {
        store
            .store_chunk(&chunk(&format!("c{}", i), "Doc", &format!("text {}", i), vec![
                1000, 0, 0,
            ], i))
            .unwrap();
    }
    let ctx = retrieve_context(&store, &vec![1000, 0, 0], 4000, 2);
    assert_eq!(ctx.matches("text ").count(), 2);
}
