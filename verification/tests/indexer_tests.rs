use omnirecall::chunker::TextChunk;
use omnirecall::errors::EmbeddingError;
use omnirecall::indexer::index_document;
use omnirecall::store::VectorStore;

fn draft(id: &str, text: &str) -> TextChunk {
    TextChunk {
        id: id.to_string(),
        text: text.to_string(),
        token_count: (text.len() + 3) / 4,
        page_number: None,
        section_header: None,
    }
}

#[test]
fn indexing_stores_embedded_chunks_densely() {
    let mut store = VectorStore::new();
    let drafts = vec![draft("d0", "zero"), draft("d1", "one"), draft("d2", "two")];
    let embeddings = vec![
        Ok(vec![1000, 0]),
        Err(EmbeddingError::RateLimited),
        Ok(vec![0, 1000]),
    ];
    let r = index_document(&mut store, "D", "Doc", &drafts, &embeddings);
    assert!(r.success);
    assert_eq!(r.chunks_created, 2);
    assert!(r.error.is_none());
    let chunks = store.get_document_chunks("D").unwrap();
    assert_eq!(chunks.len(), 2);
    assert_eq!(chunks[0].content, "zero");
    assert_eq!(chunks[0].chunk_index, 0);
    assert_eq!(chunks[1].content, "two");
    assert_eq!(chunks[1].chunk_index, 1);
    assert_eq!(chunks[0].document_name, "Doc");
}

#[test]
fn indexing_with_all_embeddings_failed_reports_error() {
    let mut store = VectorStore::new();
    let drafts = vec![draft("d0", "zero")];
    let embeddings: Vec<Result<Vec<i64>, EmbeddingError>> =
        vec![Err(EmbeddingError::NetworkError("down".to_string()))];
    let r = index_document(&mut store, "D", "Doc", &drafts, &embeddings);
    assert!(!r.success);
    assert_eq!(r.chunks_created, 0);
    assert_eq!(r.error.as_deref(), Some("no chunks could be embedded"));
    assert_eq!(store.get_chunk_count().unwrap(), 0);
}

#[test]
fn indexing_nothing_is_not_an_error() {
    let mut store = VectorStore::new();
    let drafts: Vec<TextChunk> = vec![];
    let embeddings: Vec<Result<Vec<i64>, EmbeddingError>> = vec![];
    let r = index_document(&mut store, "D", "Doc", &drafts, &embeddings);
    assert!(!r.success);
    assert_eq!(r.chunks_created, 0);
    assert!(r.error.is_none());
}

// Replace semantics: indexing a document twice leaves exactly the chunks
// of the second indexing, verified via count and via search content.
#[test]
fn reindexing_replaces_not_appends() {
    let mut store = VectorStore::new();
    let other = vec![draft("x0", "unrelated")];
    let other_embeddings = vec![Ok(vec![0, 0, 1000])];
    index_document(&mut store, "OTHER", "Other", &other, &other_embeddings);

    let first = vec![draft("a0", "stale one"), draft("a1", "stale two")];
    let first_embeddings = vec![Ok(vec![1000, 0, 0]), Ok(vec![900, 100, 0])];
    let r1 = index_document(&mut store, "D", "Doc", &first, &first_embeddings);
    assert_eq!(r1.chunks_created, 2);
    assert_eq!(store.get_chunk_count().unwrap(), 3);

    let second = vec![draft("b0", "fresh only")];
    let second_embeddings = vec![Ok(vec![1000, 0, 0])];
    let r2 = index_document(&mut store, "D", "Doc", &second, &second_embeddings);
    assert_eq!(r2.chunks_created, 1);
    assert_eq!(store.get_chunk_count().unwrap(), 2);

    let results = store.search(&vec![1000, 0, 0], 10).unwrap();
    for hit in &results {
        assert!(hit.chunk.content != "stale one");
        assert!(hit.chunk.content != "stale two");
    }
    assert!(results.iter().any(|h| h.chunk.content == "fresh only"));
    let d_chunks = store.get_document_chunks("D").unwrap();
    assert_eq!(d_chunks.len(), 1);
    assert_eq!(d_chunks[0].content, "fresh only");
}

#[test]
fn indexing_skips_unscorable_embeddings() {
    let mut store = VectorStore::new();
    let drafts = vec![draft("d0", "kept"), draft("d1", "dropped")];
    // second embedding is out of the engine's coordinate bounds
    let embeddings = vec![Ok(vec![1000]), Ok(vec![2_000_000_000])];
    let r = index_document(&mut store, "D", "Doc", &drafts, &embeddings);
    assert_eq!(r.chunks_created, 1);
    let chunks = store.get_document_chunks("D").unwrap();
    assert_eq!(chunks.len(), 1);
    assert_eq!(chunks[0].content, "kept");
}
