use omnirecall::similarity::SCORE_SCALE;
use omnirecall::store::{DocumentChunk, VectorStore};

fn chunk(id: &str, doc: &str, content: &str, embedding: Vec<i64>, index: usize) -> DocumentChunk {
    DocumentChunk {
        id: id.to_string(),
        document_id: doc.to_string(),
        document_name: format!("{} (name)", doc),
        content: content.to_string(),
        embedding,
        chunk_index: index,
        token_count: content.len() / 4,
    }
}

#[test]
fn new_store_is_empty() {
    let store = VectorStore::new();
    assert_eq!(store.get_chunk_count().unwrap(), 0);
    let stats = store.get_index_stats().unwrap();
    assert_eq!(stats.chunk_count, 0);
    assert!(!stats.indexed);
}

#[test]
fn store_chunk_inserts_and_replaces_by_id() {
    let mut store = VectorStore::new();
    store.store_chunk(&chunk("c1", "A", "first", vec![1000, 0], 0)).unwrap();
    store.store_chunk(&chunk("c2", "A", "second", vec![0, 1000], 1)).unwrap();
    assert_eq!(store.get_chunk_count().unwrap(), 2);
    // same id again: replace, not append
    store.store_chunk(&chunk("c1", "A", "first v2", vec![500, 500], 0)).unwrap();
    assert_eq!(store.get_chunk_count().unwrap(), 2);
    let chunks = store.get_document_chunks("A").unwrap();
    assert!(chunks.iter().any(|c| c.content == "first v2"));
    assert!(!chunks.iter().any(|c| c.content == "first"));
}

#[test]
fn remove_document_is_idempotent() {
    let mut store = VectorStore::new();
    store.store_chunk(&chunk("c1", "A", "a text", vec![1000], 0)).unwrap();
    store.store_chunk(&chunk("c2", "B", "b text", vec![1000], 0)).unwrap();
    store.remove_document("A").unwrap();
    assert_eq!(store.get_chunk_count().unwrap(), 1);
    store.remove_document("A").unwrap();
    assert_eq!(store.get_chunk_count().unwrap(), 1);
    assert!(!store.document_exists("A").unwrap());
    assert!(store.document_exists("B").unwrap());
}

#[test]
fn document_chunks_come_back_in_index_order() {
    let mut store = VectorStore::new();
    store.store_chunk(&chunk("c3", "A", "third", vec![1], 2)).unwrap();
    store.store_chunk(&chunk("c1", "A", "first", vec![1], 0)).unwrap();
    store.store_chunk(&chunk("x", "B", "other", vec![1], 0)).unwrap();
    store.store_chunk(&chunk("c2", "A", "second", vec![1], 1)).unwrap();
    let chunks = store.get_document_chunks("A").unwrap();
    let contents: Vec<&str> = chunks.iter().map(|c| c.content.as_str()).collect();
    assert_eq!(contents, vec!["first", "second", "third"]);
}

#[test]
fn clear_index_empties_the_store() {
    let mut store = VectorStore::new();
    store.store_chunk(&chunk("c1", "A", "a text", vec![1000], 0)).unwrap();
    store.clear_index().unwrap();
    assert_eq!(store.get_chunk_count().unwrap(), 0);
    let stats = store.get_index_stats().unwrap();
    assert!(!stats.indexed);
}

// Scenario: three stored chunks, query along the first axis; the two
// closest come back in order with scores 1.0 and roughly 0.994.
#[test]
fn search_scenario_three_chunks() {
    let mut store = VectorStore::new();
    store.store_chunk(&chunk("c1", "A", "aligned", vec![1000, 0, 0], 0)).unwrap();
    store.store_chunk(&chunk("c2", "A", "close", vec![900, 100, 0], 1)).unwrap();
    store.store_chunk(&chunk("c3", "A", "orthogonal", vec![0, 1000, 0], 2)).unwrap();
    let query = vec![1000, 0, 0];
    let results = store.search(&query, 2).unwrap();
    assert_eq!(results.len(), 2);
    assert_eq!(results[0].chunk.content, "aligned");
    assert_eq!(results[1].chunk.content, "close");
    assert_eq!(results[0].score, SCORE_SCALE);
    assert!((results[1].score - 994_000).abs() < 1000);
}

// Search ordering: results are non-increasing in score and never exceed
// top_k.
#[test]
fn search_ordering_and_length() {
    let mut store = VectorStore::new();
    let embeddings = vec![
        vec![100, 900, 0],
        vec![1000, 0, 0],
        vec![500, 500, 0],
        vec![0, 0, 1000],
        vec![900, 100, 0],
    ];
    for (i, e) in embeddings.into_iter().enumerate() {
        store
            .store_chunk(&chunk(&format!("c{}", i), "A", &format!("content {}", i), e, i))
            .unwrap();
    }
    let query = vec![1000, 0, 0];
    for top_k in 0..7 {
        let results = store.search(&query, top_k).unwrap();
        assert!(results.len() <= top_k);
        assert_eq!(results.len(), top_k.min(5));
        for w in results.windows(2) {
            assert!(w[0].score >= w[1].score);
        }
    }
}

#[test]
fn search_ties_break_by_stored_order() {
    let mut store = VectorStore::new();
    // identical embeddings: identical scores, stored order decides
    store.store_chunk(&chunk("c1", "A", "first stored", vec![1000, 0], 0)).unwrap();
    store.store_chunk(&chunk("c2", "A", "second stored", vec![1000, 0], 1)).unwrap();
    let results = store.search(&vec![1000, 0], 2).unwrap();
    assert_eq!(results[0].chunk.content, "first stored");
    assert_eq!(results[1].chunk.content, "second stored");
}

// The SQLite-backed store accepts the same operations; an in-memory
// database exercises the schema and write path.
#[test]
fn sqlite_backed_store_roundtrip() {
    let mut store = VectorStore::open_in_memory().unwrap();
    store.store_chunk(&chunk("c1", "A", "persisted text", vec![1000, 0, 0], 0)).unwrap();
    store.store_chunk(&chunk("c2", "B", "other doc", vec![0, 1000, 0], 0)).unwrap();
    assert_eq!(store.get_chunk_count().unwrap(), 2);
    assert!(store.document_exists("A").unwrap());
    let results = store.search(&vec![1000, 0, 0], 10).unwrap();
    assert_eq!(results[0].chunk.content, "persisted text");
    store.remove_document("A").unwrap();
    assert_eq!(store.get_chunk_count().unwrap(), 1);
}

// A file-backed store keeps its chunks across a close and reopen,
// including negative embedding coordinates (blob encode/decode).
#[test]
fn sqlite_file_store_survives_reopen() {
    let path = "/tmp/omnirecall_store_reopen_test.db";
    {
        let mut store = VectorStore::open(path).unwrap();
        store.clear_index().unwrap();
        store
            .store_chunk(&chunk("c1", "A", "durable text", vec![1000, -250, 0], 3))
            .unwrap();
    }
    let store = VectorStore::open(path).unwrap();
    assert_eq!(store.get_chunk_count().unwrap(), 1);
    let chunks = store.get_document_chunks("A").unwrap();
    assert_eq!(chunks[0].content, "durable text");
    assert_eq!(chunks[0].embedding, vec![1000, -250, 0]);
    assert_eq!(chunks[0].chunk_index, 3);
}

fn row(id: &str, content: &str, embedding: &[i64], index: i64) -> omnirecall::store::StoredRow {
    omnirecall::store::StoredRow {
        id: id.to_string(),
        document_id: "A".to_string(),
        document_name: "A (name)".to_string(),
        content: content.to_string(),
        embedding_blob: embedding.iter().flat_map(|v| v.to_le_bytes()).collect(),
        chunk_index: index,
        token_count: content.len() as i64 / 4,
    }
}

// The row fold behind opening a store: invalid rows are dropped, later
// rows replace earlier ones of the same id, blobs decode by value
// (little-endian, two's complement).
#[test]
fn build_chunks_keeps_valid_rows_in_order() {
    let rows = vec![
        row("c1", "kept", &[1000, -250], 0),
        row("c2", "", &[1000], 1),                 // empty content: dropped
        row("c3", "unscorable", &[2_000_000_000], 2), // coordinate out of bounds: dropped
        row("c4", "negative index", &[1000], -1),  // bad index: dropped
        row("c1", "replaced", &[7, -7], 0),        // same id: replaces the first
    ];
    let chunks = omnirecall::store::build_chunks(&rows);
    assert_eq!(chunks.len(), 1);
    assert_eq!(chunks[0].id, "c1");
    assert_eq!(chunks[0].content, "replaced");
    assert_eq!(chunks[0].embedding, vec![7, -7]);
}

#[test]
fn build_chunks_drops_partial_blob_groups() {
    let mut r = row("c1", "short blob", &[42], 0);
    r.embedding_blob.push(0xFF); // 9 bytes: trailing partial group ignored
    let chunks = omnirecall::store::build_chunks(&vec![r]);
    assert_eq!(chunks[0].embedding, vec![42]);
}

// An unopenable database path fails with the Database error variant.
#[test]
fn open_unreachable_path_is_database_error() {
    let r = VectorStore::open("/nonexistent-dir-for-omnirecall/sub/vectors.db");
    match r {
        Ok(_) => panic!("open should fail on a missing directory"),
        Err(e) => assert!(matches!(e, omnirecall::errors::AppError::Database(_))),
    }
}
