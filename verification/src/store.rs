//! The vector store: durable keyed storage of chunks with exact
//! brute-force cosine-similarity search.
//!
//! The store's contents are modelled by an in-memory sequence of chunks
//! with unique ids; an optional SQLite database mirrors every write and is
//! read back once when the store is opened. All ranking, replacement and
//! lookup logic operates on the in-memory model and is verified against
//! it; the database calls stand behind trusted wrappers and can only fail
//! an operation with `AppError::Database`, never change its meaning.

use vstd::prelude::*;
use crate::errors::AppError;
use crate::similarity::{bounded_embedding, cosine_similarity, cosine_sim, SCORE_SCALE};

verus! {

broadcast use vstd::seq_lib::group_to_multiset_ensures;

/// Largest `chunk_index` the store accepts; keeps index arithmetic safe.
pub const MAX_CHUNK_INDEX: u64 = 0x1000_0000_0000_0000;

/// A stored chunk: a span of a document's text with its embedding.
#[derive(Debug)]
pub struct DocumentChunk {
    pub id: String,
    pub document_id: String,
    pub document_name: String,
    pub content: String,
    pub embedding: Vec<i64>,
    pub chunk_index: usize,
    pub token_count: usize,
}

/// Mathematical value of a stored chunk.
pub struct ChunkView {
    pub id: Seq<char>,
    pub document_id: Seq<char>,
    pub document_name: Seq<char>,
    pub content: Seq<char>,
    pub embedding: Seq<i64>,
    pub chunk_index: int,
    pub token_count: int,
}

impl ChunkView {
    /// A chunk the store can hold: non-empty content, a scorable
    /// embedding, and a tame index.
    pub open spec fn wf(self) -> bool {
        &&& self.content.len() > 0
        &&& bounded_embedding(self.embedding)
        &&& 0 <= self.chunk_index < MAX_CHUNK_INDEX
    }
}

impl View for DocumentChunk {
    type V = ChunkView;

    open spec fn view(&self) -> ChunkView {
        ChunkView {
            id: self.id@,
            document_id: self.document_id@,
            document_name: self.document_name@,
            content: self.content@,
            embedding: self.embedding@,
            chunk_index: self.chunk_index as int,
            token_count: self.token_count as int,
        }
    }
}

impl Clone for DocumentChunk {
    /// A clone has the same mathematical value.
    fn clone(&self) -> (r: Self)
        ensures
            r@ == self@,
    {
        broadcast use vstd::std_specs::vec::vec_clone_deep_view_proof;

        let r = DocumentChunk {
            id: self.id.clone(),
            document_id: self.document_id.clone(),
            document_name: self.document_name.clone(),
            content: self.content.clone(),
            embedding: self.embedding.clone(),
            chunk_index: self.chunk_index,
            token_count: self.token_count,
        };
        proof {
            assert(r.embedding.deep_view() =~= r.embedding@);
            assert(self.embedding.deep_view() =~= self.embedding@);
        }
        r
    }
}

/// A search hit: a stored chunk and its fixed-point similarity score.
#[derive(Clone)]
pub struct SearchResult {
    pub chunk: DocumentChunk,
    pub score: i64,
}

/// Index statistics reported to the caller.
#[derive(Debug, Clone, PartialEq, Eq, Structural)]
pub struct IndexStats {
    pub chunk_count: usize,
    pub indexed: bool,
}

/// One raw row read back from the database, before validation: string
/// columns as stored, the embedding still in its blob form, and the two
/// integer columns as SQLite's signed 64-bit values.
pub struct StoredRow {
    pub id: String,
    pub document_id: String,
    pub document_name: String,
    pub content: String,
    pub embedding_blob: Vec<u8>,
    pub chunk_index: i64,
    pub token_count: i64,
}

/// The views of a sequence of chunks.
pub open spec fn chunk_views(s: Seq<DocumentChunk>) -> Seq<ChunkView> {
    s.map_values(|c: DocumentChunk| c@)
}

/// No two chunks share an id.
pub open spec fn ids_unique(s: Seq<ChunkView>) -> bool {
    forall|i: int, j: int| 0 <= i < j < s.len() ==> (#[trigger] s[i]).id != (#[trigger] s[j]).id
}

/// Index of the first chunk with this id, or -1.
pub open spec fn find_id(s: Seq<ChunkView>, id: Seq<char>) -> int
    decreases s.len(),
{
    if s.len() == 0 {
        -1
    } else if s[0].id == id {
        0
    } else {
        let r = find_id(s.drop_first(), id);
        if r < 0 {
            -1
        } else {
            r + 1
        }
    }
}

/// `find_id` finds the first occurrence, if any.
pub proof fn lemma_find_id(s: Seq<ChunkView>, id: Seq<char>)
    ensures
        -1 <= find_id(s, id) < s.len(),
        find_id(s, id) >= 0 ==> s[find_id(s, id)].id == id,
        find_id(s, id) == -1 ==> forall|i: int| 0 <= i < s.len() ==> (#[trigger] s[i]).id != id,
        forall|i: int| 0 <= i < find_id(s, id) ==> (#[trigger] s[i]).id != id,
    decreases s.len(),
{
    if s.len() > 0 && s[0].id != id {
        lemma_find_id(s.drop_first(), id);
        assert(forall|i: int|
            1 <= i < s.len() ==> (#[trigger] s[i]) == s.drop_first()[i - 1]);
    }
}

/// A position holding `id` with none before it is where `find_id` points.
pub proof fn lemma_find_id_is_first(s: Seq<ChunkView>, id: Seq<char>, i: int)
    requires
        0 <= i < s.len(),
        s[i].id == id,
        forall|j: int| 0 <= j < i ==> (#[trigger] s[j]).id != id,
    ensures
        find_id(s, id) == i,
    decreases s.len(),
{
    if i > 0 {
        lemma_find_id_is_first(s.drop_first(), id, i - 1);
        assert(forall|j: int|
            1 <= j < s.len() ==> (#[trigger] s[j]) == s.drop_first()[j - 1]);
        assert(s.drop_first()[i - 1] == s[i]);
    }
}

/// Insert-or-replace by id: the meaning of `store_chunk`.
pub open spec fn upsert_spec(s: Seq<ChunkView>, c: ChunkView) -> Seq<ChunkView> {
    let i = find_id(s, c.id);
    if i >= 0 {
        s.update(i, c)
    } else {
        s.push(c)
    }
}

/// Unsigned value of the 8 little-endian bytes of `b` starting at `base`.
pub open spec fn le_unsigned(b: Seq<u8>, base: int) -> int {
    b[base] + 0x100 * b[base + 1] + 0x1_0000 * b[base + 2] + 0x100_0000 * b[base + 3]
        + 0x1_0000_0000 * b[base + 4] + 0x100_0000_0000 * b[base + 5] + 0x1_0000_0000_0000 * b[base
        + 6] + 0x100_0000_0000_0000 * b[base + 7]
}

/// Two's-complement reading of a 64-bit unsigned value.
pub open spec fn as_signed_64(u: int) -> int {
    if u <= i64::MAX {
        u
    } else {
        u - 0x1_0000_0000_0000_0000
    }
}

/// The coordinates encoded in a row's embedding blob: one signed 64-bit
/// little-endian value per 8-byte group, a trailing partial group dropped.
pub open spec fn row_embedding(row: StoredRow) -> Seq<i64> {
    Seq::new(
        row.embedding_blob@.len() / 8,
        |i: int| as_signed_64(le_unsigned(row.embedding_blob@, 8 * i)) as i64,
    )
}

/// Whether a raw row may enter the store: non-empty content, index and
/// count in range, and a decoded embedding the engine can score.
pub open spec fn row_ok(row: StoredRow) -> bool {
    &&& row.content@.len() > 0
    &&& 0 <= row.chunk_index < MAX_CHUNK_INDEX
    &&& row.chunk_index <= usize::MAX
    &&& 0 <= row.token_count <= usize::MAX
    &&& bounded_embedding(row_embedding(row))
}

/// The chunk a valid raw row stands for.
pub open spec fn row_view(row: StoredRow) -> ChunkView {
    ChunkView {
        id: row.id@,
        document_id: row.document_id@,
        document_name: row.document_name@,
        content: row.content@,
        embedding: row_embedding(row),
        chunk_index: row.chunk_index as int,
        token_count: row.token_count as int,
    }
}

/// The store contents built from raw rows, in order: rows that fail
/// `row_ok` are dropped, the rest are inserted-or-replaced by id. This is
/// the meaning of `build_chunks`, and so of what opening a store does
/// with whatever the database returned.
pub open spec fn chunks_from_rows(rows: Seq<StoredRow>) -> Seq<ChunkView>
    decreases rows.len(),
{
    if rows.len() == 0 {
        Seq::empty()
    } else {
        let rest = chunks_from_rows(rows.drop_last());
        if row_ok(rows.last()) {
            upsert_spec(rest, row_view(rows.last()))
        } else {
            rest
        }
    }
}

/// All chunks except those of one document, in stored order: the meaning
/// of `remove_document`.
pub open spec fn remove_doc_spec(s: Seq<ChunkView>, document_id: Seq<char>) -> Seq<ChunkView>
    decreases s.len(),
{
    if s.len() == 0 {
        Seq::empty()
    } else {
        let rest = remove_doc_spec(s.drop_last(), document_id);
        if s.last().document_id == document_id {
            rest
        } else {
            rest.push(s.last())
        }
    }
}

/// The chunks of one document, in stored order.
pub open spec fn doc_chunks_spec(s: Seq<ChunkView>, document_id: Seq<char>) -> Seq<ChunkView>
    decreases s.len(),
{
    if s.len() == 0 {
        Seq::empty()
    } else {
        let rest = doc_chunks_spec(s.drop_last(), document_id);
        if s.last().document_id == document_id {
            rest.push(s.last())
        } else {
            rest
        }
    }
}

/// Removing a document keeps a subsequence: every kept chunk was stored,
/// ids stay unique, and no kept chunk belongs to the removed document.
pub proof fn lemma_remove_doc_spec(s: Seq<ChunkView>, document_id: Seq<char>)
    requires
        ids_unique(s),
    ensures
        ({
            let r = remove_doc_spec(s, document_id);
            &&& ids_unique(r)
            &&& forall|i: int| 0 <= i < r.len() ==> s.contains(#[trigger] r[i])
            &&& forall|i: int| 0 <= i < r.len() ==> (#[trigger] r[i]).document_id != document_id
            &&& r.len() <= s.len()
        }),
    decreases s.len(),
{
    if s.len() > 0 {
        let prefix = s.drop_last();
        assert(ids_unique(prefix)) by {
            assert(forall|i: int|
                0 <= i < prefix.len() ==> (#[trigger] prefix[i]) == s[i]);
        }
        lemma_remove_doc_spec(prefix, document_id);
        let r = remove_doc_spec(s, document_id);
        let rp = remove_doc_spec(prefix, document_id);
        assert(forall|i: int| 0 <= i < prefix.len() ==> s.contains(#[trigger] prefix[i]));
        if s.last().document_id != document_id {
            assert(r == rp.push(s.last()));
            assert(s.contains(s.last()));
            assert forall|i: int, j: int| 0 <= i < j < r.len() implies (#[trigger] r[i]).id != (
            #[trigger] r[j]).id by {
                if j == r.len() - 1 {
                    let v = r[i];
                    assert(rp[i] == v);
                    assert(prefix.contains(v));
                    let x = choose|x: int| 0 <= x < prefix.len() && prefix[x] == v;
                    assert(s[x] == v);
                    assert(s[s.len() - 1] == s.last());
                }
            }
        }
    }
}

/// The rusqlite connection type, carried opaquely inside the store.
#[verifier::external_type_specification]
#[verifier::external_body]
pub struct ExConnection(rusqlite::Connection);

/// Relies on `rusqlite::Connection::open`: opens (creating if needed) the
/// SQLite database file at `path`.
#[verifier::external_body]
fn db_open(path: &str) -> (r: Result<rusqlite::Connection, AppError>)
    ensures
        r matches Err(e) ==> e matches AppError::Database(_),
{
    rusqlite::Connection::open(path).map_err(
        |e| AppError::Database(format!("failed to open database: {}", e)),
    )
}

/// Relies on `rusqlite::Connection::open_in_memory`: opens a fresh
/// in-memory SQLite database.
#[verifier::external_body]
fn db_open_in_memory() -> (r: Result<rusqlite::Connection, AppError>)
    ensures
        r matches Err(e) ==> e matches AppError::Database(_),
{
    rusqlite::Connection::open_in_memory().map_err(
        |e| AppError::Database(format!("failed to open database: {}", e)),
    )
}

/// Relies on `rusqlite::Connection::execute_batch`: runs the schema
/// statements, creating the chunks table and its indexes if absent.
#[verifier::external_body]
fn db_init_schema(conn: &rusqlite::Connection) -> (r: Result<(), AppError>)
    ensures
        r matches Err(e) ==> e matches AppError::Database(_),
{
    conn.execute_batch(
        "CREATE TABLE IF NOT EXISTS chunks (
            id TEXT PRIMARY KEY,
            document_id TEXT NOT NULL,
            document_name TEXT NOT NULL,
            content TEXT NOT NULL,
            embedding BLOB NOT NULL,
            chunk_index INTEGER NOT NULL,
            token_count INTEGER NOT NULL,
            created_at TEXT DEFAULT CURRENT_TIMESTAMP
        );
        CREATE INDEX IF NOT EXISTS idx_chunks_document_id ON chunks(document_id);
        CREATE INDEX IF NOT EXISTS idx_chunks_document_name ON chunks(document_name);",
    ).map_err(|e| AppError::Database(format!("failed to create schema: {}", e)))
}

/// Relies on `rusqlite::Connection::execute` with `INSERT OR REPLACE`:
/// writes one chunk row keyed by id; the embedding is stored as its
/// coordinates' little-endian bytes.
#[verifier::external_body]
fn db_put_chunk(conn: &rusqlite::Connection, chunk: &DocumentChunk) -> (r: Result<(), AppError>)
    ensures
        r matches Err(e) ==> e matches AppError::Database(_),
{
    let blob: Vec<u8> = chunk.embedding.iter().flat_map(|v| v.to_le_bytes()).collect();
    conn.execute(
        "INSERT OR REPLACE INTO chunks (id, document_id, document_name, content, embedding, chunk_index, token_count)
         VALUES (?1, ?2, ?3, ?4, ?5, ?6, ?7)",
        (
            &chunk.id,
            &chunk.document_id,
            &chunk.document_name,
            &chunk.content,
            &blob,
            chunk.chunk_index as i64,
            chunk.token_count as i64,
        ),
    ).map(|_| ()).map_err(|e| AppError::Database(format!("failed to store chunk: {}", e)))
}

/// Relies on `rusqlite::Connection::execute` with `DELETE`: removes every
/// row of one document.
#[verifier::external_body]
fn db_delete_document(conn: &rusqlite::Connection, document_id: &str) -> (r: Result<
    (),
    AppError,
>)
    ensures
        r matches Err(e) ==> e matches AppError::Database(_),
{
    conn.execute("DELETE FROM chunks WHERE document_id = ?1", (document_id,)).map(|_| ()).map_err(
        |e| AppError::Database(format!("failed to remove document: {}", e)),
    )
}

/// Relies on `rusqlite::Connection::execute` with `DELETE`: removes every
/// row of the table.
#[verifier::external_body]
fn db_clear(conn: &rusqlite::Connection) -> (r: Result<(), AppError>)
    ensures
        r matches Err(e) ==> e matches AppError::Database(_),
{
    conn.execute("DELETE FROM chunks", ()).map(|_| ()).map_err(
        |e| AppError::Database(format!("failed to clear index: {}", e)),
    )
}

/// Relies on `rusqlite::Connection::prepare` and `Statement::query_map`:
/// reads every stored row back; the closure only picks the row's columns.
#[verifier::external_body]
fn db_load_rows(conn: &rusqlite::Connection) -> (r: Result<Vec<StoredRow>, AppError>)
    ensures
        r matches Err(e) ==> e matches AppError::Database(_),
{
    let q = "SELECT id, document_id, document_name, content, embedding, chunk_index, token_count FROM chunks";
    let rows = conn.prepare(q).and_then(|mut stmt| {
        stmt.query_map((), |row| {
            Ok(StoredRow {
                id: row.get(0)?,
                document_id: row.get(1)?,
                document_name: row.get(2)?,
                content: row.get(3)?,
                embedding_blob: row.get(4)?,
                chunk_index: row.get(5)?,
                token_count: row.get(6)?,
            })
        })?.collect()
    });
    rows.map_err(|e| AppError::Database(format!("failed to load chunks: {}", e)))
}

/// Decode an embedding blob: each group of 8 bytes, little-endian, gives
/// one two's-complement coordinate; a trailing partial group is dropped.
/// This inverts the encoding `db_put_chunk` writes.
fn decode_embedding(blob: &Vec<u8>) -> (r: Vec<i64>)
    ensures
        r@.len() == blob@.len() / 8,
        forall|i: int|
            0 <= i < r@.len() ==> (#[trigger] r@[i]) as int == as_signed_64(
                le_unsigned(blob@, 8 * i),
            ),
{
    let n = blob.len() / 8;
    let mut r: Vec<i64> = Vec::new();
    let mut i: usize = 0;
    while i < n
        invariant
            r@.len() == i,
            i <= n,
            n == blob@.len() / 8,
            blob@.len() <= usize::MAX,
            forall|j: int|
                0 <= j < i ==> (#[trigger] r@[j]) as int == as_signed_64(
                    le_unsigned(blob@, 8 * j),
                ),
        decreases n - i,
    {
        proof {
            assert((i as int) * 8 + 8 <= blob@.len()) by (nonlinear_arith)
                requires
                    (i as int) < n as int,
                    n as int == blob@.len() as int / 8,
            ;
        }
        let base = i * 8;
        let u: u64 = (blob[base] as u64) + 0x100u64 * (blob[base + 1] as u64) + 0x1_0000u64 * (
        blob[base + 2] as u64) + 0x100_0000u64 * (blob[base + 3] as u64) + 0x1_0000_0000u64 * (
        blob[base + 4] as u64) + 0x100_0000_0000u64 * (blob[base + 5] as u64)
            + 0x1_0000_0000_0000u64 * (blob[base + 6] as u64) + 0x100_0000_0000_0000u64 * (blob[base
            + 7] as u64);
        proof {
            assert(u as int == le_unsigned(blob@, 8 * (i as int)));
        }
        let v: i64 = if u <= (i64::MAX as u64) {
            u as i64
        } else {
            -((u64::MAX - u) as i64) - 1
        };
        proof {
            assert(v as int == as_signed_64(u as int));
        }
        r.push(v);
        i = i + 1;
    }
    r
}

/// Build the in-memory model from raw database rows: keep exactly the
/// rows that satisfy `row_ok`, in order, inserting-or-replacing by id.
/// The result is pinned to the spec-level fold `chunks_from_rows`.
pub fn build_chunks(rows: &Vec<StoredRow>) -> (r: Vec<DocumentChunk>)
    ensures
        chunk_views(r@) == chunks_from_rows(rows@),
        ids_unique(chunk_views(r@)),
        forall|j: int|
            0 <= j < chunk_views(r@).len() ==> (#[trigger] chunk_views(r@)[j]).wf(),
{
    let mut chunks: Vec<DocumentChunk> = Vec::new();
    proof {
        assert(chunk_views(chunks@) =~= Seq::<ChunkView>::empty());
        assert(rows@.take(0) =~= Seq::<StoredRow>::empty());
    }
    let n = rows.len();
    let mut i: usize = 0;
    while i < n
        invariant
            i <= n,
            n == rows@.len(),
            chunk_views(chunks@) == chunks_from_rows(rows@.take(i as int)),
            ids_unique(chunk_views(chunks@)),
            forall|j: int|
                0 <= j < chunk_views(chunks@).len() ==> (#[trigger] chunk_views(chunks@)[j]).wf(),
        decreases n - i,
    {
        let ghost prev = chunks_from_rows(rows@.take(i as int));
        proof {
            assert(rows@.take(i + 1).drop_last() =~= rows@.take(i as int));
            assert(rows@.take(i + 1).last() == rows@[i as int]);
        }
        let row = &rows[i];
        let embedding = decode_embedding(&row.embedding_blob);
        proof {
            assert(embedding@ =~= row_embedding(rows@[i as int]));
        }
        let content_ok = row.content.as_str().unicode_len() > 0;
        let index_ok = row.chunk_index >= 0 && (row.chunk_index as u64) < MAX_CHUNK_INDEX && (
        row.chunk_index as u64) <= (usize::MAX as u64);
        let count_ok = row.token_count >= 0 && (row.token_count as u64) <= (usize::MAX as u64);
        let emb_ok = check_embedding(&embedding);
        proof {
            assert((content_ok && index_ok && count_ok && emb_ok) == row_ok(rows@[i as int]));
        }
        if content_ok && index_ok && count_ok && emb_ok {
            let chunk = DocumentChunk {
                id: row.id.clone(),
                document_id: row.document_id.clone(),
                document_name: row.document_name.clone(),
                content: row.content.clone(),
                embedding,
                chunk_index: row.chunk_index as usize,
                token_count: row.token_count as usize,
            };
            proof {
                assert(chunk@ == row_view(rows@[i as int]));
            }
            mem_upsert(&mut chunks, chunk);
            proof {
                assert(chunk_views(chunks@) == upsert_spec(prev, row_view(rows@[i as int])));
            }
        }
        i = i + 1;
    }
    proof {
        assert(rows@.take(n as int) =~= rows@);
    }
    chunks
}

/// Whether this embedding is within the engine's scoring bounds.
pub fn check_embedding(v: &Vec<i64>) -> (r: bool)
    ensures
        r == bounded_embedding(v@),
{
    if v.len() > crate::similarity::MAX_DIM {
        return false;
    }
    let mut i: usize = 0;
    while i < v.len()
        invariant
            i <= v@.len(),
            v@.len() <= crate::similarity::MAX_DIM,
            forall|j: int|
                0 <= j < i ==> -crate::similarity::EMB_LIMIT <= #[trigger] v@[j]
                    <= crate::similarity::EMB_LIMIT,
        decreases v@.len() - i,
    {
        if v[i] < -crate::similarity::EMB_LIMIT || v[i] > crate::similarity::EMB_LIMIT {
            return false;
        }
        i = i + 1;
    }
    true
}

/// The vector store.
pub struct VectorStore {
    chunks: Vec<DocumentChunk>,
    conn: Option<rusqlite::Connection>,
}

impl View for VectorStore {
    type V = Seq<ChunkView>;

    closed spec fn view(&self) -> Seq<ChunkView> {
        chunk_views(self.chunks@)
    }
}

impl VectorStore {
    /// Whether this store mirrors its writes to a database.
    pub closed spec fn has_backing(&self) -> bool {
        self.conn is Some
    }

    /// Store invariant: unique ids, every chunk well-formed.
    pub open spec fn wf(&self) -> bool {
        &&& ids_unique(self@)
        &&& forall|i: int| 0 <= i < self@.len() ==> (#[trigger] self@[i]).wf()
    }

    /// A fresh store with no persistence: contents live only in memory.
    pub fn new() -> (s: Self)
        ensures
            s.wf(),
            s@ =~= Seq::<ChunkView>::empty(),
            !s.has_backing(),
    {
        let s = VectorStore { chunks: Vec::new(), conn: None };
        proof {
            assert(chunk_views(s.chunks@) =~= Seq::<ChunkView>::empty());
        }
        s
    }

    /// Open (or create) the store backed by the SQLite database at
    /// `path`, loading the chunks already on disk: the loaded rows are
    /// folded into the model by `build_chunks`, so rows that fail
    /// `row_ok` (empty content, out-of-range index or count, unscorable
    /// embedding) are dropped and later rows replace earlier ones of the
    /// same id. Fails only with `AppError::Database`.
    pub fn open(path: &str) -> (r: Result<VectorStore, AppError>)
        ensures
            r matches Ok(s) ==> s.wf() && s.has_backing(),
            r matches Err(e) ==> e matches AppError::Database(_),
    {
        let conn = match db_open(path) {
            Ok(c) => c,
            Err(e) => {
                return Err(e);
            },
        };
        Self::from_connection(conn)
    }

    /// Open the store backed by a fresh in-memory SQLite database.
    /// Fails only with `AppError::Database`.
    pub fn open_in_memory() -> (r: Result<VectorStore, AppError>)
        ensures
            r matches Ok(s) ==> s.wf() && s.has_backing(),
            r matches Err(e) ==> e matches AppError::Database(_),
    {
        let conn = match db_open_in_memory() {
            Ok(c) => c,
            Err(e) => {
                return Err(e);
            },
        };
        Self::from_connection(conn)
    }

    /// Create the schema, load what the database holds, and build the
    /// in-memory model from the rows. What is done with the loaded rows
    /// is exactly `build_chunks` (and so `chunks_from_rows`); only the
    /// rows themselves depend on the disk.
    fn from_connection(conn: rusqlite::Connection) -> (r: Result<VectorStore, AppError>)
        ensures
            r matches Ok(s) ==> s.wf() && s.has_backing(),
            r matches Err(e) ==> e matches AppError::Database(_),
    {
        if let Err(e) = db_init_schema(&conn) {
            return Err(e);
        }
        let rows = match db_load_rows(&conn) {
            Ok(rows) => rows,
            Err(e) => {
                return Err(e);
            },
        };
        let chunks = build_chunks(&rows);
        Ok(VectorStore { chunks, conn: Some(conn) })
    }

    /// Insert or replace a chunk by id. The write is mirrored to the
    /// database first; on a database error the store is unchanged. A
    /// store without a database cannot fail.
    pub fn store_chunk(&mut self, chunk: &DocumentChunk) -> (r: Result<(), AppError>)
        requires
            old(self).wf(),
            chunk@.wf(),
        ensures
            final(self).wf(),
            final(self).has_backing() == old(self).has_backing(),
            r matches Ok(()) ==> final(self)@ == upsert_spec(old(self)@, chunk@),
            r matches Err(e) ==> final(self)@ == old(self)@ && e matches AppError::Database(_),
            !old(self).has_backing() ==> r matches Ok(()),
    {
        if let Some(conn) = &self.conn {
            if let Err(e) = db_put_chunk(conn, chunk) {
                return Err(e);
            }
        }
        let c = chunk.clone();
        mem_upsert(&mut self.chunks, c);
        Ok(())
    }

    /// Remove every chunk of one document; idempotent. The delete is
    /// mirrored to the database first; on a database error the store is
    /// unchanged. A store without a database cannot fail.
    pub fn remove_document(&mut self, document_id: &str) -> (r: Result<(), AppError>)
        requires
            old(self).wf(),
        ensures
            final(self).wf(),
            final(self).has_backing() == old(self).has_backing(),
            r matches Ok(()) ==> final(self)@ == remove_doc_spec(old(self)@, document_id@),
            r matches Err(e) ==> final(self)@ == old(self)@ && e matches AppError::Database(_),
            !old(self).has_backing() ==> r matches Ok(()),
    {
        if let Some(conn) = &self.conn {
            if let Err(e) = db_delete_document(conn, document_id) {
                return Err(e);
            }
        }
        proof {
            lemma_remove_doc_spec(self@, document_id@);
        }
        let mut kept: Vec<DocumentChunk> = Vec::new();
        proof {
            assert(chunk_views(kept@) =~= Seq::<ChunkView>::empty());
            assert(self@.take(0) =~= Seq::<ChunkView>::empty());
        }
        let n = self.chunks.len();
        let mut i: usize = 0;
        while i < n
            invariant
                i <= n,
                n == self.chunks@.len(),
                self@ == chunk_views(self.chunks@),
                chunk_views(kept@) == remove_doc_spec(self@.take(i as int), document_id@),
            decreases n - i,
        {
            let ghost prev = chunk_views(kept@);
            if !str_eq(self.chunks[i].document_id.as_str(), document_id) {
                let c = self.chunks[i].clone();
                kept.push(c);
                proof {
                    assert(chunk_views(kept@) =~= prev.push(self@[i as int]));
                }
            }
            proof {
                assert(self@.take(i + 1).drop_last() =~= self@.take(i as int));
                assert(self@.take(i + 1).last() == self@[i as int]);
            }
            i = i + 1;
        }
        proof {
            assert(self@.take(n as int) =~= self@);
        }
        self.chunks = kept;
        Ok(())
    }

    /// Total number of stored chunks.
    pub fn get_chunk_count(&self) -> (r: Result<usize, AppError>)
        ensures
            r matches Ok(n) && n == self@.len(),
    {
        Ok(self.chunks.len())
    }

    /// Whether any chunk of this document is stored.
    pub fn document_exists(&self, document_id: &str) -> (r: Result<bool, AppError>)
        ensures
            r matches Ok(b) && (b <==> exists|i: int|
                0 <= i < self@.len() && (#[trigger] self@[i]).document_id == document_id@),
    {
        let n = self.chunks.len();
        let mut i: usize = 0;
        while i < n
            invariant
                i <= n,
                n == self.chunks@.len(),
                self@ == chunk_views(self.chunks@),
                forall|j: int| 0 <= j < i ==> (#[trigger] self@[j]).document_id != document_id@,
            decreases n - i,
        {
            if str_eq(self.chunks[i].document_id.as_str(), document_id) {
                proof {
                    assert(self@[i as int].document_id == document_id@);
                }
                return Ok(true);
            }
            i = i + 1;
        }
        Ok(false)
    }

    /// Delete the whole index. The database is cleared first; on a
    /// database error the store is unchanged.
    pub fn clear_index(&mut self) -> (r: Result<(), AppError>)
        requires
            old(self).wf(),
        ensures
            final(self).wf(),
            final(self).has_backing() == old(self).has_backing(),
            r matches Ok(()) ==> final(self)@ =~= Seq::<ChunkView>::empty(),
            r matches Err(e) ==> final(self)@ == old(self)@ && e matches AppError::Database(_),
            !old(self).has_backing() ==> r matches Ok(()),
    {
        if let Some(conn) = &self.conn {
            if let Err(e) = db_clear(conn) {
                return Err(e);
            }
        }
        self.chunks = Vec::new();
        proof {
            assert(chunk_views(self.chunks@) =~= Seq::<ChunkView>::empty());
        }
        Ok(())
    }

    /// Chunk count and whether anything is indexed.
    pub fn get_index_stats(&self) -> (r: Result<IndexStats, AppError>)
        ensures
            r matches Ok(s) && s.chunk_count == self@.len() && (s.indexed <==> self@.len() > 0),
    {
        let n = self.chunks.len();
        Ok(IndexStats { chunk_count: n, indexed: n > 0 })
    }
}

/// The ranked scoreboard behind a search result: a rank-sorted
/// rearrangement of the store's scored pairs whose prefix the result
/// mirrors.
pub open spec fn search_scoreboard(
    full: Seq<(i64, usize)>,
    s: Seq<ChunkView>,
    q: Seq<i64>,
    v: Seq<SearchResult>,
) -> bool {
    &&& full.to_multiset() == scored_pairs(s, q).to_multiset()
    &&& full.len() == s.len()
    &&& rank_sorted(full)
    &&& idx_distinct(full)
    &&& (forall|j: int|
        0 <= j < v.len() ==> {
            &&& (#[trigger] v[j]).score == full[j].0
            &&& 0 <= full[j].1 < s.len()
            &&& v[j].chunk@ == s[full[j].1 as int]
        })
}

/// Everything `search` promises of its result `v`: at most `top_k` hits,
/// exactly `top_k` unless the store is smaller, scores non-increasing and
/// each the exact cosine similarity of its chunk, and a rank-sorted
/// scoreboard behind the prefix.
pub open spec fn search_post(
    s: Seq<ChunkView>,
    q: Seq<i64>,
    top_k: int,
    v: Seq<SearchResult>,
) -> bool {
    &&& v.len() <= top_k
    &&& v.len() == (if top_k <= s.len() {
        top_k
    } else {
        s.len() as int
    })
    &&& (forall|i: int, j: int|
        0 <= i < j < v.len() ==> (#[trigger] v[i]).score >= (#[trigger] v[j]).score)
    &&& (forall|j: int|
        0 <= j < v.len() ==> (#[trigger] v[j]).score as int == cosine_sim(q, v[j].chunk@.embedding))
    &&& exists|full: Seq<(i64, usize)>| #[trigger] search_scoreboard(full, s, q, v)
}

impl VectorStore {
    /// Exact brute-force similarity search: every stored chunk is scored
    /// against the query by fixed-point cosine similarity, ranked by
    /// descending score with ties broken by stored order, and the first
    /// `top_k` are returned. Cannot fail.
    #[verifier::rlimit(60)]
    pub fn search(&self, query_embedding: &Vec<i64>, top_k: usize) -> (r: Result<
        Vec<SearchResult>,
        AppError,
    >)
        requires
            self.wf(),
            bounded_embedding(query_embedding@),
        ensures
            r matches Ok(v) && search_post(self@, query_embedding@, top_k as int, v@),
    {
        let ghost q = query_embedding@;
        let ghost sp = scored_pairs(self@, q);
        let n = self.chunks.len();
        let mut pairs: Vec<(i64, usize)> = Vec::new();
        let mut i: usize = 0;
        while i < n
            invariant
                i <= n,
                n == self.chunks@.len(),
                self@ == chunk_views(self.chunks@),
                self.wf(),
                q == query_embedding@,
                bounded_embedding(q),
                sp == scored_pairs(self@, q),
                pairs@.len() == i,
                forall|t: int| 0 <= t < i ==> (#[trigger] pairs@[t]) == sp[t],
            decreases n - i,
        {
            proof {
                assert(self@[i as int].wf());
            }
            let sc = cosine_similarity(query_embedding, &self.chunks[i].embedding);
            proof {
                crate::similarity::lemma_cosine_bounded(q, self@[i as int].embedding);
                assert(sp[i as int].0 == sc);
                assert(sp[i as int].1 == i as usize);
            }
            pairs.push((sc, i));
            i = i + 1;
        }
        proof {
            assert(pairs@ =~= sp);
            assert(idx_distinct(sp)) by {
                assert(forall|a: int|
                    0 <= a < sp.len() ==> (#[trigger] sp[a]).1 == a as usize);
            }
        }
        let mut sorted = sort_by_rank(pairs);
        let ghost full = sorted@;
        sorted.truncate(top_k);
        let ghost len_out: int = if top_k as int <= n as int {
            top_k as int
        } else {
            n as int
        };
        proof {
            assert(sorted@ =~= full.subrange(0, len_out));
        }
        let mut results: Vec<SearchResult> = Vec::new();
        let m = sorted.len();
        let mut j: usize = 0;
        while j < m
            invariant
                j <= m,
                m == sorted@.len(),
                m == len_out,
                sorted@ =~= full.subrange(0, len_out),
                0 <= len_out <= full.len(),
                full.to_multiset() == sp.to_multiset(),
                full.len() == n,
                rank_sorted(full),
                idx_distinct(full),
                sp == scored_pairs(self@, q),
                self@ == chunk_views(self.chunks@),
                n == self.chunks@.len(),
                self.wf(),
                q == query_embedding@,
                results@.len() == j,
                forall|t: int|
                    0 <= t < j ==> {
                        &&& (#[trigger] results@[t]).score == full[t].0
                        &&& 0 <= full[t].1 < n
                        &&& results@[t].chunk@ == self@[full[t].1 as int]
                    },
            decreases m - j,
        {
            let (sc, idx) = sorted[j];
            proof {
                assert(full[j as int] == sorted@[j as int]);
                assert(full.contains(full[j as int]));
                assert(full.to_multiset().count(full[j as int]) > 0);
                assert(sp.to_multiset().count(full[j as int]) > 0);
                assert(sp.contains(full[j as int]));
                let w = choose|w: int| 0 <= w < sp.len() && sp[w] == full[j as int];
                assert(sp[w].1 == w as usize);
                assert(idx == w);
            }
            let chunk = self.chunks[idx].clone();
            results.push(SearchResult { chunk, score: sc });
            j = j + 1;
        }
        proof {
            assert forall|a: int, b: int| 0 <= a < b < results@.len() implies (
            #[trigger] results@[a]).score >= (#[trigger] results@[b]).score by {
                assert(rank_before(full[a], full[b]));
            }
            assert forall|t: int| 0 <= t < results@.len() implies (#[trigger] results@[t]).score
                as int == cosine_sim(q, results@[t].chunk@.embedding) by {
                assert(full.contains(full[t]));
                assert(sp.to_multiset().count(full[t]) > 0);
                assert(sp.contains(full[t]));
                let w = choose|w: int| 0 <= w < sp.len() && sp[w] == full[t];
                crate::similarity::lemma_cosine_bounded(q, self@[w].embedding);
            }
            assert(self@.len() == n);
            assert forall|t: int| 0 <= t < results@.len() implies {
                &&& (#[trigger] results@[t]).score == full[t].0
                &&& 0 <= full[t].1 < self@.len()
                &&& results@[t].chunk@ == self@[full[t].1 as int]
            } by {
                assert(results@[t].score == full[t].0);
                assert(0 <= full[t].1 < n);
                assert(results@[t].chunk@ == self@[full[t].1 as int]);
            }
            assert(search_scoreboard(full, self@, query_embedding@, results@));
            assert(search_post(self@, query_embedding@, top_k as int, results@));
        }
        Ok(results)
    }

    /// All stored chunks of one document, ordered by `chunk_index`
    /// (ties by stored order). Cannot fail.
    pub fn get_document_chunks(&self, document_id: &str) -> (r: Result<Vec<DocumentChunk>, AppError>)
        requires
            self.wf(),
        ensures
            r matches Ok(v) && {
                &&& v@.len() == doc_chunks_spec(self@, document_id@).len()
                &&& (forall|j: int|
                    0 <= j < v@.len() ==> (#[trigger] v@[j])@.document_id == document_id@)
                &&& (forall|j: int|
                    0 <= j < v@.len() ==> exists|i: int|
                        0 <= i < self@.len() && self@[i] == (#[trigger] v@[j])@)
                &&& (forall|i: int, j: int|
                    0 <= i < j < v@.len() ==> (#[trigger] v@[i])@.chunk_index <= (
                    #[trigger] v@[j])@.chunk_index)
                &&& (forall|i: int, j: int|
                    0 <= i < j < v@.len() ==> (#[trigger] v@[i])@.id != (#[trigger] v@[j])@.id)
            },
    {
        let n = self.chunks.len();
        let mut pairs: Vec<(i64, usize)> = Vec::new();
        let mut i: usize = 0;
        proof {
            assert(self@.take(0) =~= Seq::<ChunkView>::empty());
        }
        while i < n
            invariant
                i <= n,
                n == self.chunks@.len(),
                self@ == chunk_views(self.chunks@),
                self.wf(),
                pairs@.len() == doc_chunks_spec(self@.take(i as int), document_id@).len(),
                forall|t: int|
                    0 <= t < pairs@.len() ==> {
                        &&& 0 <= (#[trigger] pairs@[t]).1 < i
                        &&& self@[pairs@[t].1 as int].document_id == document_id@
                        &&& pairs@[t].0 as int == -self@[pairs@[t].1 as int].chunk_index
                    },
                forall|a: int, b: int|
                    0 <= a < b < pairs@.len() ==> (#[trigger] pairs@[a]).1 < (#[trigger] pairs@[b]).1,
            decreases n - i,
        {
            proof {
                assert(self@.take(i + 1).drop_last() =~= self@.take(i as int));
                assert(self@.take(i + 1).last() == self@[i as int]);
            }
            if str_eq(self.chunks[i].document_id.as_str(), document_id) {
                let key: i64 = -(self.chunks[i].chunk_index as i64);
                pairs.push((key, i));
            }
            i = i + 1;
        }
        proof {
            assert(self@.take(n as int) =~= self@);
        }
        let ghost gp = pairs@;
        let sorted = sort_by_rank(pairs);
        let mut results: Vec<DocumentChunk> = Vec::new();
        let m = sorted.len();
        let mut j: usize = 0;
        while j < m
            invariant
                j <= m,
                m == sorted@.len(),
                m == gp.len(),
                sorted@.to_multiset() == gp.to_multiset(),
                rank_sorted(sorted@),
                idx_distinct(sorted@),
                self@ == chunk_views(self.chunks@),
                n == self.chunks@.len(),
                self.wf(),
                forall|t: int|
                    0 <= t < gp.len() ==> {
                        &&& 0 <= (#[trigger] gp[t]).1 < n
                        &&& self@[gp[t].1 as int].document_id == document_id@
                        &&& gp[t].0 as int == -self@[gp[t].1 as int].chunk_index
                    },
                results@.len() == j,
                forall|t: int|
                    0 <= t < j ==> {
                        &&& (#[trigger] results@[t])@.document_id == document_id@
                        &&& 0 <= sorted@[t].1 < n
                        &&& results@[t]@ == self@[sorted@[t].1 as int]
                        &&& results@[t]@.chunk_index == -(sorted@[t].0 as int)
                    },
            decreases m - j,
        {
            let (key, idx) = sorted[j];
            proof {
                assert(sorted@.contains(sorted@[j as int]));
                assert(sorted@.to_multiset().count(sorted@[j as int]) > 0);
                assert(gp.to_multiset().count(sorted@[j as int]) > 0);
                assert(gp.contains(sorted@[j as int]));
                let w = choose|w: int| 0 <= w < gp.len() && gp[w] == sorted@[j as int];
                assert(0 <= gp[w].1 < n);
            }
            let chunk = self.chunks[idx].clone();
            results.push(chunk);
            j = j + 1;
        }
        proof {
            assert forall|a: int, b: int| 0 <= a < b < results@.len() implies (
            #[trigger] results@[a])@.chunk_index <= (#[trigger] results@[b])@.chunk_index by {
                assert(rank_before(sorted@[a], sorted@[b]));
            }
            assert forall|a: int, b: int| 0 <= a < b < results@.len() implies (
            #[trigger] results@[a])@.id != (#[trigger] results@[b])@.id by {
                assert(results@[a]@ == self@[sorted@[a].1 as int]);
                assert(results@[b]@ == self@[sorted@[b].1 as int]);
                assert(0 <= sorted@[a].1 < n);
                assert(0 <= sorted@[b].1 < n);
                assert(sorted@[a].1 != sorted@[b].1);
                assert(ids_unique(self@));
                let pa = sorted@[a].1 as int;
                let pb = sorted@[b].1 as int;
                assert(self@.len() == n);
                if pa < pb {
                    assert(self@[pa].id != self@[pb].id);
                } else {
                    assert(self@[pb].id != self@[pa].id);
                }
            }
            assert forall|t: int| 0 <= t < results@.len() implies exists|i2: int|
                0 <= i2 < self@.len() && self@[i2] == (#[trigger] results@[t])@ by {
                assert(self@[sorted@[t].1 as int] == results@[t]@);
            }
        }
        Ok(results)
    }
}

/// Ranking order on `(score, original position)` pairs: higher score
/// first, ties broken by the earlier stored position (a stable sort).
pub open spec fn rank_before(a: (i64, usize), b: (i64, usize)) -> bool {
    a.0 > b.0 || (a.0 == b.0 && a.1 < b.1)
}

/// Strictly rank-ordered (well-defined on pairs with distinct positions).
pub open spec fn rank_sorted(s: Seq<(i64, usize)>) -> bool {
    forall|i: int, j: int| 0 <= i < j < s.len() ==> rank_before(#[trigger] s[i], #[trigger] s[j])
}

/// All original positions distinct.
pub open spec fn idx_distinct(s: Seq<(i64, usize)>) -> bool {
    forall|i: int, j: int| 0 <= i < j < s.len() ==> (#[trigger] s[i]).1 != (#[trigger] s[j]).1
}

/// The scored pairs of a store against a query: each stored chunk's
/// similarity score with its position.
pub open spec fn scored_pairs(s: Seq<ChunkView>, q: Seq<i64>) -> Seq<(i64, usize)> {
    Seq::new(s.len(), |i: int| (cosine_sim(q, s[i].embedding) as i64, i as usize))
}

/// Sort pairs by descending score, ties by ascending original position
/// (selection of the unique maximum each round): a stable descending sort.
fn sort_by_rank(v: Vec<(i64, usize)>) -> (r: Vec<(i64, usize)>)
    requires
        idx_distinct(v@),
    ensures
        r@.to_multiset() == v@.to_multiset(),
        r@.len() == v@.len(),
        rank_sorted(r@),
        idx_distinct(r@),
{
    let mut rest = v;
    let mut out: Vec<(i64, usize)> = Vec::new();
    proof {
        assert(out@.to_multiset().add(rest@.to_multiset()) =~= v@.to_multiset());
    }
    while rest.len() > 0
        invariant
            out@.to_multiset().add(rest@.to_multiset()) == v@.to_multiset(),
            out@.len() + rest@.len() == v@.len(),
            rank_sorted(out@),
            idx_distinct(out@),
            idx_distinct(rest@),
            forall|a: int, b: int|
                0 <= a < out@.len() && 0 <= b < rest@.len() ==> (#[trigger] out@[a]).1 != (
                #[trigger] rest@[b]).1,
            forall|a: int, b: int|
                0 <= a < out@.len() && 0 <= b < rest@.len() ==> rank_before(
                    #[trigger] out@[a],
                    #[trigger] rest@[b],
                ),
        decreases rest@.len(),
    {
        let mut best: usize = 0;
        let mut j: usize = 1;
        while j < rest.len()
            invariant
                best < j <= rest@.len(),
                rest@.len() > 0,
                idx_distinct(rest@),
                forall|t: int|
                    0 <= t < j ==> t == best || rank_before(rest@[best as int], #[trigger] rest@[t]),
            decreases rest@.len() - j,
        {
            let (sj, ij) = rest[j];
            let (sb, ib) = rest[best];
            if sj > sb || (sj == sb && ij < ib) {
                best = j;
            }
            j = j + 1;
        }
        let pick = rest.remove(best);
        let ghost prev_out = out@;
        let ghost prev_rest_ms = rest@.to_multiset().insert(pick);
        out.push(pick);
        proof {
            assert(out@ == prev_out.push(pick));
            assert(out@.to_multiset() =~= prev_out.to_multiset().insert(pick));
            assert(out@.to_multiset().add(rest@.to_multiset()) =~= prev_out.to_multiset().add(
                prev_rest_ms,
            ));
        }
    }
    proof {
        assert(out@.to_multiset() =~= v@.to_multiset());
    }
    out
}

/// Relies on `str`'s `PartialEq`: string slices compare by their
/// characters.
#[verifier::external_body]
fn str_eq(a: &str, b: &str) -> (r: bool)
    ensures
        r == (a@ == b@),
{
    a == b
}

/// Insert or replace by id in the in-memory model.
fn mem_upsert(chunks: &mut Vec<DocumentChunk>, chunk: DocumentChunk)
    requires
        ids_unique(chunk_views(old(chunks)@)),
        forall|i: int|
            0 <= i < chunk_views(old(chunks)@).len() ==> (#[trigger] chunk_views(old(chunks)@)[i]).wf(),
        chunk@.wf(),
    ensures
        chunk_views(final(chunks)@) == upsert_spec(chunk_views(old(chunks)@), chunk@),
        ids_unique(chunk_views(final(chunks)@)),
        forall|i: int|
            0 <= i < chunk_views(final(chunks)@).len() ==> (#[trigger] chunk_views(
                final(chunks)@,
            )[i]).wf(),
{
    let ghost s = chunk_views(chunks@);
    let n = chunks.len();
    let mut i: usize = 0;
    proof {
        lemma_find_id(s, chunk@.id);
    }
    while i < n
        invariant
            i <= n,
            n == chunks@.len(),
            s == chunk_views(chunks@),
            s == chunk_views(old(chunks)@),
            ids_unique(s),
            forall|j: int| 0 <= j < s.len() ==> (#[trigger] s[j]).wf(),
            chunk@.wf(),
            forall|j: int| 0 <= j < i ==> (#[trigger] s[j]).id != chunk@.id,
        decreases n - i,
    {
        if str_eq(chunks[i].id.as_str(), chunk.id.as_str()) {
            let ghost gi = i as int;
            proof {
                lemma_find_id_is_first(s, chunk@.id, gi);
            }
            let _ = chunks.remove(i);
            chunks.insert(i, chunk);
            proof {
                let u = s.update(gi, chunk@);
                assert(chunk_views(chunks@) =~= u);
                assert(forall|x: int| 0 <= x < s.len() ==> (#[trigger] u[x]).id == s[x].id);
                assert(ids_unique(u));
                assert(forall|x: int| 0 <= x < u.len() ==> (#[trigger] u[x]).wf());
            }
            return ;
        }
        i = i + 1;
    }
    proof {
        lemma_find_id(s, chunk@.id);
        if find_id(s, chunk@.id) >= 0 {
            assert(s[find_id(s, chunk@.id)].id == chunk@.id);
            assert(false);
        }
    }
    chunks.push(chunk);
    proof {
        let u = s.push(chunk@);
        assert(chunk_views(chunks@) =~= u);
        assert(forall|x: int| 0 <= x < s.len() ==> (#[trigger] u[x]) == s[x]);
        assert(u[s.len() as int] == chunk@);
        assert(ids_unique(u));
        assert(forall|x: int| 0 <= x < u.len() ==> (#[trigger] u[x]).wf());
    }
}

} // verus!
