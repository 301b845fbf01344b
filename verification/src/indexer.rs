//! The indexer: replaces a document's chunks with freshly embedded ones.
//!
//! Indexing first removes every stored chunk of the document
//! (replace-not-append), then walks the chunk drafts in order: a draft
//! whose embedding call failed is skipped, every successfully embedded
//! draft is upserted with its `chunk_index` set to its position among the
//! stored chunks (dense and increasing). Indexing always returns a result
//! object; `success` means at least one chunk was stored.

use vstd::prelude::*;
use crate::chunker::TextChunk;
use crate::errors::{AppError, EmbeddingError};
use crate::similarity::bounded_embedding;
use crate::store::{
    check_embedding, doc_chunks_spec, find_id, ids_unique, lemma_find_id, lemma_remove_doc_spec,
    remove_doc_spec, upsert_spec, ChunkView, DocumentChunk, VectorStore, MAX_CHUNK_INDEX,
};

verus! {

/// Outcome of indexing one document.
#[derive(Debug, Clone)]
pub struct IndexResult {
    pub chunks_created: usize,
    pub success: bool,
    pub error: Option<String>,
}

/// The chunks that indexing a document keeps: one per draft whose
/// embedding succeeded and is scorable, numbered densely in draft order.
pub open spec fn kept_views(
    doc_id: Seq<char>,
    doc_name: Seq<char>,
    drafts: Seq<TextChunk>,
    embs: Seq<Result<Vec<i64>, EmbeddingError>>,
) -> Seq<ChunkView>
    decreases drafts.len(),
{
    if drafts.len() == 0 || embs.len() < drafts.len() {
        Seq::empty()
    } else {
        let rest = kept_views(doc_id, doc_name, drafts.drop_last(), embs.take(drafts.len() - 1));
        match embs[drafts.len() - 1] {
            Ok(v) => {
                if bounded_embedding(v@) && drafts.last().text@.len() > 0 && rest.len()
                    < MAX_CHUNK_INDEX {
                    rest.push(
                        ChunkView {
                            id: drafts.last().id@,
                            document_id: doc_id,
                            document_name: doc_name,
                            content: drafts.last().text@,
                            embedding: v@,
                            chunk_index: rest.len() as int,
                            token_count: drafts.last().token_count as int,
                        },
                    )
                } else {
                    rest
                }
            },
            Err(_) => rest,
        }
    }
}

/// Every kept chunk belongs to the document, is well-formed, and carries
/// its position as its `chunk_index` (dense and increasing).
pub proof fn lemma_kept_views(
    doc_id: Seq<char>,
    doc_name: Seq<char>,
    drafts: Seq<TextChunk>,
    embs: Seq<Result<Vec<i64>, EmbeddingError>>,
)
    ensures
        ({
            let kept = kept_views(doc_id, doc_name, drafts, embs);
            &&& kept.len() <= drafts.len()
            &&& forall|j: int|
                0 <= j < kept.len() ==> {
                    &&& (#[trigger] kept[j]).document_id == doc_id
                    &&& kept[j].document_name == doc_name
                    &&& kept[j].chunk_index == j
                    &&& kept[j].wf()
                }
        }),
    decreases drafts.len(),
{
    if drafts.len() > 0 && embs.len() >= drafts.len() {
        lemma_kept_views(doc_id, doc_name, drafts.drop_last(), embs.take(drafts.len() - 1));
    }
}

/// Upsert a batch of chunks, in order.
pub open spec fn upsert_all(s: Seq<ChunkView>, cs: Seq<ChunkView>) -> Seq<ChunkView>
    decreases cs.len(),
{
    if cs.len() == 0 {
        s
    } else {
        upsert_all(upsert_spec(s, cs.first()), cs.drop_first())
    }
}

/// Upserting one more chunk extends the batch.
pub proof fn lemma_upsert_all_push(s: Seq<ChunkView>, cs: Seq<ChunkView>, c: ChunkView)
    ensures
        upsert_all(s, cs.push(c)) == upsert_spec(upsert_all(s, cs), c),
    decreases cs.len(),
{
    if cs.len() == 0 {
        assert(cs.push(c).drop_first() =~= Seq::<ChunkView>::empty());
        assert(cs.push(c).first() == c);
        assert(upsert_all(s, cs) == s);
        assert(upsert_all(upsert_spec(s, c), Seq::<ChunkView>::empty()) == upsert_spec(s, c));
        assert(upsert_all(s, cs.push(c)) == upsert_all(
            upsert_spec(s, cs.push(c).first()),
            cs.push(c).drop_first(),
        ));
    } else {
        assert(cs.push(c).first() == cs.first());
        assert(cs.push(c).drop_first() =~= cs.drop_first().push(c));
        lemma_upsert_all_push(upsert_spec(s, cs.first()), cs.drop_first(), c);
        assert(upsert_all(s, cs.push(c)) == upsert_all(
            upsert_spec(s, cs.push(c).first()),
            cs.push(c).drop_first(),
        ));
        assert(upsert_all(s, cs) == upsert_all(upsert_spec(s, cs.first()), cs.drop_first()));
    }
}

/// A store with no chunk of a document yields nothing for it.
proof fn lemma_no_doc_chunks(s: Seq<ChunkView>, d: Seq<char>)
    requires
        forall|i: int| 0 <= i < s.len() ==> (#[trigger] s[i]).document_id != d,
    ensures
        doc_chunks_spec(s, d) == Seq::<ChunkView>::empty(),
    decreases s.len(),
{
    if s.len() > 0 {
        assert(forall|i: int|
            0 <= i < s.drop_last().len() ==> (#[trigger] s.drop_last()[i]) == s[i]);
        lemma_no_doc_chunks(s.drop_last(), d);
    }
}

/// Removing a document that has no chunks changes nothing.
proof fn lemma_remove_doc_none(s: Seq<ChunkView>, d: Seq<char>)
    requires
        forall|i: int| 0 <= i < s.len() ==> (#[trigger] s[i]).document_id != d,
    ensures
        remove_doc_spec(s, d) == s,
    decreases s.len(),
{
    if s.len() > 0 {
        assert(forall|i: int|
            0 <= i < s.drop_last().len() ==> (#[trigger] s.drop_last()[i]) == s[i]);
        lemma_remove_doc_none(s.drop_last(), d);
        assert(s.drop_last().push(s.last()) =~= s);
    }
}

/// Upserting chunks whose ids are fresh and mutually distinct appends
/// them.
proof fn lemma_upsert_all_fresh(s: Seq<ChunkView>, cs: Seq<ChunkView>)
    requires
        forall|i: int, j: int|
            0 <= i < s.len() && 0 <= j < cs.len() ==> (#[trigger] s[i]).id != (#[trigger] cs[j]).id,
        forall|a: int, b: int| 0 <= a < b < cs.len() ==> (#[trigger] cs[a]).id != (#[trigger] cs[b]).id,
    ensures
        upsert_all(s, cs) == s + cs,
    decreases cs.len(),
{
    if cs.len() == 0 {
        assert(s + cs =~= s);
    } else {
        let c0 = cs.first();
        lemma_find_id(s, c0.id);
        if find_id(s, c0.id) >= 0 {
            assert(s[find_id(s, c0.id)].id == c0.id);
            assert(false);
        }
        assert(upsert_spec(s, c0) == s.push(c0));
        let s2 = s.push(c0);
        let cs2 = cs.drop_first();
        assert(forall|j: int| 0 <= j < cs2.len() ==> (#[trigger] cs2[j]) == cs[j + 1]);
        assert forall|i: int, j: int|
            0 <= i < s2.len() && 0 <= j < cs2.len() implies (#[trigger] s2[i]).id != (
        #[trigger] cs2[j]).id by {
            if i < s.len() {
                assert(s[i].id != cs[j + 1].id);
            } else {
                assert(s2[i] == c0);
                assert(cs[0].id != cs[j + 1].id);
            }
        }
        lemma_upsert_all_fresh(s2, cs2);
        assert(s.push(c0) + cs.drop_first() =~= s + cs);
    }
}

/// The document's chunks of `base + b` are exactly `b`, when `base` has
/// none of them and `b` has only them.
proof fn lemma_doc_chunks_append(base: Seq<ChunkView>, b: Seq<ChunkView>, d: Seq<char>)
    requires
        forall|i: int| 0 <= i < base.len() ==> (#[trigger] base[i]).document_id != d,
        forall|j: int| 0 <= j < b.len() ==> (#[trigger] b[j]).document_id == d,
    ensures
        doc_chunks_spec(base + b, d) == b,
    decreases b.len(),
{
    if b.len() == 0 {
        assert(base + b =~= base);
        lemma_no_doc_chunks(base, d);
        assert(doc_chunks_spec(base + b, d) =~= b);
    } else {
        let b2 = b.drop_last();
        assert(forall|j: int| 0 <= j < b2.len() ==> (#[trigger] b2[j]) == b[j]);
        lemma_doc_chunks_append(base, b2, d);
        assert((base + b).drop_last() =~= base + b2);
        assert((base + b).last() == b.last());
        assert(doc_chunks_spec(base + b, d) == doc_chunks_spec(base + b2, d).push(b.last()));
        assert(b2.push(b.last()) =~= b);
    }
}

/// Removing the document from `base + b` gives back `base`, when `base`
/// has none of its chunks and `b` has only them.
proof fn lemma_remove_doc_append(base: Seq<ChunkView>, b: Seq<ChunkView>, d: Seq<char>)
    requires
        forall|i: int| 0 <= i < base.len() ==> (#[trigger] base[i]).document_id != d,
        forall|j: int| 0 <= j < b.len() ==> (#[trigger] b[j]).document_id == d,
    ensures
        remove_doc_spec(base + b, d) == base,
    decreases b.len(),
{
    if b.len() == 0 {
        assert(base + b =~= base);
        lemma_remove_doc_none(base, d);
    } else {
        let b2 = b.drop_last();
        assert(forall|j: int| 0 <= j < b2.len() ==> (#[trigger] b2[j]) == b[j]);
        lemma_remove_doc_append(base, b2, d);
        assert((base + b).drop_last() =~= base + b2);
        assert((base + b).last() == b.last());
    }
}

/// Replace semantics: indexing a document and then indexing it again
/// leaves exactly the second batch as the document's chunks, and the
/// chunks of every other document untouched. (The batches' ids must be
/// fresh — not reused by chunks of other documents — and distinct, as
/// generated ids are.)
pub proof fn lemma_reindex_replaces(
    s: Seq<ChunkView>,
    d: Seq<char>,
    b1: Seq<ChunkView>,
    b2: Seq<ChunkView>,
)
    requires
        ids_unique(s),
        forall|j: int| 0 <= j < b1.len() ==> (#[trigger] b1[j]).document_id == d,
        forall|j: int| 0 <= j < b2.len() ==> (#[trigger] b2[j]).document_id == d,
        forall|a: int, b: int| 0 <= a < b < b1.len() ==> (#[trigger] b1[a]).id != (#[trigger] b1[b]).id,
        forall|a: int, b: int| 0 <= a < b < b2.len() ==> (#[trigger] b2[a]).id != (#[trigger] b2[b]).id,
        forall|i: int, j: int|
            0 <= i < remove_doc_spec(s, d).len() && 0 <= j < b1.len() ==> (#[trigger] remove_doc_spec(
                s,
                d,
            )[i]).id != (#[trigger] b1[j]).id,
        forall|i: int, j: int|
            0 <= i < remove_doc_spec(s, d).len() && 0 <= j < b2.len() ==> (#[trigger] remove_doc_spec(
                s,
                d,
            )[i]).id != (#[trigger] b2[j]).id,
    ensures
        ({
            let base = remove_doc_spec(s, d);
            let after_first = upsert_all(base, b1);
            let after_second = upsert_all(remove_doc_spec(after_first, d), b2);
            &&& doc_chunks_spec(after_second, d) == b2
            &&& remove_doc_spec(after_second, d) == base
        }),
{
    let base = remove_doc_spec(s, d);
    lemma_remove_doc_spec(s, d);
    lemma_upsert_all_fresh(base, b1);
    lemma_remove_doc_append(base, b1, d);
    lemma_upsert_all_fresh(base, b2);
    lemma_doc_chunks_append(base, b2, d);
    lemma_remove_doc_append(base, b2, d);
}

/// Index a document: remove its previous chunks, then store one chunk per
/// successfully embedded draft, numbered densely in draft order.
///
/// Never panics and always returns a result object: `chunks_created`
/// counts the stored chunks, `success` means at least one was stored, and
/// `error` reports a database failure or that every embedding failed. On
/// a database failure the chunks stored so far remain (the documented
/// replace-on-reindex semantics); for a store without a database the
/// outcome is exactly the kept batch.
pub fn index_document(
    store: &mut VectorStore,
    document_id: &str,
    document_name: &str,
    drafts: &Vec<TextChunk>,
    embeddings: &Vec<Result<Vec<i64>, EmbeddingError>>,
) -> (r: IndexResult)
    requires
        old(store).wf(),
        drafts@.len() == embeddings@.len(),
    ensures
        final(store).wf(),
        final(store).has_backing() == old(store).has_backing(),
        r.success == (r.chunks_created > 0),
        ({
            ||| exists|i: int|
                #![trigger drafts@.take(i)]
                {
                    &&& 0 <= i <= drafts@.len()
                    &&& final(store)@ == upsert_all(
                        remove_doc_spec(old(store)@, document_id@),
                        kept_views(
                            document_id@,
                            document_name@,
                            drafts@.take(i),
                            embeddings@.take(i),
                        ),
                    )
                    &&& r.chunks_created == kept_views(
                        document_id@,
                        document_name@,
                        drafts@.take(i),
                        embeddings@.take(i),
                    ).len()
                }
            ||| (final(store)@ == old(store)@ && r.chunks_created == 0 && r.error is Some)
        }),
        !old(store).has_backing() ==> {
            let kept = kept_views(document_id@, document_name@, drafts@, embeddings@);
            &&& final(store)@ == upsert_all(remove_doc_spec(old(store)@, document_id@), kept)
            &&& r.chunks_created == kept.len()
            &&& (r.error is Some <==> (drafts@.len() > 0 && kept.len() == 0))
        },
{
    let ghost d = document_id@;
    let ghost nm = document_name@;
    if let Err(e) = store.remove_document(document_id) {
        return IndexResult { chunks_created: 0, success: false, error: Some(e.message()) };
    }
    let ghost base = store@;
    let n = drafts.len();
    let mut created: usize = 0;
    let mut i: usize = 0;
    proof {
        assert(drafts@.take(0) =~= Seq::<TextChunk>::empty());
        assert(kept_views(d, nm, drafts@.take(0), embeddings@.take(0))
            =~= Seq::<ChunkView>::empty());
    }
    while i < n
        invariant
            i <= n,
            n == drafts@.len(),
            drafts@.len() == embeddings@.len(),
            store.wf(),
            store.has_backing() == old(store).has_backing(),
            base == remove_doc_spec(old(store)@, d),
            d == document_id@,
            nm == document_name@,
            created == kept_views(d, nm, drafts@.take(i as int), embeddings@.take(i as int)).len(),
            created <= i,
            store@ == upsert_all(
                base,
                kept_views(d, nm, drafts@.take(i as int), embeddings@.take(i as int)),
            ),
        decreases n - i,
    {
        let ghost kept_i = kept_views(d, nm, drafts@.take(i as int), embeddings@.take(i as int));
        proof {
            assert(drafts@.take(i + 1).drop_last() =~= drafts@.take(i as int));
            assert(drafts@.take(i + 1).last() == drafts@[i as int]);
            assert(embeddings@.take(i + 1).take(i as int) =~= embeddings@.take(i as int));
            assert(embeddings@.take(i + 1)[i as int] == embeddings@[i as int]);
        }
        match &embeddings[i] {
            Ok(v) => {
                let scorable = check_embedding(v);
                let nonempty = drafts[i].text.as_str().unicode_len() > 0;
                let room = (created as u64) < MAX_CHUNK_INDEX;
                if scorable && nonempty && room {
                    broadcast use vstd::std_specs::vec::vec_clone_deep_view_proof;

                    let emb = v.clone();
                    proof {
                        assert(emb.deep_view() =~= emb@);
                        assert(v.deep_view() =~= v@);
                    }
                    let chunk = DocumentChunk {
                        id: drafts[i].id.clone(),
                        document_id: String::from_str(document_id),
                        document_name: String::from_str(document_name),
                        content: drafts[i].text.clone(),
                        embedding: emb,
                        chunk_index: created,
                        token_count: drafts[i].token_count,
                    };
                    let ghost cv = chunk@;
                    match store.store_chunk(&chunk) {
                        Ok(()) => {
                            proof {
                                lemma_upsert_all_push(base, kept_i, cv);
                                assert(kept_views(
                                    d,
                                    nm,
                                    drafts@.take(i + 1),
                                    embeddings@.take(i + 1),
                                ) =~= kept_i.push(cv));
                            }
                            created = created + 1;
                        },
                        Err(e) => {
                            return IndexResult {
                                chunks_created: created,
                                success: created > 0,
                                error: Some(e.message()),
                            };
                        },
                    }
                } else {
                    proof {
                        assert(kept_views(d, nm, drafts@.take(i + 1), embeddings@.take(i + 1))
                            =~= kept_i);
                    }
                }
            },
            Err(_) => {
                proof {
                    assert(kept_views(d, nm, drafts@.take(i + 1), embeddings@.take(i + 1))
                        =~= kept_i);
                }
            },
        }
        i = i + 1;
    }
    proof {
        assert(drafts@.take(n as int) =~= drafts@);
        assert(embeddings@.take(n as int) =~= embeddings@);
    }
    let error: Option<String> = if n > 0 && created == 0 {
        Some(String::from_str("no chunks could be embedded"))
    } else {
        None
    };
    IndexResult { chunks_created: created, success: created > 0, error }
}

} // verus!
