//! The retriever / context assembler: turns ranked search results into a
//! token-budgeted grounding context string.
//!
//! Results are taken in descending-score order. Each included result
//! contributes a header line naming its source document and score, its
//! content, and a blank separator. A result whose estimated token cost
//! (`characters / 4`, floor — intentionally coarser than the chunker's
//! ceiling estimate) would push the running total past the budget stops
//! the assembly; once at least `CUTOFF_MIN_RESULTS` results are included,
//! a next candidate scoring below `CONTEXT_SCORE_CUTOFF` stops it too.
//! An empty result set yields the empty string, which callers treat as
//! "no grounding available", not as an error.

use vstd::prelude::*;
use crate::codec::{format_score, score_rep};
use crate::similarity::{bounded_embedding, cosine_sim, SCORE_SCALE};
use crate::store::{search_post, search_scoreboard, SearchResult, VectorStore};

verus! {

/// Default token budget of the assembled context.
pub const DEFAULT_CONTEXT_TOKENS: usize = 4000;

/// Default number of search results to consider.
pub const DEFAULT_SEARCH_K: usize = 10;

/// Fixed-point relevance cutoff (0.5 in `SCORE_SCALE` units).
pub const CONTEXT_SCORE_CUTOFF: i64 = 500_000;

/// Results always included (budget permitting) before the cutoff applies.
pub const CUTOFF_MIN_RESULTS: usize = 3;

/// Estimated token cost of including a result: `characters / 4`, floor.
pub open spec fn chunk_cost(r: SearchResult) -> int {
    r.chunk@.content.len() as int / 4
}

/// How many ranked results the assembler includes, scanning from `i` with
/// `used` tokens spent: stop at the budget, or at a sub-cutoff score once
/// at least `CUTOFF_MIN_RESULTS` results are in.
pub open spec fn context_take(results: Seq<SearchResult>, max_tokens: int, i: int, used: int) -> int
    decreases results.len() - i,
{
    if i < 0 || i >= results.len() {
        i
    } else if used + chunk_cost(results[i]) > max_tokens {
        i
    } else if i >= CUTOFF_MIN_RESULTS && results[i].score < CONTEXT_SCORE_CUTOFF {
        i
    } else {
        context_take(results, max_tokens, i + 1, used + chunk_cost(results[i]))
    }
}

/// Sum of the token costs of results `[from, to)`.
pub open spec fn context_cost(results: Seq<SearchResult>, from: int, to: int) -> int
    decreases to - from,
{
    if from >= to {
        0
    } else {
        context_cost(results, from, to - 1) + chunk_cost(results[to - 1])
    }
}

/// The text contributed by one included result: a header naming the
/// source document and its score, the content, a blank separator.
pub open spec fn entry_rep(r: SearchResult) -> Seq<char> {
    "["@ + r.chunk@.document_name + " | score "@ + score_rep(r.score as int) + "]\n"@
        + r.chunk@.content + "\n\n"@
}

/// The context assembled from the first `n` results.
pub open spec fn assemble(results: Seq<SearchResult>, n: int) -> Seq<char>
    decreases n,
{
    if n <= 0 {
        Seq::empty()
    } else {
        assemble(results, n - 1) + entry_rep(results[n - 1])
    }
}

/// Budget respect: what the assembler includes never costs more than the
/// budget (starting the scan at `i` with `used` already spent).
proof fn lemma_context_take_rec(results: Seq<SearchResult>, max_tokens: int, i: int, used: int)
    requires
        0 <= i,
        used <= max_tokens,
    ensures
        ({
            let n = context_take(results, max_tokens, i, used);
            &&& i <= n <= results.len() || n == i
            &&& used + context_cost(results, i, n) <= max_tokens
        }),
    decreases results.len() - i,
{
    let n = context_take(results, max_tokens, i, used);
    if i >= results.len() {
        assert(context_cost(results, i, n) == 0);
    } else if used + chunk_cost(results[i]) > max_tokens {
        assert(context_cost(results, i, n) == 0);
    } else if i >= CUTOFF_MIN_RESULTS && results[i].score < CONTEXT_SCORE_CUTOFF {
        assert(context_cost(results, i, n) == 0);
    } else {
        lemma_context_take_rec(results, max_tokens, i + 1, used + chunk_cost(results[i]));
        assert forall|b: int| i + 1 <= b implies context_cost(results, i, b) == chunk_cost(
            results[i],
        ) + context_cost(results, i + 1, b) by {
            lemma_context_cost_split(results, i, b);
        }
    }
}

/// A cost range splits off its first element.
proof fn lemma_context_cost_split(results: Seq<SearchResult>, a: int, b: int)
    requires
        a < b,
    ensures
        context_cost(results, a, b) == chunk_cost(results[a]) + context_cost(results, a + 1, b),
    decreases b - a,
{
    if a + 1 < b {
        lemma_context_cost_split(results, a, b - 1);
        assert(context_cost(results, a + 1, b) == context_cost(results, a + 1, b - 1) + chunk_cost(
            results[b - 1],
        ));
    } else {
        assert(context_cost(results, a + 1, b) == 0);
        assert(context_cost(results, a, a) == 0);
        assert(context_cost(results, a, b) == context_cost(results, a, a) + chunk_cost(results[a]));
    }
}

/// Budget respect: the aggregate estimated token cost of the results the
/// assembler includes never exceeds the budget.
pub proof fn lemma_budget_respected(results: Seq<SearchResult>, max_tokens: int)
    requires
        max_tokens >= 0,
    ensures
        context_cost(results, 0, context_take(results, max_tokens, 0, 0)) <= max_tokens,
{
    lemma_context_take_rec(results, max_tokens, 0, 0);
}

/// Build a grounding context for a query embedding: search the store for
/// the `search_k` most similar chunks, then assemble the included prefix
/// of the ranked results within the `max_tokens` budget.
///
/// An empty store (or one with nothing relevant) yields the empty string.
pub fn retrieve_context(
    store: &VectorStore,
    query_embedding: &Vec<i64>,
    max_tokens: usize,
    search_k: usize,
) -> (r: String)
    requires
        store.wf(),
        bounded_embedding(query_embedding@),
    ensures
        exists|v: Seq<SearchResult>, full: Seq<(i64, usize)>|
            {
                &&& #[trigger] search_scoreboard(full, store@, query_embedding@, v)
                &&& v.len() == (if search_k as int <= store@.len() {
                    search_k as int
                } else {
                    store@.len() as int
                })
                &&& r@ == assemble(v, context_take(v, max_tokens as int, 0, 0))
            },
        store@.len() == 0 ==> r@ == Seq::<char>::empty(),
{
    let results = match store.search(query_embedding, search_k) {
        Ok(v) => v,
        Err(_) => {
            proof {
                assert(false);
            }
            return String::new();
        },
    };
    let ghost q = query_embedding@;
    let ghost rv = results@;
    let ghost full = choose|f: Seq<(i64, usize)>| search_scoreboard(f, store@, q, rv);
    let n = results.len();
    let mut out = String::new();
    let mut used: usize = 0;
    let mut j: usize = 0;
    proof {
        assert(assemble(rv, 0) == Seq::<char>::empty());
        assert(out@ =~= Seq::<char>::empty());
        assert(context_cost(rv, 0, 0) == 0);
        assert forall|t: int| 0 <= t < rv.len() implies -SCORE_SCALE <= (#[trigger] rv[t]).score
            <= SCORE_SCALE by {
            crate::similarity::lemma_cosine_bounded(q, rv[t].chunk@.embedding);
        }
    }
    while j < n
        invariant
            j <= n,
            n == results@.len(),
            rv == results@,
            q == query_embedding@,
            search_scoreboard(full, store@, q, rv),
            rv.len() == (if search_k as int <= store@.len() {
                search_k as int
            } else {
                store@.len() as int
            }),
            used <= max_tokens,
            used == context_cost(rv, 0, j as int),
            out@ == assemble(rv, j as int),
            context_take(rv, max_tokens as int, j as int, used as int) == context_take(
                rv,
                max_tokens as int,
                0,
                0,
            ),
            forall|t: int|
                0 <= t < rv.len() ==> -SCORE_SCALE <= (#[trigger] rv[t]).score <= SCORE_SCALE,
        decreases n - j,
    {
        let cost = results[j].chunk.content.as_str().unicode_len() / 4;
        proof {
            assert(cost == chunk_cost(rv[j as int]));
        }
        if cost > max_tokens - used {
            proof {
                assert(used + chunk_cost(rv[j as int]) > max_tokens);
                assert(context_take(rv, max_tokens as int, j as int, used as int) == j as int);
                assert(search_scoreboard(full, store@, query_embedding@, rv));
            }
            return out;
        }
        if j >= CUTOFF_MIN_RESULTS && results[j].score < CONTEXT_SCORE_CUTOFF {
            proof {
                assert(context_take(rv, max_tokens as int, j as int, used as int) == j as int);
                assert(search_scoreboard(full, store@, query_embedding@, rv));
            }
            return out;
        }
        let header = format_score(results[j].score);
        out.append("[");
        out.append(results[j].chunk.document_name.as_str());
        out.append(" | score ");
        out.append(header.as_str());
        out.append("]\n");
        out.append(results[j].chunk.content.as_str());
        out.append("\n\n");
        proof {
            assert(out@ =~= assemble(rv, j as int) + entry_rep(rv[j as int]));
            assert(context_cost(rv, 0, j + 1) == context_cost(rv, 0, j as int) + chunk_cost(
                rv[j as int],
            ));
        }
        used = used + cost;
        j = j + 1;
    }
    proof {
        assert(context_take(rv, max_tokens as int, n as int, used as int) == n as int);
        assert(search_scoreboard(full, store@, query_embedding@, rv));
    }
    out
}

} // verus!
