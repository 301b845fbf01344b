//! Splitting document text into overlapping, token-bounded chunks.
//!
//! The text is first cut into sentence-like units at the boundary characters
//! `.` `!` `?` and newline (each unit keeps its boundary character and is
//! trimmed of surrounding whitespace; empty units are dropped). Units are
//! then accumulated greedily: when adding the next unit would push the
//! buffer's estimated token count above the limit, the buffer is emitted as
//! a chunk and the next buffer is seeded with a trailing window of units
//! (`overlap / 50` of them). A single oversized unit is still emitted whole;
//! the chunker never splits inside a unit. Token counts are estimated as
//! `ceil(characters / 4)`.

use vstd::prelude::*;
use crate::codec::{chars_to_string, str_to_chars, tag_at, tag_at_exec};
use crate::errors::AppError;

verus! {

/// Largest text length (in characters) the chunker accepts in one call.
pub const MAX_TEXT_LEN: usize = 100_000_000;

/// A chunk draft: its text, its estimated token count, and a fresh id.
#[derive(Debug, Clone)]
pub struct TextChunk {
    pub id: String,
    pub text: String,
    pub token_count: usize,
    pub page_number: Option<u32>,
    pub section_header: Option<String>,
}

/// The document pipeline: text is split and chunked through its methods.
pub struct DocumentPipeline;

/// Characters that terminate a sentence-like unit.
pub open spec fn is_boundary(c: char) -> bool {
    c == '.' || c == '!' || c == '?' || c == '\n'
}

/// Whitespace trimmed from the ends of a unit.
pub open spec fn is_space(c: char) -> bool {
    c == ' ' || c == '\t' || c == '\n' || c == '\r'
}

/// Drop leading whitespace.
pub open spec fn trim_front(s: Seq<char>) -> Seq<char>
    decreases s.len(),
{
    if s.len() > 0 && is_space(s[0]) {
        trim_front(s.drop_first())
    } else {
        s
    }
}

/// Drop trailing whitespace.
pub open spec fn trim_back(s: Seq<char>) -> Seq<char>
    decreases s.len(),
{
    if s.len() > 0 && is_space(s.last()) {
        trim_back(s.drop_last())
    } else {
        s
    }
}

/// Drop whitespace from both ends.
pub open spec fn trim_spec(s: Seq<char>) -> Seq<char> {
    trim_back(trim_front(s))
}

/// One pass of the sentence splitter from position `i`, with the pending
/// unit `cur` and the units already produced `acc`.
pub open spec fn split_units_rec(t: Seq<char>, i: int, cur: Seq<char>, acc: Seq<Seq<char>>) -> Seq<
    Seq<char>,
>
    decreases t.len() - i,
{
    if i < 0 || i >= t.len() {
        if trim_spec(cur).len() > 0 {
            acc.push(trim_spec(cur))
        } else {
            acc
        }
    } else {
        let cur2 = cur.push(t[i]);
        if is_boundary(t[i]) {
            if trim_spec(cur2).len() > 0 {
                split_units_rec(t, i + 1, Seq::empty(), acc.push(trim_spec(cur2)))
            } else {
                split_units_rec(t, i + 1, Seq::empty(), acc)
            }
        } else {
            split_units_rec(t, i + 1, cur2, acc)
        }
    }
}

/// The sentence-like units of a text, in order.
pub open spec fn split_units(t: Seq<char>) -> Seq<Seq<char>> {
    split_units_rec(t, 0, Seq::empty(), Seq::empty())
}

/// Estimated token count of a span: `ceil(characters / 4)`.
pub open spec fn est_tokens(s: Seq<char>) -> int {
    ((s.len() + 3) / 4) as int
}

/// Trimming only removes characters.
pub proof fn lemma_trim_front_len(s: Seq<char>)
    ensures
        trim_front(s).len() <= s.len(),
    decreases s.len(),
{
    if s.len() > 0 && is_space(s[0]) {
        lemma_trim_front_len(s.drop_first());
    }
}

/// Trimming only removes characters.
pub proof fn lemma_trim_back_len(s: Seq<char>)
    ensures
        trim_back(s).len() <= s.len(),
    decreases s.len(),
{
    if s.len() > 0 && is_space(s.last()) {
        lemma_trim_back_len(s.drop_last());
    }
}

/// Trimming only removes characters.
pub proof fn lemma_trim_len(s: Seq<char>)
    ensures
        trim_spec(s).len() <= s.len(),
{
    lemma_trim_front_len(s);
    lemma_trim_back_len(trim_front(s));
}

/// Leading whitespace can be skipped wholesale.
proof fn lemma_trim_front_skip(s: Seq<char>, i: int)
    requires
        0 <= i <= s.len(),
        forall|j: int| 0 <= j < i ==> is_space(#[trigger] s[j]),
    ensures
        trim_front(s) == trim_front(s.subrange(i, s.len() as int)),
    decreases i,
{
    if i > 0 {
        assert(s.len() > 0 && is_space(s[0]));
        assert(s.drop_first() =~= s.subrange(1, s.len() as int));
        let s1 = s.subrange(1, s.len() as int);
        lemma_trim_front_skip(s1, i - 1);
        assert(s1.subrange(i - 1, s1.len() as int) =~= s.subrange(i, s.len() as int));
    } else {
        assert(s.subrange(0, s.len() as int) =~= s);
    }
}

/// Trailing whitespace can be dropped wholesale.
proof fn lemma_trim_back_skip(s: Seq<char>, m: int)
    requires
        0 <= m <= s.len(),
        forall|j: int| m <= j < s.len() ==> is_space(#[trigger] s[j]),
        m > 0 ==> !is_space(s[m - 1]),
    ensures
        trim_back(s) == s.subrange(0, m),
    decreases s.len(),
{
    if s.len() > m {
        assert(is_space(s.last()));
        let s1 = s.drop_last();
        lemma_trim_back_skip(s1, m);
        assert(s1.subrange(0, m) =~= s.subrange(0, m));
    } else {
        if m == 0 {
            assert(s.len() == 0);
            assert(s.subrange(0, 0) =~= s);
        } else {
            assert(!is_space(s.last()));
            assert(s.subrange(0, m) =~= s);
        }
    }
}

/// Token estimate of each unit.
pub open spec fn unit_tokens(units: Seq<Seq<char>>) -> Seq<int> {
    Seq::new(units.len(), |j: int| est_tokens(units[j]))
}

/// Character count of each unit.
pub open spec fn unit_lens(units: Seq<Seq<char>>) -> Seq<int> {
    Seq::new(units.len(), |j: int| units[j].len() as int)
}

/// Sum of `ts[from..to)`.
pub open spec fn range_tokens(ts: Seq<int>, from: int, to: int) -> int
    decreases to - from,
{
    if from >= to {
        0
    } else {
        range_tokens(ts, from, to - 1) + ts[to - 1]
    }
}

/// A range sum of non-negative entries is non-negative.
pub proof fn lemma_range_tokens_nonneg(ts: Seq<int>, from: int, to: int)
    requires
        forall|j: int| from <= j < to ==> ts[j] >= 0,
    ensures
        range_tokens(ts, from, to) >= 0,
    decreases to - from,
{
    if from < to {
        lemma_range_tokens_nonneg(ts, from, to - 1);
    }
}

/// Range sums split at any middle point.
pub proof fn lemma_range_tokens_split(ts: Seq<int>, a: int, b: int, c: int)
    requires
        a <= b <= c,
    ensures
        range_tokens(ts, a, c) == range_tokens(ts, a, b) + range_tokens(ts, b, c),
    decreases c - b,
{
    if b < c {
        lemma_range_tokens_split(ts, a, b, c - 1);
    }
}

/// Pointwise smaller entries give a smaller range sum.
pub proof fn lemma_range_tokens_le(ts1: Seq<int>, ts2: Seq<int>, from: int, to: int)
    requires
        forall|j: int| from <= j < to ==> ts1[j] <= ts2[j],
    ensures
        range_tokens(ts1, from, to) <= range_tokens(ts2, from, to),
    decreases to - from,
{
    if from < to {
        lemma_range_tokens_le(ts1, ts2, from, to - 1);
    }
}

/// `ceil(l / 4) <= l` for a non-empty span.
proof fn lemma_est_le_len(l: int)
    requires
        l >= 1,
    ensures
        (l + 3) / 4 <= l,
{
    vstd::arithmetic::div_mod::lemma_div_is_ordered(l + 3, 4 * l, 4);
    vstd::arithmetic::div_mod::lemma_div_multiples_vanish(l, 4);
}

/// Shape of the units produced by the splitter: the accumulator is kept as
/// a prefix, every new unit is non-empty, the new units' characters are at
/// most the pending text, and at most one unit is made per character plus a
/// final flush.
proof fn lemma_split_units_rec_shape(t: Seq<char>, i: int, cur: Seq<char>, acc: Seq<Seq<char>>)
    requires
        0 <= i <= t.len(),
    ensures
        ({
            let res = split_units_rec(t, i, cur, acc);
            &&& res.len() >= acc.len()
            &&& forall|j: int| 0 <= j < acc.len() ==> res[j] == acc[j]
            &&& forall|j: int| acc.len() <= j < res.len() ==> (#[trigger] res[j]).len() >= 1
            &&& range_tokens(unit_lens(res), acc.len() as int, res.len() as int) <= cur.len() + (
            t.len() - i)
            &&& res.len() <= acc.len() + (t.len() - i) + 1
        }),
    decreases t.len() - i,
{
    let res = split_units_rec(t, i, cur, acc);
    if i >= t.len() {
        if trim_spec(cur).len() > 0 {
            lemma_trim_len(cur);
            assert(range_tokens(unit_lens(res), acc.len() as int, acc.len() as int) == 0);
            assert(range_tokens(unit_lens(res), acc.len() as int, res.len() as int)
                == unit_lens(res)[acc.len() as int]);
        }
    } else {
        let cur2 = cur.push(t[i]);
        if is_boundary(t[i]) {
            if trim_spec(cur2).len() > 0 {
                let acc2 = acc.push(trim_spec(cur2));
                lemma_split_units_rec_shape(t, i + 1, Seq::empty(), acc2);
                lemma_trim_len(cur2);
                lemma_range_tokens_split(
                    unit_lens(res),
                    acc.len() as int,
                    acc2.len() as int,
                    res.len() as int,
                );
                assert(res[acc.len() as int] == acc2[acc.len() as int]);
                assert(range_tokens(unit_lens(res), acc.len() as int, acc.len() as int) == 0);
                assert(range_tokens(unit_lens(res), acc.len() as int, acc2.len() as int)
                    == unit_lens(res)[acc.len() as int]);
            } else {
                lemma_split_units_rec_shape(t, i + 1, Seq::empty(), acc);
            }
        } else {
            lemma_split_units_rec_shape(t, i + 1, cur2, acc);
        }
    }
}

/// Every unit of a split is non-empty, there are at most `len + 1` of
/// them, and together they hold at most `len` characters.
pub proof fn lemma_split_units_shape(t: Seq<char>)
    ensures
        ({
            let units = split_units(t);
            &&& forall|j: int| 0 <= j < units.len() ==> (#[trigger] units[j]).len() >= 1
            &&& units.len() <= t.len() + 1
            &&& range_tokens(unit_lens(units), 0, units.len() as int) <= t.len()
        }),
{
    lemma_split_units_rec_shape(t, 0, Seq::empty(), Seq::empty());
}

/// Each unit's token estimate is non-negative and at most its length, so
/// any range of token estimates is bounded by the text length.
pub proof fn lemma_unit_tokens_bounds(t: Seq<char>, from: int, to: int)
    requires
        0 <= from <= to <= split_units(t).len(),
    ensures
        range_tokens(unit_tokens(split_units(t)), from, to) >= 0,
        range_tokens(unit_tokens(split_units(t)), from, to) <= t.len(),
{
    let units = split_units(t);
    let ts = unit_tokens(units);
    let ls = unit_lens(units);
    lemma_split_units_shape(t);
    assert forall|j: int| 0 <= j < units.len() implies 0 <= #[trigger] ts[j] && ts[j] <= ls[j] by {
        lemma_est_le_len(units[j].len() as int);
    }
    lemma_range_tokens_nonneg(ts, from, to);
    lemma_range_tokens_le(ts, ls, from, to);
    lemma_range_tokens_nonneg(ls, 0, from);
    lemma_range_tokens_nonneg(ls, to, units.len() as int);
    lemma_range_tokens_split(ls, 0, from, to);
    lemma_range_tokens_split(ls, 0, to, units.len() as int);
    lemma_range_tokens_nonneg(ts, from, to);
}

/// The greedy chunking plan from position `i` with open buffer
/// `[s, i)` and chunks `acc` already closed: each element is the unit
/// range `[start, end)` of one emitted chunk.
pub open spec fn plan_rec(
    ts: Seq<int>,
    m: int,
    k: int,
    i: int,
    s: int,
    acc: Seq<(int, int)>,
) -> Seq<(int, int)>
    decreases ts.len() - i,
{
    if i < 0 || i >= ts.len() {
        if s < i {
            acc.push((s, i))
        } else {
            acc
        }
    } else {
        if range_tokens(ts, s, i) + ts[i] > m && s < i {
            let s2 = if i - k >= 0 {
                i - k
            } else {
                0
            };
            plan_rec(ts, m, k, i + 1, s2, acc.push((s, i)))
        } else {
            plan_rec(ts, m, k, i + 1, s, acc)
        }
    }
}

/// The chunking plan for token estimates `ts`, budget `m` and an overlap
/// window of `k` units.
pub open spec fn chunk_plan(ts: Seq<int>, m: int, k: int) -> Seq<(int, int)> {
    plan_rec(ts, m, k, 0, 0, Seq::empty())
}

/// What `chunk_text` guarantees of its result: one chunk per planned
/// unit range, in order, with the joined text and summed token estimate
/// of its range and a fresh 36-character id.
pub open spec fn chunks_match_plan(r: Seq<TextChunk>, t: Seq<char>, m: int, k: int) -> bool {
    let units = split_units(t);
    let ts = unit_tokens(units);
    let pl = chunk_plan(ts, m, k);
    &&& r.len() == pl.len()
    &&& forall|j: int|
        0 <= j < pl.len() ==> {
            &&& (#[trigger] r[j]).text@ == join_range(units, pl[j].0, pl[j].1)
            &&& r[j].token_count as int == range_tokens(ts, pl[j].0, pl[j].1)
            &&& r[j].id@.len() == 36
            &&& r[j].page_number is None
            &&& r[j].section_header is None
        }
}

/// Determinism: chunking is a function of the text and the two knobs.
/// Any two results of `chunk_text` on the same input have the same chunk
/// boundaries, texts and token estimates; only the generated ids differ.
pub proof fn lemma_chunking_deterministic(
    a: Seq<TextChunk>,
    b: Seq<TextChunk>,
    t: Seq<char>,
    m: int,
    k: int,
)
    requires
        chunks_match_plan(a, t, m, k),
        chunks_match_plan(b, t, m, k),
    ensures
        a.len() == b.len(),
        forall|j: int|
            0 <= j < a.len() ==> (#[trigger] a[j]).text@ == b[j].text@ && a[j].token_count
                == b[j].token_count,
{
}

/// Structure of the plan built by `plan_rec`: already-closed chunks are
/// kept as a prefix; every new chunk covers a non-empty unit range ending
/// at or after `i`; the first new chunk starts at the open buffer's start;
/// chunk ends strictly increase up to the last unit; each chunk starts at
/// or before the previous chunk's end (exactly at it when `k == 0`).
proof fn lemma_plan_rec_shape(ts: Seq<int>, m: int, k: int, i: int, s: int, acc: Seq<(int, int)>)
    requires
        0 <= s <= i <= ts.len(),
        k >= 0,
    ensures
        ({
            let res = plan_rec(ts, m, k, i, s, acc);
            &&& res.len() >= acc.len()
            &&& forall|j: int| 0 <= j < acc.len() ==> res[j] == acc[j]
            &&& (s < i || i < ts.len() <==> res.len() > acc.len())
            &&& (res.len() == acc.len() ==> res == acc)
            &&& (res.len() > acc.len() ==> res[acc.len() as int].0 == s)
            &&& (res.len() > acc.len() ==> res.last().1 == ts.len())
            &&& forall|j: int|
                acc.len() <= j < res.len() ==> {
                    &&& 0 <= (#[trigger] res[j]).0 < res[j].1 <= ts.len()
                    &&& res[j].1 >= i
                }
            &&& forall|j: int|
                acc.len() <= j < res.len() - 1 ==> {
                    &&& (#[trigger] res[j + 1]).0 <= res[j].1
                    &&& res[j].1 < res[j + 1].1
                    &&& (k == 0 ==> res[j + 1].0 == res[j].1)
                }
        }),
    decreases ts.len() - i,
{
    let res = plan_rec(ts, m, k, i, s, acc);
    if i >= ts.len() {
    } else {
        if range_tokens(ts, s, i) + ts[i] > m && s < i {
            let s2 = if i - k >= 0 {
                i - k
            } else {
                0
            };
            let acc2 = acc.push((s, i));
            lemma_plan_rec_shape(ts, m, k, i + 1, s2, acc2);
            assert(res[acc.len() as int] == acc2[acc.len() as int]);
            assert(res.len() > acc2.len());
            assert(res[acc2.len() as int].0 == s2);
            assert(res[acc2.len() as int].1 >= i + 1);
        } else {
            lemma_plan_rec_shape(ts, m, k, i + 1, s, acc);
        }
    }
}

/// Chunk coverage: the plan's chunks start at unit 0, end at the last
/// unit, cover non-empty strictly-advancing ranges, and each chunk begins
/// at or before the end of the one before it, so no unit is dropped.
pub proof fn lemma_chunk_coverage(ts: Seq<int>, m: int, k: int)
    requires
        k >= 0,
    ensures
        ({
            let pl = chunk_plan(ts, m, k);
            &&& (ts.len() == 0 ==> pl.len() == 0)
            &&& (ts.len() > 0 ==> pl.len() >= 1 && pl[0].0 == 0 && pl.last().1 == ts.len())
            &&& forall|j: int| 0 <= j < pl.len() ==> 0 <= (#[trigger] pl[j]).0 < pl[j].1 <= ts.len()
            &&& forall|j: int|
                0 <= j < pl.len() - 1 ==> (#[trigger] pl[j + 1]).0 <= pl[j].1 && pl[j].1 < pl[j
                    + 1].1
        }),
{
    lemma_plan_rec_shape(ts, m, k, 0, 0, Seq::empty());
}

/// With no overlap (`k == 0`), consecutive chunks cover disjoint unit
/// ranges: each chunk starts exactly where the previous one ended, so no
/// sentence is repeated.
pub proof fn lemma_zero_overlap_disjoint(ts: Seq<int>, m: int)
    ensures
        ({
            let pl = chunk_plan(ts, m, 0);
            forall|j: int| 0 <= j < pl.len() - 1 ==> (#[trigger] pl[j + 1]).0 == pl[j].1
        }),
{
    lemma_plan_rec_shape(ts, m, 0, 0, 0, Seq::empty());
}

/// The fresh (non-overlap) parts of the plan's chunks: each chunk past a
/// running point `p` contributes the units `[p, end)` it covers first.
pub open spec fn fresh_concat(units: Seq<Seq<char>>, pl: Seq<(int, int)>, p: int) -> Seq<Seq<char>>
    decreases pl.len(),
{
    if pl.len() == 0 {
        Seq::empty()
    } else {
        units.subrange(p, pl[0].1) + fresh_concat(units, pl.drop_first(), pl[0].1)
    }
}

/// In a chain of strictly increasing ends, every end is at least the
/// first.
proof fn lemma_ends_at_least(pl: Seq<(int, int)>, j: int)
    requires
        forall|x: int| 0 <= x < pl.len() - 1 ==> (#[trigger] pl[x]).1 < pl[x + 1].1,
        0 <= j < pl.len(),
    ensures
        pl[0].1 <= pl[j].1,
    decreases j,
{
    if j > 0 {
        lemma_ends_at_least(pl, j - 1);
        assert(pl[j - 1].1 < pl[j].1);
    }
}

/// A plan whose ends strictly increase up to the unit count tiles the
/// units exactly.
proof fn lemma_fresh_concat_covers(units: Seq<Seq<char>>, pl: Seq<(int, int)>, p: int)
    requires
        0 <= p <= units.len(),
        pl.len() > 0,
        p <= pl[0].1,
        forall|j: int| 0 <= j < pl.len() ==> p <= (#[trigger] pl[j]).1 <= units.len(),
        forall|j: int| 0 <= j < pl.len() - 1 ==> (#[trigger] pl[j]).1 < pl[j + 1].1,
        pl.last().1 == units.len(),
    ensures
        fresh_concat(units, pl, p) == units.subrange(p, units.len() as int),
    decreases pl.len(),
{
    if pl.len() == 1 {
        assert(pl[0].1 == units.len());
        assert(fresh_concat(units, pl.drop_first(), pl[0].1) == Seq::<Seq<char>>::empty());
        assert(units.subrange(p, pl[0].1) + Seq::<Seq<char>>::empty() =~= units.subrange(
            p,
            units.len() as int,
        ));
    } else {
        let e0 = pl[0].1;
        let rest = pl.drop_first();
        assert(rest.last() == pl.last());
        assert(forall|j: int| 0 <= j < rest.len() ==> (#[trigger] rest[j]) == pl[j + 1]);
        assert(e0 <= rest[0].1);
        assert forall|j: int| 0 <= j < rest.len() implies e0 <= (#[trigger] rest[j]).1 by {
            lemma_ends_at_least(pl, j + 1);
        }
        lemma_fresh_concat_covers(units, rest, e0);
        assert(units.subrange(p, e0) + units.subrange(e0, units.len() as int) =~= units.subrange(
            p,
            units.len() as int,
        ));
    }
}

/// Chunk coverage, stated over the units themselves: concatenating each
/// chunk's fresh units (ignoring overlap duplication) reproduces the full
/// unit sequence of the text, with no sentence dropped.
pub proof fn lemma_chunk_coverage_concat(t: Seq<char>, m: int, k: int)
    requires
        k >= 0,
    ensures
        ({
            let units = split_units(t);
            let pl = chunk_plan(unit_tokens(units), m, k);
            fresh_concat(units, pl, 0) == units
        }),
{
    let units = split_units(t);
    let ts = unit_tokens(units);
    let pl = chunk_plan(ts, m, k);
    lemma_chunk_coverage(ts, m, k);
    if ts.len() == 0 {
        assert(units.len() == 0);
        assert(pl.len() == 0);
        assert(fresh_concat(units, pl, 0) =~= units);
    } else {
        lemma_fresh_concat_covers(units, pl, 0);
        assert(units.subrange(0, units.len() as int) =~= units);
    }
}

/// The text of a chunk covering units `[from, to)`: the units joined by
/// single spaces.
pub open spec fn join_range(units: Seq<Seq<char>>, from: int, to: int) -> Seq<char>
    decreases to - from,
{
    if from >= to {
        Seq::empty()
    } else {
        let rest = join_range(units, from, to - 1);
        if rest.len() == 0 {
            units[to - 1]
        } else {
            rest + seq![' '] + units[to - 1]
        }
    }
}

/// Whether `c` terminates a sentence-like unit.
pub fn is_boundary_char(c: char) -> (r: bool)
    ensures
        r == is_boundary(c),
{
    c == '.' || c == '!' || c == '?' || c == '\n'
}

/// Whether `c` is trimmed whitespace.
pub fn is_space_char(c: char) -> (r: bool)
    ensures
        r == is_space(c),
{
    c == ' ' || c == '\t' || c == '\n' || c == '\r'
}

/// Relies on `uuid::Uuid::new_v4` and its `Display` form: a random
/// version-4 UUID rendered in the hyphenated format, which is always
/// 36 characters long.
#[verifier::external_body]
fn new_chunk_id() -> (r: String)
    ensures
        r@.len() == 36,
{
    uuid::Uuid::new_v4().to_string()
}

/// Copy of `v` with whitespace removed from both ends.
pub(crate) fn trim_chars(v: &Vec<char>) -> (r: Vec<char>)
    ensures
        r@ == trim_spec(v@),
{
    let n = v.len();
    let mut lo: usize = 0;
    while lo < n && is_space_char(v[lo])
        invariant
            lo <= n,
            n == v@.len(),
            forall|j: int| 0 <= j < lo ==> is_space(#[trigger] v@[j]),
        decreases n - lo,
    {
        lo = lo + 1;
    }
    let mut hi: usize = n;
    while hi > lo && is_space_char(v[hi - 1])
        invariant
            lo <= hi <= n,
            n == v@.len(),
            forall|j: int| hi <= j < n ==> is_space(#[trigger] v@[j]),
        decreases hi,
    {
        hi = hi - 1;
    }
    let mut r: Vec<char> = Vec::new();
    let mut j: usize = lo;
    proof {
        assert(r@ =~= v@.subrange(lo as int, lo as int));
    }
    while j < hi
        invariant
            lo <= j <= hi <= n,
            n == v@.len(),
            r@ == v@.subrange(lo as int, j as int),
        decreases hi - j,
    {
        r.push(v[j]);
        proof {
            assert(r@ =~= v@.subrange(lo as int, j + 1));
        }
        j = j + 1;
    }
    proof {
        lemma_trim_front_skip(v@, lo as int);
        let tail = v@.subrange(lo as int, n as int);
        assert(trim_front(tail) == tail);
        lemma_trim_back_skip(tail, hi - lo);
        assert(tail.subrange(0, hi - lo) =~= v@.subrange(lo as int, hi as int));
        assert(trim_spec(v@) == v@.subrange(lo as int, hi as int));
    }
    r
}

impl DocumentPipeline {
    /// A fresh pipeline.
    pub fn new() -> (r: Self) {
        DocumentPipeline
    }

    /// Estimated token count of `text`: `ceil(characters / 4)`.
    pub fn estimate_tokens(&self, text: &str) -> (r: usize)
        ensures
            r == est_tokens(text@),
    {
        let l = text.unicode_len();
        let q = l / 4;
        if l % 4 != 0 {
            q + 1
        } else {
            q
        }
    }

    /// Split `text` into sentence-like units at `.` `!` `?` and newline;
    /// each unit is trimmed and non-empty, and units appear in text order.
    pub fn split_sentences(&self, text: &str) -> (r: Vec<String>)
        ensures
            r.deep_view() == split_units(text@),
    {
        let chars = str_to_chars(text);
        let ghost t = text@;
        let mut result: Vec<String> = Vec::new();
        let mut cur: Vec<char> = Vec::new();
        let mut i: usize = 0;
        proof {
            assert(result.deep_view() =~= Seq::<Seq<char>>::empty());
            assert(cur@ =~= Seq::<char>::empty());
        }
        while i < chars.len()
            invariant
                chars@ == t,
                i <= t.len(),
                split_units_rec(t, i as int, cur@, result.deep_view()) == split_units(t),
            decreases t.len() - i,
        {
            let c = chars[i];
            let ghost prev_cur = cur@;
            let ghost prev_acc = result.deep_view();
            cur.push(c);
            if is_boundary_char(c) {
                let trimmed = trim_chars(&cur);
                if trimmed.len() > 0 {
                    let unit = chars_to_string(&trimmed);
                    result.push(unit);
                    proof {
                        assert(result.deep_view() =~= prev_acc.push(trim_spec(prev_cur.push(
                            t[i as int],
                        ))));
                    }
                }
                cur = Vec::new();
                proof {
                    assert(cur@ =~= Seq::<char>::empty());
                }
            }
            i = i + 1;
        }
        let trimmed = trim_chars(&cur);
        if trimmed.len() > 0 {
            let unit = chars_to_string(&trimmed);
            let ghost prev_acc = result.deep_view();
            result.push(unit);
            proof {
                assert(result.deep_view() =~= prev_acc.push(trim_spec(cur@)));
            }
        }
        result
    }
}

impl DocumentPipeline {
    /// Join `sentences[from..to)` with single spaces.
    fn join_sentences(&self, sentences: &Vec<String>, from: usize, to: usize) -> (r: String)
        requires
            from <= to <= sentences@.len(),
        ensures
            r@ == join_range(sentences.deep_view(), from as int, to as int),
    {
        let ghost units = sentences.deep_view();
        let mut out = String::new();
        let mut j: usize = from;
        proof {
            reveal_strlit(" ");
        }
        while j < to
            invariant
                from <= j <= to <= sentences@.len(),
                units == sentences.deep_view(),
                out@ == join_range(units, from as int, j as int),
                out@.len() == 0 <==> join_range(units, from as int, j as int).len() == 0,
            decreases to - j,
        {
            let ghost prev = out@;
            if out.as_str().unicode_len() > 0 {
                out.append(" ");
                proof {
                    reveal_strlit(" ");
                    assert(" "@ =~= seq![' ']);
                }
            }
            out.append(sentences[j].as_str());
            proof {
                assert(sentences@[j as int]@ == units[j as int]);
                if prev.len() == 0 {
                    assert(out@ =~= units[j as int]);
                    assert(join_range(units, from as int, j + 1) == units[j as int]);
                } else {
                    assert(out@ =~= prev + seq![' '] + units[j as int]);
                }
            }
            j = j + 1;
        }
        out
    }

    /// Sum of the token estimates of `sentences[from..to)`.
    fn sum_tokens(&self, sentences: &Vec<String>, from: usize, to: usize) -> (r: usize)
        requires
            from <= to <= sentences@.len(),
            range_tokens(unit_tokens(sentences.deep_view()), from as int, to as int)
                <= MAX_TEXT_LEN,
        ensures
            r as int == range_tokens(unit_tokens(sentences.deep_view()), from as int, to as int),
    {
        let ghost units = sentences.deep_view();
        let ghost ts = unit_tokens(units);
        let mut r: usize = 0;
        let mut j: usize = from;
        proof {
            assert forall|x: int| from <= x < to implies #[trigger] ts[x] >= 0 by {}
        }
        while j < to
            invariant
                from <= j <= to <= sentences@.len(),
                units == sentences.deep_view(),
                ts == unit_tokens(units),
                r as int == range_tokens(ts, from as int, j as int),
                range_tokens(ts, from as int, to as int) <= MAX_TEXT_LEN,
                forall|x: int| from <= x < to ==> #[trigger] ts[x] >= 0,
            decreases to - j,
        {
            let st = self.estimate_tokens(sentences[j].as_str());
            proof {
                assert(sentences@[j as int]@ == units[j as int]);
                assert(st as int == ts[j as int]);
                lemma_range_tokens_split(ts, from as int, j + 1, to as int);
                lemma_range_tokens_nonneg(ts, j + 1, to as int);
            }
            r = r + st;
            j = j + 1;
        }
        r
    }

    /// Split `text` into chunks of at most `chunk_size` estimated tokens
    /// (a single oversized sentence still becomes one chunk), seeding each
    /// new chunk with the previous `overlap / 50` sentences.
    ///
    /// The chunk texts, token counts and boundaries are a function of the
    /// inputs alone (`chunk_plan`); only the generated ids differ between
    /// calls.
    pub fn chunk_text(&self, text: &str, chunk_size: usize, overlap: usize) -> (r: Vec<TextChunk>)
        requires
            text@.len() <= MAX_TEXT_LEN,
        ensures
            chunks_match_plan(r@, text@, chunk_size as int, (overlap / 50) as int),
    {
        let sentences = self.split_sentences(text);
        let ghost units = split_units(text@);
        let ghost ts = unit_tokens(units);
        let ghost m = chunk_size as int;
        let k: usize = overlap / 50;
        let ghost pl = chunk_plan(ts, m, k as int);
        let n = sentences.len();
        let mut chunks: Vec<TextChunk> = Vec::new();
        let ghost mut ranges: Seq<(int, int)> = Seq::empty();
        let mut s: usize = 0;
        let mut cur_tokens: usize = 0;
        let mut i: usize = 0;
        proof {
            lemma_split_units_shape(text@);
        }
        while i < n
            invariant
                s <= i <= n,
                n == sentences@.len(),
                units == sentences.deep_view(),
                units == split_units(text@),
                text@.len() <= MAX_TEXT_LEN,
                ts == unit_tokens(units),
                pl == chunk_plan(ts, m, k as int),
                m == chunk_size as int,
                cur_tokens as int == range_tokens(ts, s as int, i as int),
                plan_rec(ts, m, k as int, i as int, s as int, ranges) == pl,
                chunks@.len() == ranges.len(),
                forall|j: int|
                    0 <= j < ranges.len() ==> {
                        &&& (#[trigger] chunks@[j]).text@ == join_range(
                            units,
                            ranges[j].0,
                            ranges[j].1,
                        )
                        &&& chunks@[j].token_count as int == range_tokens(
                            ts,
                            ranges[j].0,
                            ranges[j].1,
                        )
                        &&& chunks@[j].id@.len() == 36
                        &&& chunks@[j].page_number is None
                        &&& chunks@[j].section_header is None
                    },
            decreases n - i,
        {
            let st = self.estimate_tokens(sentences[i].as_str());
            proof {
                assert(sentences@[i as int]@ == units[i as int]);
                assert(st as int == ts[i as int]);
                lemma_unit_tokens_bounds(text@, s as int, i as int);
                lemma_unit_tokens_bounds(text@, i as int, i + 1);
                assert(range_tokens(ts, i as int, i as int) == 0);
                assert(range_tokens(ts, i as int, i + 1) == ts[i as int]);
            }
            if cur_tokens + st > chunk_size && s < i {
                let ctext = self.join_sentences(&sentences, s, i);
                let cid = new_chunk_id();
                chunks.push(
                    TextChunk {
                        id: cid,
                        text: ctext,
                        token_count: cur_tokens,
                        page_number: None,
                        section_header: None,
                    },
                );
                proof {
                    ranges = ranges.push((s as int, i as int));
                }
                let s2: usize = if i >= k {
                    i - k
                } else {
                    0
                };
                proof {
                    lemma_unit_tokens_bounds(text@, s2 as int, i as int);
                }
                cur_tokens = self.sum_tokens(&sentences, s2, i);
                s = s2;
            }
            proof {
                lemma_range_tokens_split(ts, s as int, i as int, i + 1);
                lemma_unit_tokens_bounds(text@, s as int, i + 1);
            }
            cur_tokens = cur_tokens + st;
            i = i + 1;
        }
        if s < n {
            let ctext = self.join_sentences(&sentences, s, n);
            let cid = new_chunk_id();
            chunks.push(
                TextChunk {
                    id: cid,
                    text: ctext,
                    token_count: cur_tokens,
                    page_number: None,
                    section_header: None,
                },
            );
            proof {
                ranges = ranges.push((s as int, n as int));
            }
        }
        proof {
            assert(ranges == pl);
        }
        chunks
    }
}

impl DocumentPipeline {
    /// Page count of a document, as far as the pipeline can tell without
    /// opening it: one page for a PDF (a `.pdf` ending, matched
    /// case-insensitively, with a non-empty name before it — a bare
    /// `.pdf` is a hidden file with no extension), none for any other
    /// file type.
    pub fn get_page_count(&self, file_path: &str) -> (r: Result<Option<u32>, AppError>)
        ensures
            r matches Ok(p) && p == (if file_path@.len() > 4 && tag_at(
                file_path@,
                file_path@.len() - 4,
                ".pdf"@,
            ) {
                Some(1u32)
            } else {
                None::<u32>
            }),
    {
        let chars = str_to_chars(file_path);
        if chars.len() > 4 && tag_at_exec(&chars, chars.len() - 4, ".pdf") {
            Ok(Some(1))
        } else {
            Ok(None)
        }
    }
}

impl Default for DocumentPipeline {
    /// Same as `DocumentPipeline::new`.
    fn default() -> (r: Self) {
        DocumentPipeline::new()
    }
}

} // verus!
