//! Cosine similarity over fixed-point embedding vectors.
//!
//! Coordinates are integers in a fixed-point encoding chosen by the caller;
//! scores are integers where `SCORE_SCALE` stands for a cosine of 1.0.
//! Cosine similarity is `dot(a,b) / (|a| * |b|)`, computed with an exact
//! integer square root and truncating division, then clamped to
//! `[-SCORE_SCALE, SCORE_SCALE]`; it is defined as 0 when the vectors have
//! different lengths, zero length, or a zero norm, so a mismatch ranks last
//! instead of failing.

use vstd::prelude::*;
use vstd::arithmetic::div_mod::{lemma_div_is_ordered, lemma_div_multiples_vanish, lemma_div_of0};
use vstd::arithmetic::mul::lemma_mul_inequality;

verus! {

/// Scale of similarity scores: `SCORE_SCALE` stands for a cosine of 1.0.
pub const SCORE_SCALE: i64 = 1_000_000;

/// Largest magnitude accepted for a single embedding coordinate.
pub const EMB_LIMIT: i64 = 1_000_000;

/// Largest embedding dimension the engine accepts.
pub const MAX_DIM: usize = 100_000;

/// An embedding vector the engine can score without overflow.
pub open spec fn bounded_embedding(a: Seq<i64>) -> bool {
    &&& a.len() <= MAX_DIM
    &&& forall|i: int| 0 <= i < a.len() ==> -EMB_LIMIT <= #[trigger] a[i] <= EMB_LIMIT
}

/// Mathematical dot product of two coordinate sequences, over the
/// common prefix of the two (callers use it on equal lengths).
pub open spec fn dot(a: Seq<i64>, b: Seq<i64>) -> int
    decreases a.len(),
{
    if a.len() == 0 || b.len() == 0 {
        0
    } else {
        dot(a.drop_last(), b.drop_last()) + a.last() * b.last()
    }
}

/// Squared Euclidean norm of a coordinate sequence.
pub open spec fn norm_sq(a: Seq<i64>) -> int {
    dot(a, a)
}

/// The integer square root: largest `r` with `r * r <= n`.
pub open spec fn sqrt_floor(n: nat) -> nat
    decreases n,
{
    if n == 0 {
        0
    } else {
        let r = sqrt_floor((n - 1) as nat);
        if (r + 1) * (r + 1) <= n {
            (r + 1) as nat
        } else {
            r
        }
    }
}

/// Integer division that rounds toward zero, for a positive divisor.
pub open spec fn div_toward_zero(x: int, d: int) -> int {
    if x >= 0 {
        x / d
    } else {
        -((-x) / d)
    }
}

/// Clamp a raw score into `[-SCORE_SCALE, SCORE_SCALE]`.
pub open spec fn clamp_score(x: int) -> int {
    if x > SCORE_SCALE as int {
        SCORE_SCALE as int
    } else if x < -(SCORE_SCALE as int) {
        -(SCORE_SCALE as int)
    } else {
        x
    }
}

/// Fixed-point cosine similarity of two embedding vectors.
pub open spec fn cosine_sim(a: Seq<i64>, b: Seq<i64>) -> int {
    if a.len() != b.len() || a.len() == 0 {
        0
    } else if norm_sq(a) == 0 || norm_sq(b) == 0 {
        0
    } else {
        let d = (sqrt_floor(norm_sq(a) as nat) * sqrt_floor(norm_sq(b) as nat)) as int;
        clamp_score(div_toward_zero(dot(a, b) * SCORE_SCALE, d))
    }
}

/// `sqrt_floor` is what its name says: `r*r <= n < (r+1)*(r+1)`.
pub proof fn lemma_sqrt_floor(n: nat)
    ensures
        sqrt_floor(n) * sqrt_floor(n) <= n,
        n < (sqrt_floor(n) + 1) * (sqrt_floor(n) + 1),
    decreases n,
{
    if n > 0 {
        lemma_sqrt_floor((n - 1) as nat);
        let r = sqrt_floor((n - 1) as nat);
        if (r + 1) * (r + 1) <= n {
            assert(sqrt_floor(n) == r + 1);
            assert(n < (r + 2) * (r + 2)) by (nonlinear_arith)
                requires
                    n - 1 < (r + 1) * (r + 1),
            ;
            assert(n < (sqrt_floor(n) + 1) * (sqrt_floor(n) + 1)) by (nonlinear_arith)
                requires
                    sqrt_floor(n) == r + 1,
                    n < (r + 2) * (r + 2),
            ;
        } else {
            assert(sqrt_floor(n) == r);
            assert(n < (r + 1) * (r + 1));
            assert(n < (sqrt_floor(n) + 1) * (sqrt_floor(n) + 1));
        }
    } else {
        assert(sqrt_floor(n) == 0);
        assert(n < (sqrt_floor(n) + 1) * (sqrt_floor(n) + 1)) by (nonlinear_arith)
            requires
                n == 0,
                sqrt_floor(n) == 0,
        ;
    }
}

/// Any `r` in the right bracket is the integer square root.
pub proof fn lemma_sqrt_floor_unique(n: nat, r: nat)
    requires
        r * r <= n,
        n < (r + 1) * (r + 1),
    ensures
        r == sqrt_floor(n),
{
    lemma_sqrt_floor(n);
    let s = sqrt_floor(n);
    if r < s {
        assert((r + 1) * (r + 1) <= s * s) by (nonlinear_arith)
            requires
                r + 1 <= s,
        ;
    }
    if s < r {
        assert((s + 1) * (s + 1) <= r * r) by (nonlinear_arith)
            requires
                s + 1 <= r,
        ;
    }
}

/// Exact integer square root by binary search.
pub fn isqrt(n: u64) -> (r: u64)
    ensures
        r == sqrt_floor(n as nat),
{
    let mut lo: u64 = 0;
    let mut hi: u64 = 4_294_967_296;
    proof {
        assert((n as int) < 4_294_967_296int * 4_294_967_296int) by (nonlinear_arith)
            requires
                n <= u64::MAX,
        ;
    }
    while lo + 1 < hi
        invariant
            (lo as int) * (lo as int) <= n as int,
            (n as int) < (hi as int) * (hi as int),
            lo < hi,
            hi <= 4_294_967_296,
        decreases hi - lo,
    {
        let mid: u64 = lo + (hi - lo) / 2;
        proof {
            assert((mid as int) * (mid as int) <= 4_294_967_296int * 4_294_967_296int)
                by (nonlinear_arith)
                requires
                    0 <= mid as int <= 4_294_967_296int,
            ;
        }
        if (mid as u128) * (mid as u128) <= n as u128 {
            lo = mid;
        } else {
            hi = mid;
        }
    }
    proof {
        lemma_sqrt_floor_unique(n as nat, lo as nat);
    }
    lo
}

/// Bound on a dot product of bounded vectors: each term has magnitude at
/// most `EMB_LIMIT * EMB_LIMIT`.
pub proof fn lemma_dot_bound(a: Seq<i64>, b: Seq<i64>)
    requires
        a.len() == b.len(),
        forall|i: int| 0 <= i < a.len() ==> -EMB_LIMIT <= #[trigger] a[i] <= EMB_LIMIT,
        forall|i: int| 0 <= i < b.len() ==> -EMB_LIMIT <= #[trigger] b[i] <= EMB_LIMIT,
    ensures
        -(a.len() * (EMB_LIMIT as int) * (EMB_LIMIT as int)) <= dot(a, b),
        dot(a, b) <= a.len() * (EMB_LIMIT as int) * (EMB_LIMIT as int),
    decreases a.len(),
{
    if a.len() > 0 {
        lemma_dot_bound(a.drop_last(), b.drop_last());
        assert(-((EMB_LIMIT as int) * (EMB_LIMIT as int)) <= a.last() * b.last()
            <= (EMB_LIMIT as int) * (EMB_LIMIT as int)) by (nonlinear_arith)
            requires
                -EMB_LIMIT <= a.last() <= EMB_LIMIT,
                -EMB_LIMIT <= b.last() <= EMB_LIMIT,
        ;
    }
}

/// A vector's squared norm is non-negative.
pub proof fn lemma_norm_sq_nonneg(a: Seq<i64>)
    ensures
        norm_sq(a) >= 0,
    decreases a.len(),
{
    if a.len() > 0 {
        lemma_norm_sq_nonneg(a.drop_last());
        assert(a.last() * a.last() >= 0) by (nonlinear_arith);
        assert(dot(a.drop_last(), a.drop_last()) == norm_sq(a.drop_last()));
    }
}

/// Fixed-point cosine similarity of two embedding vectors.
///
/// Returns 0 on a length mismatch, empty input, or a zero vector; otherwise
/// the clamped truncating quotient `dot * SCORE_SCALE / (|a| * |b|)`.
pub fn cosine_similarity(a: &Vec<i64>, b: &Vec<i64>) -> (s: i64)
    requires
        bounded_embedding(a@),
        bounded_embedding(b@),
    ensures
        s as int == cosine_sim(a@, b@),
        -SCORE_SCALE <= s <= SCORE_SCALE,
{
    if a.len() != b.len() || a.len() == 0 {
        return 0;
    }
    let d: i64 = dot_product(a, b);
    let na: i64 = dot_product(a, a);
    let nb: i64 = dot_product(b, b);
    proof {
        lemma_norm_sq_nonneg(a@);
        lemma_norm_sq_nonneg(b@);
    }
    if na == 0 || nb == 0 {
        return 0;
    }
    let sa: u64 = isqrt(na as u64);
    let sb: u64 = isqrt(nb as u64);
    proof {
        lemma_sqrt_floor(na as nat);
        lemma_sqrt_floor(nb as nat);
        if sa == 0 {
            assert(na < 1) by (nonlinear_arith)
                requires
                    (na as int) < (sqrt_floor(na as nat) + 1) * (sqrt_floor(na as nat) + 1),
                    sqrt_floor(na as nat) == 0,
            ;
        }
        if sb == 0 {
            assert(nb < 1) by (nonlinear_arith)
                requires
                    (nb as int) < (sqrt_floor(nb as nat) + 1) * (sqrt_floor(nb as nat) + 1),
                    sqrt_floor(nb as nat) == 0,
            ;
        }
        assert((sa as int) * (sb as int) >= 1) by (nonlinear_arith)
            requires
                sa >= 1,
                sb >= 1,
        ;
        assert((sa as int) * (sa as int) <= na as int);
        assert((sb as int) * (sb as int) <= nb as int);
        assert((sa as int) * (sb as int) <= 0x7fff_ffff_ffff_ffff_ffff_ffff_i128 as int)
            by (nonlinear_arith)
            requires
                1 <= sa as int,
                1 <= sb as int,
                (sa as int) * (sa as int) <= na as int,
                (sb as int) * (sb as int) <= nb as int,
                na as int <= i64::MAX as int,
                nb as int <= i64::MAX as int,
        ;
    }
    let denom: i128 = (sa as i128) * (sb as i128);
    let mag: i128 = if d >= 0 {
        d as i128
    } else {
        -(d as i128)
    };
    let num: i128 = mag * (SCORE_SCALE as i128);
    let q: i128 = num / denom;
    let raw: i128 = if d >= 0 {
        q
    } else {
        -q
    };
    let clamped: i128 = if raw > SCORE_SCALE as i128 {
        SCORE_SCALE as i128
    } else if raw < -(SCORE_SCALE as i128) {
        -(SCORE_SCALE as i128)
    } else {
        raw
    };
    clamped as i64
}

/// The dot product does not depend on the order of its arguments.
pub proof fn lemma_dot_symmetric(a: Seq<i64>, b: Seq<i64>)
    ensures
        dot(a, b) == dot(b, a),
    decreases a.len(),
{
    if a.len() > 0 && b.len() > 0 {
        lemma_dot_symmetric(a.drop_last(), b.drop_last());
        assert(a.last() * b.last() == b.last() * a.last()) by (nonlinear_arith);
    }
}

/// A vector that is not all zeros has similarity exactly 1.0 (that is,
/// `SCORE_SCALE`) with itself.
pub proof fn lemma_cosine_self(a: Seq<i64>)
    requires
        a.len() > 0,
        norm_sq(a) != 0,
    ensures
        cosine_sim(a, a) == SCORE_SCALE,
{
    lemma_norm_sq_nonneg(a);
    let n = norm_sq(a);
    let s = sqrt_floor(n as nat) as int;
    lemma_sqrt_floor(n as nat);
    assert(s >= 1) by (nonlinear_arith)
        requires
            n >= 1,
            n < (s + 1) * (s + 1),
            s >= 0,
    ;
    assert(s * s * SCORE_SCALE <= n * SCORE_SCALE) by (nonlinear_arith)
        requires
            s * s <= n,
            SCORE_SCALE > 0,
    ;
    assert(s * s >= 1) by (nonlinear_arith)
        requires
            s >= 1,
    ;
    lemma_div_multiples_vanish(SCORE_SCALE as int, s * s);
    lemma_div_is_ordered(s * s * SCORE_SCALE, n * SCORE_SCALE, s * s);
    assert(n * SCORE_SCALE / (s * s) >= SCORE_SCALE);
    assert(n * SCORE_SCALE >= 0) by (nonlinear_arith)
        requires
            n >= 0,
    ;
    assert(div_toward_zero(dot(a, a) * SCORE_SCALE, s * s) == n * SCORE_SCALE / (s * s));
    assert(clamp_score(n * SCORE_SCALE / (s * s)) == SCORE_SCALE);
}

/// Cosine similarity is symmetric.
pub proof fn lemma_cosine_symmetric(a: Seq<i64>, b: Seq<i64>)
    ensures
        cosine_sim(a, b) == cosine_sim(b, a),
{
    lemma_dot_symmetric(a, b);
    if a.len() == b.len() && a.len() > 0 && norm_sq(a) != 0 && norm_sq(b) != 0 {
        let sa = sqrt_floor(norm_sq(a) as nat);
        let sb = sqrt_floor(norm_sq(b) as nat);
        assert(sa * sb == sb * sa) by (nonlinear_arith);
    }
}

/// Orthogonal vectors have similarity 0.
pub proof fn lemma_cosine_orthogonal(a: Seq<i64>, b: Seq<i64>)
    requires
        dot(a, b) == 0,
    ensures
        cosine_sim(a, b) == 0,
{
    if a.len() == b.len() && a.len() > 0 && norm_sq(a) != 0 && norm_sq(b) != 0 {
        lemma_norm_sq_nonneg(a);
        lemma_norm_sq_nonneg(b);
        lemma_sqrt_floor(norm_sq(a) as nat);
        lemma_sqrt_floor(norm_sq(b) as nat);
        let sa = sqrt_floor(norm_sq(a) as nat) as int;
        let sb = sqrt_floor(norm_sq(b) as nat) as int;
        assert(sa >= 1) by (nonlinear_arith)
            requires
                norm_sq(a) >= 1,
                norm_sq(a) < (sa + 1) * (sa + 1),
                sa >= 0,
        ;
        assert(sb >= 1) by (nonlinear_arith)
            requires
                norm_sq(b) >= 1,
                norm_sq(b) < (sb + 1) * (sb + 1),
                sb >= 0,
        ;
        assert(sa * sb >= 1) by (nonlinear_arith)
            requires
                sa >= 1,
                sb >= 1,
        ;
        let d = (sqrt_floor(norm_sq(a) as nat) * sqrt_floor(norm_sq(b) as nat)) as int;
        lemma_div_of0(d);
        assert(div_toward_zero(0 * SCORE_SCALE, d) == 0);
    }
}

/// Vectors of different lengths score 0 rather than failing.
pub proof fn lemma_cosine_mismatched(a: Seq<i64>, b: Seq<i64>)
    requires
        a.len() != b.len(),
    ensures
        cosine_sim(a, b) == 0,
{
}

/// Every similarity score lies in `[-SCORE_SCALE, SCORE_SCALE]`.
pub proof fn lemma_cosine_bounded(a: Seq<i64>, b: Seq<i64>)
    ensures
        -SCORE_SCALE <= cosine_sim(a, b) <= SCORE_SCALE,
{
}

/// Dot product of two equal-length bounded vectors, exact and overflow-free.
pub fn dot_product(a: &Vec<i64>, b: &Vec<i64>) -> (d: i64)
    requires
        a@.len() == b@.len(),
        bounded_embedding(a@),
        bounded_embedding(b@),
    ensures
        d as int == dot(a@, b@),
{
    let mut sum: i64 = 0;
    let mut i: usize = 0;
    proof {
        assert(a@.take(0int) =~= Seq::<i64>::empty());
        assert(b@.take(0int) =~= Seq::<i64>::empty());
    }
    while i < a.len()
        invariant
            i <= a@.len(),
            a@.len() == b@.len(),
            bounded_embedding(a@),
            bounded_embedding(b@),
            sum as int == dot(a@.take(i as int), b@.take(i as int)),
            -(i as int * (EMB_LIMIT as int) * (EMB_LIMIT as int)) <= sum as int,
            sum as int <= i as int * (EMB_LIMIT as int) * (EMB_LIMIT as int),
        decreases a@.len() - i,
    {
        proof {
            lemma_dot_bound(a@.take(i as int), b@.take(i as int));
            assert(a@.take(i + 1).drop_last() =~= a@.take(i as int));
            assert(b@.take(i + 1).drop_last() =~= b@.take(i as int));
            assert(a@.take(i + 1).last() == a@[i as int]);
            assert(-((EMB_LIMIT as int) * (EMB_LIMIT as int)) <= a@[i as int] * b@[i as int]
                <= (EMB_LIMIT as int) * (EMB_LIMIT as int)) by (nonlinear_arith)
                requires
                    -EMB_LIMIT <= a@[i as int] <= EMB_LIMIT,
                    -EMB_LIMIT <= b@[i as int] <= EMB_LIMIT,
            ;
            assert((i as int + 1) * (EMB_LIMIT as int) * (EMB_LIMIT as int) == i as int * (
            EMB_LIMIT as int) * (EMB_LIMIT as int) + (EMB_LIMIT as int) * (EMB_LIMIT as int))
                by (nonlinear_arith);
            assert(i as int * (EMB_LIMIT as int) * (EMB_LIMIT as int) <= MAX_DIM as int * (
            EMB_LIMIT as int) * (EMB_LIMIT as int)) by (nonlinear_arith)
                requires
                    0 <= i as int <= MAX_DIM as int,
            ;
        }
        let term: i64 = a[i] * b[i];
        sum = sum + term;
        i = i + 1;
    }
    proof {
        assert(a@.take(a@.len() as int) =~= a@);
        assert(b@.take(b@.len() as int) =~= b@);
    }
    sum
}

} // verus!
