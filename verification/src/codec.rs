//! Decimal text rendering of integers and fixed-point scores.
//!
//! Similarity scores are fixed-point integers (`SCORE_SCALE` stands for
//! 1.0); the context assembler renders them in the familiar decimal form
//! `-?d.dddddd` with exactly six fractional digits.

use vstd::prelude::*;
use crate::similarity::SCORE_SCALE;

verus! {

/// The digit character for `d` in `0..=9`.
pub open spec fn digit_char(d: int) -> char {
    if d == 0 {
        '0'
    } else if d == 1 {
        '1'
    } else if d == 2 {
        '2'
    } else if d == 3 {
        '3'
    } else if d == 4 {
        '4'
    } else if d == 5 {
        '5'
    } else if d == 6 {
        '6'
    } else if d == 7 {
        '7'
    } else if d == 8 {
        '8'
    } else {
        '9'
    }
}

/// Decimal representation of `n`, most significant digit first, with no
/// leading zeros (just `0` for zero).
pub open spec fn dec_rep(n: nat) -> Seq<char>
    decreases n,
{
    if n < 10 {
        seq![digit_char(n as int)]
    } else {
        dec_rep(n / 10) + seq![digit_char((n % 10) as int)]
    }
}

/// Decimal representation of `n` padded with zeros to exactly `width`
/// digits (the low `width` digits of `n`).
pub open spec fn dec_rep_pad(n: nat, width: nat) -> Seq<char>
    decreases width,
{
    if width == 0 {
        Seq::empty()
    } else {
        dec_rep_pad(n / 10, (width - 1) as nat).push(digit_char((n % 10) as int))
    }
}

/// Decimal rendering of a fixed-point score `v` (in `SCORE_SCALE` units):
/// optional minus sign, integer part, point, six fractional digits.
pub open spec fn score_rep(v: int) -> Seq<char> {
    let mag = if v < 0 {
        -v
    } else {
        v
    };
    let sign: Seq<char> = if v < 0 {
        seq!['-']
    } else {
        Seq::empty()
    };
    sign + dec_rep((mag / 1_000_000) as nat) + seq!['.'] + dec_rep_pad((mag % 1_000_000) as nat, 6)
}

/// Character code after ASCII lowercasing: `A`..`Z` map 32 up, all other
/// characters keep their code.
pub open spec fn lower_code(c: char) -> int {
    if 'A' as int <= c as int <= 'Z' as int {
        c as int + 32
    } else {
        c as int
    }
}

/// ASCII-lowercased character code.
pub fn lower_code_of(c: char) -> (r: u32)
    ensures
        r as int == lower_code(c),
{
    let u = c as u32;
    if 'A' as u32 <= u && u <= 'Z' as u32 {
        u + 32
    } else {
        u
    }
}

/// Whether the text at position `i` matches `pat` (given in lowercase),
/// ASCII case-insensitively.
pub open spec fn tag_at(t: Seq<char>, i: int, pat: Seq<char>) -> bool {
    &&& 0 <= i
    &&& i + pat.len() <= t.len()
    &&& forall|k: int| 0 <= k < pat.len() ==> lower_code(t[i + k]) == lower_code(#[trigger] pat[k])
}

/// Whether `chars[i..]` starts, ASCII case-insensitively, with `pat`
/// (a lowercase pattern).
pub(crate) fn tag_at_exec(chars: &Vec<char>, i: usize, pat: &str) -> (r: bool)
    requires
        i <= chars@.len(),
    ensures
        r == tag_at(chars@, i as int, pat@),
{
    let p = str_to_chars(pat);
    if chars.len() - i < p.len() {
        return false;
    }
    let m = p.len();
    let mut k: usize = 0;
    while k < m
        invariant
            k <= m,
            m == p@.len(),
            p@ == pat@,
            i + m <= chars@.len(),
            chars@.len() <= usize::MAX,
            forall|x: int| 0 <= x < k ==> lower_code(chars@[i + x]) == lower_code(#[trigger] p@[x]),
        decreases m - k,
    {
        if lower_code_of(chars[i + k]) != lower_code_of(p[k]) {
            proof {
                assert(lower_code(chars@[i + k as int]) != lower_code(p@[k as int]));
            }
            return false;
        }
        proof {
            assert(lower_code(chars@[i + k as int]) == lower_code(p@[k as int]));
        }
        k = k + 1;
    }
    true
}

/// Relies on `str::chars`: yields the characters of the string, in order.
#[verifier::external_body]
pub(crate) fn str_to_chars(s: &str) -> (r: Vec<char>)
    ensures
        r@ == s@,
{
    s.chars().collect()
}

/// Relies on `String`'s `FromIterator<char>`: collecting characters builds
/// the string of exactly those characters, in order.
#[verifier::external_body]
pub(crate) fn chars_to_string(v: &Vec<char>) -> (r: String)
    ensures
        r@ == v@,
{
    v.iter().collect()
}

/// The digit character for `d` in `0..=9`.
pub fn digit_to_char(d: u64) -> (c: char)
    requires
        d < 10,
    ensures
        c == digit_char(d as int),
{
    if d == 0 {
        '0'
    } else if d == 1 {
        '1'
    } else if d == 2 {
        '2'
    } else if d == 3 {
        '3'
    } else if d == 4 {
        '4'
    } else if d == 5 {
        '5'
    } else if d == 6 {
        '6'
    } else if d == 7 {
        '7'
    } else if d == 8 {
        '8'
    } else {
        '9'
    }
}

/// Decimal rendering of `n`, without leading zeros.
pub fn u64_to_string(n: u64) -> (r: String)
    ensures
        r@ == dec_rep(n as nat),
    decreases n,
{
    if n < 10 {
        let mut v: Vec<char> = Vec::new();
        v.push(digit_to_char(n));
        let r = chars_to_string(&v);
        proof {
            assert(v@ =~= seq![digit_char(n as int)]);
        }
        r
    } else {
        let high = u64_to_string(n / 10);
        let mut v: Vec<char> = Vec::new();
        v.push(digit_to_char(n % 10));
        let low = chars_to_string(&v);
        let r = high.concat(low.as_str());
        proof {
            assert(v@ =~= seq![digit_char((n % 10) as int)]);
        }
        r
    }
}

/// The low six digits of `n`, zero-padded.
fn pad6(n: u64) -> (r: String)
    requires
        n < 1_000_000,
    ensures
        r@ == dec_rep_pad(n as nat, 6),
{
    let mut v: Vec<char> = Vec::new();
    v.push(digit_to_char(n / 100_000 % 10));
    v.push(digit_to_char(n / 10_000 % 10));
    v.push(digit_to_char(n / 1_000 % 10));
    v.push(digit_to_char(n / 100 % 10));
    v.push(digit_to_char(n / 10 % 10));
    v.push(digit_to_char(n % 10));
    let r = chars_to_string(&v);
    proof {
        reveal_with_fuel(dec_rep_pad, 8);
        assert(v@ =~= dec_rep_pad(n as nat, 6));
    }
    r
}

/// Decimal rendering of a fixed-point score, e.g. `0.994475` or `-1.000000`.
pub fn format_score(v: i64) -> (r: String)
    requires
        -SCORE_SCALE <= v <= SCORE_SCALE,
    ensures
        r@ == score_rep(v as int),
{
    let mag: u64 = if v < 0 {
        (-(v as i128)) as u64
    } else {
        v as u64
    };
    let int_part: u64 = mag / 1_000_000;
    let frac: u64 = mag % 1_000_000;
    let sign: String = if v < 0 {
        String::from_str("-")
    } else {
        String::new()
    };
    let r = sign.concat(u64_to_string(int_part).as_str()).concat(".").concat(
        pad6(frac).as_str(),
    );
    proof {
        reveal_strlit("-");
        reveal_strlit(".");
        assert("-"@ =~= seq!['-']);
        assert("."@ =~= seq!['.']);
        assert(r@ =~= score_rep(v as int));
    }
    r
}

} // verus!
