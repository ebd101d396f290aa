//! The mathematical model of binary64: what a bit pattern stands for, and which
//! bit pattern a non-negative rational number (or a square root) rounds to.
//!
//! Every finite value is an integer multiple of 2^-1074. Without its sign bit an
//! encoding is an integer from 0 to 2047 * 2^52, and its magnitude in units of
//! 2^-1074 grows with it; the encoding of infinity takes part as 2^1024, the
//! next value that the pattern would reach.
use vstd::arithmetic::power2::{lemma2_to64, lemma_pow2_pos, lemma_pow2_unfold, pow2};
use vstd::prelude::*;

verus! {

/// The number of encodings in one binade.
pub const CELL: u64 = 0x0010_0000_0000_0000;

/// The encoding of positive infinity.
pub const INF_ENC: u64 = 0x7FF0_0000_0000_0000;

/// The sign bit.
pub const SIGN: u64 = 0x8000_0000_0000_0000;

/// The exponent of an encoding's last place, in units of 2^-1074.
pub open spec fn scale(enc: int) -> nat {
    if enc < CELL {
        0
    } else {
        (enc / (CELL as int) - 1) as nat
    }
}

/// The integer significand of an encoding.
pub open spec fn significand(enc: int) -> int {
    enc - scale(enc) * CELL
}

/// The magnitude of an encoding in units of 2^-1074.
#[verifier::opaque]
pub open spec fn mag(enc: int) -> int {
    significand(enc) * pow2(scale(enc))
}

/// `num / den` lies nearest to the magnitude of `enc`; where it lies midway
/// between two magnitudes, `enc` is even.
pub open spec fn nearest(num: int, den: int, enc: int) -> bool {
    &&& 0 <= enc <= INF_ENC
    &&& enc > 0 ==> {
        ||| 2 * num > (mag(enc - 1) + mag(enc)) * den
        ||| 2 * num == (mag(enc - 1) + mag(enc)) * den && enc % 2 == 0
    }
    &&& enc < INF_ENC ==> {
        ||| 2 * num < (mag(enc) + mag(enc + 1)) * den
        ||| 2 * num == (mag(enc) + mag(enc + 1)) * den && enc % 2 == 0
    }
}

/// The square root of `num` lies nearest to the magnitude of `enc`, with the
/// same rule for ties.
pub open spec fn nearest_root(num: int, enc: int) -> bool {
    &&& 0 <= enc <= INF_ENC
    &&& enc > 0 ==> {
        let h = mag(enc - 1) + mag(enc);
        4 * num > h * h || 4 * num == h * h && enc % 2 == 0
    }
    &&& enc < INF_ENC ==> {
        let h = mag(enc) + mag(enc + 1);
        4 * num < h * h || 4 * num == h * h && enc % 2 == 0
    }
}

/// The encoding that `num / den` (in units of 2^-1074) rounds to.
pub closed spec fn round_ratio(num: int, den: int) -> u64 {
    choose|enc: u64| nearest(num, den, enc as int)
}

/// The encoding that the square root of `num` (in units of 2^-1074) rounds to.
pub closed spec fn round_root(num: int) -> u64 {
    choose|enc: u64| nearest_root(num, enc as int)
}

/// The magnitude over one cell of the encoding, and just past it.
pub proof fn lemma_mag_cell(t: nat, hi: int)
    requires
        0 <= hi < 2 * CELL,
        t == 0 || hi >= CELL,
    ensures
        mag(t * CELL + hi) == hi * pow2(t),
        mag(t * CELL + hi + 1) == (hi + 1) * pow2(t),
        scale(t * CELL + hi) == t,
{
    reveal(mag);
    let b = t * CELL + hi;
    let c = CELL as int;
    lemma2_to64();
    if hi >= c {
        assert(b / c == t + 1) by (nonlinear_arith)
            requires b == t * c + hi, c <= hi < 2 * c, c > 0;
    }
    if hi + 1 < 2 * c {
        if hi + 1 >= c {
            assert((b + 1) / c == t + 1) by (nonlinear_arith)
                requires b == t * c + hi, c <= hi + 1 < 2 * c, c > 0;
        }
    } else {
        assert(b + 1 == (t + 2) * c) by (nonlinear_arith)
            requires b == t * c + hi, hi + 1 == 2 * c;
        assert((b + 1) / c == t + 2) by (nonlinear_arith)
            requires b + 1 == (t + 2) * c, c > 0;
        lemma_pow2_unfold((t + 1) as nat);
        assert(significand(b + 1) == c) by (nonlinear_arith)
            requires significand(b + 1) == b + 1 - (t + 1) * c, b + 1 == (t + 2) * c;
        assert(c * pow2((t + 1) as nat) == (hi + 1) * pow2(t)) by (nonlinear_arith)
            requires pow2((t + 1) as nat) == 2 * pow2(t), hi + 1 == 2 * c;
    }
}

/// The scale and the significand of an encoding meet the bounds of a cell.
pub proof fn lemma_cell_of(enc: int)
    requires
        0 <= enc,
    ensures
        0 <= significand(enc) < 2 * CELL,
        scale(enc) == 0 || significand(enc) >= CELL,
        enc == scale(enc) * CELL + significand(enc),
        enc <= INF_ENC ==> scale(enc) <= 2046,
        enc < INF_ENC ==> scale(enc) <= 2045,
        mag(enc) == significand(enc) * pow2(scale(enc)),
        mag(enc + 1) == mag(enc) + pow2(scale(enc)),
        mag(enc) >= 0,
{
    let c = CELL as int;
    if enc >= c {
        let q = enc / c;
        assert(q >= 1 && enc - (q - 1) * c < 2 * c && enc - (q - 1) * c >= c) by (nonlinear_arith)
            requires q == enc / c, c > 0, enc >= c;
        assert(enc <= 2047 * c ==> q <= 2047) by (nonlinear_arith)
            requires q == enc / c, c > 0;
        assert(enc < 2047 * c ==> q < 2047) by (nonlinear_arith)
            requires q == enc / c, c > 0;
    }
    let t = scale(enc);
    let hi = significand(enc);
    lemma_mag_cell(t, hi);
    lemma_pow2_pos(t);
    assert((hi + 1) * pow2(t) == hi * pow2(t) + pow2(t)) by (nonlinear_arith);
    assert(hi * pow2(t) >= 0) by (nonlinear_arith)
        requires hi >= 0, pow2(t) >= 0;
}

/// Magnitudes grow strictly with the encoding.
pub proof fn lemma_mag_increasing(a: int, b: int)
    requires
        0 <= a < b,
    ensures
        mag(a) < mag(b),
    decreases b - a,
{
    lemma_cell_of(a);
    lemma_pow2_pos(scale(a));
    if a + 1 < b {
        lemma_mag_increasing(a + 1, b);
    }
}

/// The magnitude of zero is zero, and of nothing else.
pub proof fn lemma_mag_zero(enc: int)
    requires
        0 <= enc,
    ensures
        mag(0) == 0,
        mag(1) == 1,
        enc > 0 ==> mag(enc) > 0,
{
    lemma2_to64();
    lemma_mag_cell(0, 0);
    if enc > 0 {
        lemma_mag_increasing(0, enc);
    }
}

/// A ratio rounds to one encoding only.
pub proof fn lemma_nearest_unique(num: int, den: int, a: int, b: int)
    requires
        den > 0,
        nearest(num, den, a),
        nearest(num, den, b),
    ensures
        a == b,
{
    if a < b {
        lemma_nearest_order(num, den, a, b);
    }
    if b < a {
        lemma_nearest_order(num, den, b, a);
    }
}

proof fn lemma_nearest_order(num: int, den: int, a: int, b: int)
    requires
        den > 0,
        a < b,
        nearest(num, den, a),
    ensures
        !nearest(num, den, b),
{
    let lo = mag(a) + mag(a + 1);
    let hi = mag(b - 1) + mag(b);
    if a + 1 < b {
        lemma_mag_increasing(a, b - 1);
        lemma_mag_increasing(a + 1, b);
        assert(lo * den < hi * den) by (nonlinear_arith)
            requires lo < hi, den > 0;
    } else {
        assert(b == a + 1);
        assert(lo == hi);
    }
}

proof fn lemma_root_order(num: int, a: int, b: int)
    requires
        a < b,
        nearest_root(num, a),
    ensures
        !nearest_root(num, b),
{
    let lo = mag(a) + mag(a + 1);
    let hi = mag(b - 1) + mag(b);
    lemma_mag_zero(a);
    lemma_mag_zero(a + 1);
    if a + 1 < b {
        lemma_mag_increasing(a, b - 1);
        lemma_mag_increasing(a + 1, b);
        assert(lo * lo < hi * hi) by (nonlinear_arith)
            requires 0 <= lo < hi;
    } else {
        assert(lo == hi);
    }
}

/// What `round_ratio` is, from one encoding that the ratio is nearest to.
pub proof fn lemma_round_ratio_is(num: int, den: int, enc: u64)
    requires
        den > 0,
        nearest(num, den, enc as int),
    ensures
        round_ratio(num, den) == enc,
{
    lemma_nearest_unique(num, den, round_ratio(num, den) as int, enc as int);
}

/// What `round_root` is, from one encoding that the root is nearest to.
pub proof fn lemma_round_root_is(num: int, enc: u64)
    requires
        nearest_root(num, enc as int),
    ensures
        round_root(num) == enc,
{
    let other = round_root(num);
    if other < enc {
        lemma_root_order(num, other as int, enc as int);
    }
    if enc < other {
        lemma_root_order(num, enc as int, other as int);
    }
}

/// A magnitude rounds to its own encoding.
pub proof fn lemma_round_exact(enc: u64, den: int)
    requires
        enc <= INF_ENC,
        den > 0,
    ensures
        round_ratio(mag(enc as int) * den, den) == enc,
{
    let e = enc as int;
    let m = mag(e);
    if e > 0 {
        lemma_mag_increasing(e - 1, e);
        let h = mag(e - 1) + m;
        assert(2 * (m * den) > h * den) by (nonlinear_arith)
            requires 2 * m > h, den > 0;
    }
    lemma_mag_increasing(e, e + 1);
    let h = m + mag(e + 1);
    assert(2 * (m * den) < h * den) by (nonlinear_arith)
        requires 2 * m < h, den > 0;
    lemma_round_ratio_is(m * den, den, enc);
}

} // verus!
