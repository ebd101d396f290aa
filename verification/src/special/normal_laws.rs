//! The range of the normal distribution function, for an exponential function that keeps
//! to its own.
use crate::consts::{EPSILON, HALF, MIN_POSITIVE, ONE, ZERO};
use crate::float::{lit, F64};
use crate::float::arith::lemma_round_zero;
use crate::float::bounds::{
    at_least, at_most, lemma_finer, lemma_literal, lemma_part, lemma_product_at_least,
    lemma_product_at_most, lemma_quotient_at_least, lemma_quotient_at_most, lemma_ratio_le,
    lemma_sum_at_least, lemma_sum_at_most, part,
};
use crate::float::laws::{law_rounding_is_monotone, law_rounding_is_nearest};
use crate::float::model::{lemma_mag_zero, mag, round_ratio, CELL, INF_ENC};
use crate::float::number::{lemma_le_units, lemma_lt_units, lemma_order};
use crate::float::signed::{lemma_rounded, lemma_sum_units, representable, rounded};
use crate::functions::{exp, Elementary};
use crate::search::drive::SEARCH_BOUND;
use crate::special::normal::{
    central, central_spec, cumnor, cumnor_spec, dinvnr, dinvnr_spec, far, far_spec, flush,
    flush_spec, newton, shoulder, shoulder_spec, split_exponential, split_exponential_spec, stvaln,
    A0, A1, A2, A3, A4, B0, B1, B2, B3, C0, C1, C2, C3, C4, C5, C6, C7, C8, D0, D1, D2, D3, D4, D5,
    D6, D7, P0, P1, P2, P3, P4, P5, Q0, Q1, Q2, Q3, Q4, R2PI, ROOT32, SQRPI, THRSH,
};
use vstd::arithmetic::power2::{
    lemma2_to64, lemma2_to64_rest, lemma_pow2_adds, lemma_pow2_pos, pow2,
};
use vstd::prelude::*;

verus! {

/// Small powers of two.
pub proof fn lemma_small_powers()
    ensures
        forall|n: nat| n <= 64 ==> #[trigger] pow2(n) > 0,
        pow2(0) == 1,
        pow2(1) == 2,
        pow2(3) == 8,
        pow2(5) == 32,
        pow2(7) == 128,
        pow2(8) == 256,
        pow2(10) == 1024,
        pow2(12) == 4096,
        pow2(16) == 0x1_0000,
        pow2(20) == 0x100000,
        pow2(21) == 0x200000,
        pow2(22) == 0x400000,
        pow2(23) == 0x800000,
        pow2(24) == 0x1000000,
        pow2(25) == 0x2000000,
        pow2(26) == 0x4000000,
        pow2(27) == 0x8000000,
        pow2(28) == 0x10000000,
        pow2(29) == 0x20000000,
        pow2(30) == 0x40000000,
        pow2(31) == 0x80000000,
        pow2(32) == 0x100000000,
        pow2(33) == 0x200000000,
        pow2(34) == 0x400000000,
        pow2(35) == 0x800000000,
        pow2(36) == 0x1000000000,
        pow2(37) == 0x2000000000,
        pow2(38) == 0x4000000000,
        pow2(39) == 0x8000000000,
        pow2(40) == 0x10000000000,
        pow2(41) == 0x20000000000,
        pow2(42) == 0x40000000000,
        pow2(43) == 0x80000000000,
        pow2(44) == 0x100000000000,
        pow2(45) == 0x200000000000,
        pow2(46) == 0x400000000000,
        pow2(47) == 0x800000000000,
        pow2(48) == 0x1000000000000,
        pow2(49) == 0x2000000000000,
        pow2(50) == 0x4000000000000,
        pow2(51) == 0x8000000000000,
        pow2(52) == 0x10000000000000,
        pow2(53) == 0x20000000000000,
        pow2(54) == 0x40000000000000,
        pow2(55) == 0x80000000000000,
        pow2(56) == 0x100000000000000,
        pow2(57) == 0x200000000000000,
        pow2(58) == 0x400000000000000,
        pow2(59) == 0x800000000000000,
        pow2(60) == 0x1000000000000000,
        pow2(61) == 0x2000000000000000,
        pow2(62) == 0x4000000000000000,
        pow2(63) == 0x8000000000000000,
{
    lemma2_to64();
    lemma2_to64_rest();
    assert forall|n: nat| n <= 64 implies #[trigger] pow2(n) > 0 by {
        lemma_pow2_pos(n);
    }
}

pub proof fn lemma_zero_bounds()
    ensures
        at_most(lit(ZERO), 0, 8),
        lit(ZERO).units() == 0,
{
    lemma_mag_zero(0);
    assert(0 * pow2(1066) == 0);
}

pub proof fn lemma_at_most(x: F64, y: F64, k: int, e: int)
    requires
        x.units() >= 0,
        x.le(y),
        at_most(y, k, e),
    ensures
        at_most(x, k, e),
{
    broadcast use lemma_le_units;
    lemma_order(x.enc() as int, INF_ENC as int);
    lemma_order(y.enc() as int, INF_ENC as int);
}

pub proof fn lemma_at_least(x: F64, y: F64, k: int, e: int)
    requires
        x.is_finite(),
        x.gt(y),
        at_least(y, k, e),
    ensures
        at_least(x, k, e),
{
    broadcast use lemma_lt_units;
}

pub proof fn lemma_looser(x: F64, k: int, k2: int, e: int)
    requires
        at_most(x, k, e),
        k <= k2,
    ensures
        at_most(x, k2, e),
{
    lemma_pow2_pos((1074 - e) as nat);
    assert(part(k, e) <= part(k2, e)) by (nonlinear_arith)
        requires k <= k2, pow2((1074 - e) as nat) > 0;
}

pub proof fn lemma_tighter(x: F64, k: int, k2: int, e: int)
    requires
        at_least(x, k, e),
        k2 <= k,
    ensures
        at_least(x, k2, e),
{
    lemma_pow2_pos((1074 - e) as nat);
    assert(part(k2, e) <= part(k, e)) by (nonlinear_arith)
        requires k2 <= k, pow2((1074 - e) as nat) > 0;
}

/// A bound over a coarser denominator.
pub proof fn lemma_coarser(x: F64, k: int, e: int, f: int, kr: int)
    requires
        at_most(x, k, e + f),
        0 <= e,
        0 <= f,
        e + f <= 1074,
        k <= kr * pow2(f as nat),
    ensures
        at_most(x, kr, e),
{
    lemma_pow2_adds(f as nat, (1074 - e - f) as nat);
    lemma_pow2_pos((1074 - e - f) as nat);
    let a = pow2(f as nat) as int;
    let b = pow2((1074 - e - f) as nat) as int;
    assert(k * b <= kr * (a * b)) by (nonlinear_arith)
        requires k <= kr * a, b > 0;
}

proof fn lemma_scaled(c: F64, x: F64, kc: int, e: int, kx: int, f: int, kr: int)
    requires
        c.units() >= 0,
        x.units() >= 0,
        at_most(c, kc, e),
        at_most(x, kx, f),
        0 <= kc,
        0 <= kx,
        kc * kx < CELL,
        0 <= e,
        0 <= f,
        e + f <= 1074,
        kc * kx <= kr * pow2(f as nat),
    ensures
        at_most(c * x, kr, e),
        (c * x).units() >= 0,
{
    lemma_product_at_most(c, x, kc, e, kx, f);
    lemma_coarser(c * x, kc * kx, e, f, kr);
}

pub proof fn lemma_not_negative(x: F64, e: int)
    requires
        x.is_finite(),
        x.units() >= 0,
    ensures
        at_least(x, 0, e),
{
    assert(0 * pow2((1074 - e) as nat) == 0);
}

proof fn lemma_horner(s: F64, c: F64, x: F64, ks: int, kc: int, e: int, kx: int, f: int, kr: int)
    requires
        s.units() >= 0,
        c.units() >= 0,
        x.units() >= 0,
        at_most(s, ks, e),
        at_most(c, kc, e),
        at_most(x, kx, f),
        0 <= ks < CELL,
        0 <= kc < CELL,
        0 <= kx,
        (ks + kc) * kx < CELL,
        0 <= e,
        0 <= f,
        e + f <= 1074,
        (ks + kc) * kx <= kr * pow2(f as nat),
    ensures
        at_most((s + c) * x, kr, e),
        ((s + c) * x).units() >= 0,
{
    lemma_not_negative(s, e);
    lemma_not_negative(c, e);
    lemma_sum_at_most(s, c, ks, kc, e, 0);
    assert(0 * pow2((1074 - e) as nat) == 0);
    lemma_scaled(s + c, x, ks + kc, e, kx, f, kr);
}

proof fn lemma_last(s: F64, c: F64, ks: int, lo: int, hi: int, e: int)
    requires
        s.units() >= 0,
        at_most(s, ks, e),
        at_least(c, lo, e),
        at_most(c, hi, e),
        0 <= ks < CELL,
        0 <= lo <= hi < CELL,
        ks + hi < CELL,
        0 <= e <= 1074,
    ensures
        at_most(s + c, ks + hi, e),
        at_least(s + c, lo, e),
        (s + c).units() >= 0,
{
    lemma_part(lo, e);
    lemma_not_negative(s, e);
    lemma_not_negative(c, e);
    lemma_sum_at_most(s, c, ks, hi, e, 0);
    lemma_looser(s, ks, ks + hi, e);
    lemma_looser(c, hi, ks + hi, e);
    lemma_sum_at_least(s, c, 0, lo, e, ks + hi);
}

pub proof fn lemma_negated(x: F64, k: int, e: int)
    requires
        at_most(x, k, e),
        x.units() >= 0,
    ensures
        at_least(x.negated(), -k, e),
        at_most(x.negated(), 0, e),
{
    crate::float::laws::law_negation(x);
    assert((-k) * pow2((1074 - e) as nat) == -(k * pow2((1074 - e) as nat))) by (nonlinear_arith);
    assert(0 * pow2((1074 - e) as nat) == 0);
}

/// Sums and products keep the order of what is not negative.
proof fn lemma_sums_in_order(s: F64, s2: F64, c: F64, c2: F64, k: int, kc: int)
    requires
        s.is_finite() && c.is_finite(),
        0 <= s.units() <= s2.units(),
        0 <= c.units() <= c2.units(),
        c2.units() > 0,
        at_most(s2, k, 0),
        at_most(c2, kc, 0),
        0 <= k < CELL,
        0 <= kc < CELL,
        k + kc < CELL,
    ensures
        (s + c).is_finite(),
        0 <= (s + c).units() <= (s2 + c2).units(),
        (s2 + c2).units() > 0,
        at_most(s2 + c2, k + kc, 0),
{
    lemma_part(k, 0);
    lemma_part(kc, 0);
    lemma_not_negative(s2, 0);
    lemma_not_negative(c2, 0);
    lemma_sum_at_most(s2, c2, k, kc, 0, 0);
    lemma_sum_units(s, c);
    lemma_sum_units(s2, c2);
    lemma_rounded(s.units() + c.units(), s2.units() + c2.units());
    lemma_rounded(c2.units(), s2.units() + c2.units());
    crate::float::signed::lemma_units_representable(c2);
}

proof fn lemma_dominate(s: F64, s2: F64, c: F64, c2: F64, y: F64, k: int, kc: int, ky: int)
    requires
        s.is_finite() && c.is_finite() && y.is_finite(),
        0 <= s.units() <= s2.units(),
        0 <= c.units() <= c2.units(),
        c2.units() > 0,
        y.units() >= 0,
        at_most(s2, k, 0),
        at_most(c2, kc, 0),
        at_most(y, ky, 0),
        0 <= k < CELL,
        0 <= kc < CELL,
        k + kc < CELL,
        0 <= ky,
        (k + kc) * ky < CELL,
    ensures
        ((s + c) * y).is_finite(),
        0 <= ((s + c) * y).units() <= ((s2 + c2) * y).units(),
        at_most((s2 + c2) * y, (k + kc) * ky, 0),
{
    lemma_sums_in_order(s, s2, c, c2, k, kc);
    let a = s + c;
    let b = s2 + c2;
    lemma_product_at_most(b, y, k + kc, 0, ky, 0);
    lemma_at_most_units(a, b, k + kc);
    lemma_product_at_most(a, y, k + kc, 0, ky, 0);
    lemma_products_in_order(a, b, y);
}

proof fn lemma_at_most_units(a: F64, b: F64, k: int)
    requires
        a.is_finite(),
        a.units() <= b.units(),
        at_most(b, k, 0),
    ensures
        at_most(a, k, 0),
{
}

pub proof fn lemma_products_in_order(a: F64, b: F64, y: F64)
    requires
        a.is_finite() && b.is_finite() && y.is_finite(),
        0 <= a.units() <= b.units(),
        y.units() >= 0,
    ensures
        (a * y).units() <= (b * y).units(),
{
    crate::float::bounds::lemma_product(a, y);
    crate::float::bounds::lemma_product(b, y);
    lemma_pow2_pos(1074);
    assert(a.units() * y.units() <= b.units() * y.units()) by (nonlinear_arith)
        requires a.units() <= b.units(), y.units() >= 0;
    law_rounding_is_monotone(a.units() * y.units(), b.units() * y.units(), pow2(1074) as int);
    lemma_order((a * y).enc() as int, (b * y).enc() as int);
}

/// A factor of at most one does not make a number larger.
proof fn lemma_no_larger(c: F64, y: F64)
    requires
        lit(ZERO).le(c),
        c.le(lit(ONE)),
        y.is_finite(),
        y.units() >= 0,
        at_most(y, 6, 0),
    ensures
        (c * y).is_finite(),
        0 <= (c * y).units() <= y.units(),
{
    broadcast use lemma_le_units;
    lemma_mag_zero(0);
    lemma_order(c.enc() as int, INF_ENC as int);
    lemma_order(ONE as int, INF_ENC as int);
    lemma_products_in_order(c, lit(ONE), y);
    crate::float::laws::law_product_with_one(y);
    crate::float::bounds::lemma_product(c, y);
    lemma_order((c * y).enc() as int, y.enc() as int);
    lemma_mag_zero((c * y).enc() as int);
}

/// A quotient of a number by one that is not smaller is at most one.
proof fn lemma_proper(a: F64, b: F64)
    requires
        a.is_finite() && b.is_finite(),
        0 <= a.units() <= b.units(),
        b.units() > 0,
    ensures
        at_most(a / b, 1, 0),
        (a / b).units() >= 0,
{
    crate::float::bounds::lemma_quotient(a, b);
    lemma_small_powers();
    lemma_part(1, 0);
    assert(1 * pow2(1074) == pow2(1074));
    lemma_pow2_pos(1074);
    assert(a.units() * pow2(1074) <= pow2(1074) * b.units()) by (nonlinear_arith)
        requires a.units() <= b.units(), pow2(1074) > 0;
    lemma_ratio_le(a.units() * pow2(1074), b.units(), part(1, 0));
    lemma_order((a / b).enc() as int, INF_ENC as int);
}

/// The inverse of a square far out.
pub proof fn lemma_inverse_square(x: F64)
    requires
        at_least(x, 181, 5),
    ensures
        at_most(lit(ONE) / (x * x), 129, 12),
        (lit(ONE) / (x * x)).units() >= 0,
{
    lemma_small_powers();
    lemma_part(181, 5);
    lemma_part(129, 12);
    let xx = x * x;
    lemma_literal(ONE, 1022, 0x10_0000_0000_0000, 42, 1024, 1024, 10);
    if xx.is_finite() {
        lemma_product_at_least(x, x, 181, 5, 181, 5);
        lemma_quotient_at_most(lit(ONE), xx, 1024, 32761, 10, 129, 12);
    } else {
        crate::float::bounds::lemma_product(x, x);
        reveal(F64::spec_euclidean_or_real_div);
        lemma_mag_zero(0);
    }
}

/// Near the middle the distribution function is within one half of one half.
pub proof fn lemma_central(x: F64, y: F64)
    requires
        x.units() >= 0,
        x.le(lit(THRSH)),
    ensures
        at_most(central(x, y), 1, 1),
        central(x, y).units() >= 0,
        at_most(x, 1, 39) ==> at_most(central(x, y), 1, 39),
{
    reveal(central_spec);
    lemma_small_powers();
    broadcast use lemma_le_units;
    lemma_literal(THRSH, 1021, 5970962457960351, 45, 169, 170, 8);
    lemma_at_most(x, lit(THRSH), 170, 8);
    lemma_looser(x, 170, 170, 8);
    let xsq = if y.gt(lit(HALF) * lit(EPSILON)) {
        x * x
    } else {
        lit(ZERO)
    };
    lemma_zero_bounds();
    lemma_scaled(x, x, 170, 8, 170, 8, 113);
    lemma_looser(lit(ZERO), 0, 113, 8);
    assert(at_most(xsq, 113, 8) && xsq.units() >= 0);
    lemma_literal(A4, 1018, 4732911241172193, 48, 16, 17, 8);
    let n0 = lit(A4) * xsq;
    lemma_scaled(lit(A4), xsq, 17, 8, 113, 8, 8);
    lemma_literal(A0, 1023, 5033340116989939, 43, 572, 573, 8);
    let n1 = (n0 + lit(A0)) * xsq;
    lemma_horner(n0, lit(A0), xsq, 8, 573, 8, 113, 8, 257);
    lemma_literal(A1, 1029, 5665677198722487, 37, 41223, 41224, 8);
    let n2 = (n1 + lit(A1)) * xsq;
    lemma_horner(n1, lit(A1), xsq, 257, 41224, 8, 113, 8, 18310);
    lemma_literal(A2, 1032, 4695748016471409, 34, 273328, 273329, 8);
    let n3 = (n2 + lit(A2)) * xsq;
    lemma_horner(n2, lit(A2), xsq, 18310, 273329, 8, 113, 8, 128732);
    lemma_literal(A3, 1036, 4990403247526636, 30, 4647675, 4647676, 8);
    let n = n3 + lit(A3);
    lemma_last(n3, lit(A3), 128732, 4647675, 4647676, 8);
    let d0 = xsq;
    lemma_finer(xsq, 113, 8, 0);
    lemma_finer(xsq, 0, 8, 0);
    lemma_literal(B0, 1027, 6643172821152478, 39, 12083, 12084, 8);
    let d1 = (d0 + lit(B0)) * xsq;
    lemma_horner(d0, lit(B0), xsq, 113, 12084, 8, 113, 8, 5384);
    lemma_literal(B1, 1031, 8585853659927992, 35, 249881, 249882, 8);
    let d2 = (d1 + lit(B1)) * xsq;
    lemma_horner(d1, lit(B1), xsq, 5384, 249882, 8, 113, 8, 112677);
    lemma_literal(B2, 1035, 5641007137598920, 31, 2626798, 2626799, 8);
    let d3 = (d2 + lit(B2)) * xsq;
    lemma_horner(d2, lit(B2), xsq, 112677, 2626799, 8, 113, 8, 1209222);
    lemma_literal(B3, 1037, 6254542941030317, 29, 11649994, 11649995, 8);
    let d = d3 + lit(B3);
    lemma_last(d3, lit(B3), 1209222, 11649994, 11649995, 8);
    assert(at_most(n, 4776408, 8) && n.units() >= 0);
    assert(at_least(d, 11649994, 8));
    lemma_product_at_most(x, n, 170, 8, 4776408, 8);
    lemma_finer(d, 11649994, 8, 8);
    assert(11649994int * 256 == 2982398464);
    assert(170int * 4776408 == 811989360);
    lemma_quotient_at_most(x * n, d, 811989360, 2982398464, 16, 1, 1);
    if at_most(x, 1, 39) {
        lemma_product_at_most(x, n, 1, 39, 4776408, 8);
        lemma_coarser(x * n, 4776408, 37, 10, 4665);
        lemma_tighter(d, 11649994, 8388608, 8);
        lemma_finer(d, 8388608, 8, 29);
        lemma2_to64();
        lemma2_to64_rest();
        assert(8388608int * 0x2000_0000 == 0x10_0000_0000_0000);
        lemma_quotient_at_most(x * n, d, 4665, 0x10_0000_0000_0000, 37, 1, 39);
    }
}

/// Between, the tail is at most its exponential.
pub proof fn lemma_shoulder(y: F64)
    requires
        y.units() > 0,
        y.le(lit(ROOT32)),
    ensures
        at_most(shoulder(y), 1, 0),
        shoulder(y).units() >= 0,
{
    reveal(shoulder_spec);
    lemma_small_powers();
    broadcast use lemma_le_units;
    lemma_zero_bounds();
    lemma_literal(ROOT32, 1024, 6369051670845502, 50, 5, 6, 0);
    lemma_at_most(y, lit(ROOT32), 6, 0);
    let n0 = lit(C8) * y;
    let d0 = y;
    lemma_no_larger(lit(C8), y);
    lemma_literal(D0, 1026, 6267515498700699, 48, 22, 23, 0);
    assert(lit(C0).le(lit(D0)) && lit(ZERO).le(lit(C0)));
    let n1 = (n0 + lit(C0)) * y;
    let d1 = (d0 + lit(D0)) * y;
    lemma_dominate(n0, d0, lit(C0), lit(D0), y, 6, 23, 6);
    lemma_literal(D1, 1029, 8281975521529319, 45, 235, 236, 0);
    assert(lit(C1).le(lit(D1)) && lit(ZERO).le(lit(C1)));
    let n2 = (n1 + lit(C1)) * y;
    let d2 = (d1 + lit(D1)) * y;
    lemma_dominate(n1, d1, lit(C1), lit(D1), y, 174, 236, 6);
    lemma_literal(D2, 1032, 6682293350123967, 42, 1519, 1520, 0);
    assert(lit(C2).le(lit(D2)) && lit(ZERO).le(lit(C2)));
    let n3 = (n2 + lit(C2)) * y;
    let d3 = (d2 + lit(D2)) * y;
    lemma_dominate(n2, d2, lit(C2), lit(D2), y, 2460, 1520, 6);
    lemma_literal(D3, 1034, 7130946761563431, 40, 6485, 6486, 0);
    assert(lit(C3).le(lit(D3)) && lit(ZERO).le(lit(C3)));
    let n4 = (n3 + lit(C3)) * y;
    let d4 = (d3 + lit(D3)) * y;
    lemma_dominate(n3, d3, lit(C3), lit(D3), y, 23880, 6486, 6);
    lemma_literal(D4, 1036, 5117009369212579, 38, 18615, 18616, 0);
    assert(lit(C4).le(lit(D4)) && lit(ZERO).le(lit(C4)));
    let n5 = (n4 + lit(C4)) * y;
    let d5 = (d4 + lit(D4)) * y;
    lemma_dominate(n4, d4, lit(C4), lit(D4), y, 182196, 18616, 6);
    lemma_literal(D5, 1037, 4796750417170054, 37, 34900, 34901, 0);
    assert(lit(C5).le(lit(D5)) && lit(ZERO).le(lit(C5)));
    let n6 = (n5 + lit(C5)) * y;
    let d6 = (d5 + lit(D5)) * y;
    lemma_dominate(n5, d5, lit(C5), lit(D5), y, 1204872, 34901, 6);
    lemma_literal(D6, 1037, 5348025009139684, 37, 38912, 38913, 0);
    assert(lit(C6).le(lit(D6)) && lit(ZERO).le(lit(C6)));
    let n7 = (n6 + lit(C6)) * y;
    let d7 = (d6 + lit(D6)) * y;
    lemma_dominate(n6, d6, lit(C6), lit(D6), y, 7438638, 38913, 6);
    lemma_literal(D7, 1036, 5411089706868577, 38, 19685, 19686, 0);
    assert(lit(C7).le(lit(D7)) && lit(ZERO).le(lit(C7)));
    lemma_sums_in_order(n7, d7, lit(C7), lit(D7), 44865306, 19686);
    lemma_proper(n7 + lit(C7), d7 + lit(D7));
}

/// What the leading term of the tail is lessened by, far out: a rational function of the
/// inverse square.
pub open spec fn rest(xsq: F64) -> F64 {
    let xnum = ((((lit(P5) * xsq + lit(P0)) * xsq + lit(P1)) * xsq + lit(P2)) * xsq + lit(P3))
        * xsq;
    let xden = ((((xsq + lit(Q0)) * xsq + lit(Q1)) * xsq + lit(Q2)) * xsq + lit(Q3)) * xsq;
    xsq * (xnum + lit(P4)) / (xden + lit(Q4))
}

pub proof fn lemma_rest(xsq: F64)
    requires
        at_most(xsq, 129, 12),
        xsq.units() >= 0,
    ensures
        at_most(rest(xsq), 1, 3),
        rest(xsq).units() >= 0,
{
    lemma_small_powers();
    lemma_literal(P5, 1016, 6650466799023322, 34, 387108, 387109, 24);
    let n0 = lit(P5) * xsq;
    lemma_scaled(lit(P5), xsq, 387109, 24, 129, 12, 12192);
    lemma_literal(P0, 1019, 7778564460266012, 31, 3622176, 3622177, 24);
    let n1 = (n0 + lit(P0)) * xsq;
    lemma_horner(n0, lit(P0), xsq, 12192, 3622177, 24, 129, 12, 114462);
    lemma_literal(P1, 1019, 4590110575422868, 31, 2137436, 2137437, 24);
    let n2 = (n1 + lit(P1)) * xsq;
    lemma_horner(n1, lit(P1), xsq, 114462, 2137437, 24, 129, 12, 70922);
    lemma_literal(P2, 1016, 6408882504495226, 34, 373046, 373047, 24);
    let n3 = (n2 + lit(P2)) * xsq;
    lemma_horner(n2, lit(P2), xsq, 70922, 373047, 24, 129, 12, 13983);
    lemma_literal(P3, 1012, 6556061356937099, 38, 23850, 23851, 24);
    let n4 = (n3 + lit(P3)) * xsq;
    lemma_horner(n3, lit(P3), xsq, 13983, 23851, 24, 129, 12, 1192);
    lemma_literal(P4, 1006, 8592604055585923, 44, 488, 489, 24);
    let n = n4 + lit(P4);
    lemma_last(n4, lit(P4), 1192, 488, 489, 24);
    let d0 = xsq;
    lemma_finer(xsq, 129, 12, 12);
    lemma_finer(xsq, 0, 12, 12);
    lemma_literal(Q0, 1022, 5783793290445019, 28, 21546309, 21546310, 24);
    let d1 = (d0 + lit(Q0)) * xsq;
    lemma_horner(d0, lit(Q0), xsq, 528384, 21546310, 24, 129, 12, 695224);
    lemma_literal(Q1, 1020, 8435029756997805, 30, 7855733, 7855734, 24);
    let d2 = (d1 + lit(Q1)) * xsq;
    lemma_horner(d1, lit(Q1), xsq, 695224, 7855734, 24, 129, 12, 269306);
    lemma_literal(Q2, 1018, 4754946449878073, 32, 1107097, 1107098, 24);
    let d3 = (d2 + lit(Q2)) * xsq;
    lemma_horner(d2, lit(Q2), xsq, 269306, 1107098, 24, 129, 12, 43349);
    lemma_literal(Q3, 1013, 8721612140281319, 37, 63458, 63459, 24);
    let d4 = (d3 + lit(Q3)) * xsq;
    lemma_horner(d3, lit(Q3), xsq, 43349, 63459, 24, 129, 12, 3364);
    lemma_literal(Q4, 1008, 5384616069610193, 42, 1224, 1225, 24);
    let d = d4 + lit(Q4);
    lemma_last(d4, lit(Q4), 3364, 1224, 1225, 24);
    assert(at_most(n, 1681, 24) && n.units() >= 0);
    assert(at_least(d, 1224, 24));
    assert(129int * 1681 == 216849);
    lemma_product_at_most(xsq, n, 129, 12, 1681, 24);
    lemma_finer(d, 1224, 24, 12);
    assert(1224int * 4096 == 5013504);
    lemma_quotient_at_most(xsq * n, d, 216849, 5013504, 36, 1, 3);
}

/// Far out, the tail is at most an eighth of its exponential, and at least `c / 2^8` of it
/// for a distance of at most `top`.
pub proof fn lemma_far(x: F64, top: int, c: int)
    requires
        x.is_finite(),
        x.gt(lit(ROOT32)),
        0 <= c <= 256,
        0 < top <= 0x1_0000,
        at_most(x, top, 0) ==> c * (top * 1024) <= 280 * 256,
    ensures
        at_most(far(x, x), 1, 3),
        far(x, x).units() >= 0,
        at_most(x, top, 0) ==> at_least(far(x, x), c, 8),
{
    reveal(far_spec);
    lemma_small_powers();
    broadcast use lemma_le_units;
    broadcast use lemma_lt_units;
    lemma_literal(ROOT32, 1024, 6369051670845502, 45, 181, 182, 5);
    lemma_at_least(x, lit(ROOT32), 181, 5);
    let xsq = lit(ONE) / (x * x);
    lemma_inverse_square(x);
    lemma_rest(xsq);
    let r = rest(xsq);
    lemma_literal(SQRPI, 1020, 7186705221432913, 44, 408, 409, 10);
    lemma_finer(r, 1, 3, 7);
    lemma_negated(r, 128, 10);
    assert(at_least(r.negated(), -128, 10) && at_most(r.negated(), 0, 10));
    lemma_looser(r.negated(), 0, 409, 10);
    lemma_sum_at_least(lit(SQRPI), r.negated(), 408, -128, 10, 409);
    lemma_tighter(lit(SQRPI), 408, -128, 10);
    lemma_sum_at_most(lit(SQRPI), r.negated(), 409, 0, 10, -128);
    let s = lit(SQRPI) - r;
    assert(at_least(s, 280, 10) && at_most(s, 409, 10));
    lemma_finer(x, 181, 5, 5);
    lemma_part(280, 10);
    lemma_quotient_at_most(s, x, 409, 5792, 10, 1, 3);
    if at_most(x, top, 0) {
        lemma_finer(x, top, 0, 10);
        lemma_part(5792, 10);
        lemma_quotient_at_least(s, x, 280, top * 1024, 10, c, 8);
    }
}

/// The exponential function of a number that is not positive lies between zero and one,
/// and does not tell the zeros apart.
pub open spec fn decays<M: Fn(Elementary) -> F64>(m: &M) -> bool {
    &&& exp(m, lit(ZERO)) == exp(m, lit(ZERO).negated())
    &&& forall|z: F64|
        z.le(lit(ZERO)) ==> lit(ZERO).le(#[trigger] exp(m, z)) && exp(m, z).le(lit(ONE))
}

/// The argument cut to sixteenths.
pub open spec fn sixteenths(x: F64) -> F64 {
    (x * lit(SIXTEEN)).trunc() / lit(SIXTEEN)
}

/// The bits of sixteen.
pub const SIXTEEN: u64 = 0x4030_0000_0000_0000;

/// The bits of minus one half.
pub const MINUS_HALF: u64 = 0xBFE0_0000_0000_0000;

/// The whole part of a number that is not negative is not larger, and less than one
/// smaller.
proof fn lemma_trunc(t: F64)
    requires
        t.is_finite(),
        t.units() >= 0,
    ensures
        t.trunc().is_finite(),
        0 <= t.trunc().units() <= t.units(),
        t.trunc().units() > t.units() - part(1, 0) || t.trunc().units() == t.units(),
        t.trunc().units() % (pow2(1074) as int) == 0,
{
    reveal(F64::trunc_spec);
    let d = pow2(1074) as int;
    lemma_pow2_pos(1074);
    lemma_order(t.enc() as int, INF_ENC as int);
    lemma_mag_zero(0);
    assert(t.units() == mag(t.enc() as int));
    let m = t.units();
    let w = crate::float::whole::whole(t.enc() as int);
    assert(w == m / d);
    vstd::arithmetic::div_mod::lemma_fundamental_div_mod(m, d);
    assert(d * (m / d) == (m / d) * d) by (nonlinear_arith);
    let n = w * d;
    assert(0 <= n <= m && n > m - d);
    lemma_whole_is_a_number(t.enc(), n, d);
    lemma_rounded(n, n);
    law_rounding_is_nearest(n, 1);
    lemma_order(round_ratio(n, 1) as int, INF_ENC as int);
    vstd::arithmetic::div_mod::lemma_mod_multiples_basic(w, d);
}

/// What is left of a number when its fraction is cut off is a number.
proof fn lemma_whole_is_a_number(enc: u64, n: int, d: int)
    requires
        enc < INF_ENC,
        d == pow2(1074),
        n == (mag(enc as int) / d) * d,
    ensures
        representable(n),
{
    crate::float::model::lemma_cell_of(enc as int);
    let t = crate::float::model::scale(enc as int);
    let k = crate::float::model::significand(enc as int);
    lemma_pow2_pos(t);
    lemma_pow2_pos(1074);
    let g = pow2(t) as int;
    let m = mag(enc as int);
    if t >= 1074 {
        lemma_pow2_adds((t - 1074) as nat, 1074);
        let h = pow2((t - 1074) as nat) as int;
        assert(m == (k * h) * d) by (nonlinear_arith)
            requires m == k * g, g == h * d;
        vstd::arithmetic::div_mod::lemma_div_multiples_vanish(k * h, d);
        assert((k * h) * d == d * (k * h)) by (nonlinear_arith);
        assert(n == m);
        crate::float::signed::lemma_representable(k, t);
    } else {
        lemma_pow2_adds(t, (1074 - t) as nat);
        let h = pow2((1074 - t) as nat) as int;
        lemma_pow2_pos((1074 - t) as nat);
        // n = (m / d) d, with m = k g and d = h g: n = ((k / h) h) g
        let w = m / d;
        vstd::arithmetic::div_mod::lemma_fundamental_div_mod(m, d);
        let k2 = w * h;
        assert(n == k2 * g) by (nonlinear_arith)
            requires n == w * d, d == g * h, k2 == w * h;
        assert(w >= 0) by {
            assert(m >= 0) by (nonlinear_arith)
                requires m == k * g, k >= 0, g > 0;
            vstd::arithmetic::div_mod::lemma_div_pos_is_pos(m, d);
        }
        assert(k2 >= 0) by (nonlinear_arith)
            requires k2 == w * h, w >= 0, h > 0;
        assert(n <= m) by {
            assert(d * w == w * d) by (nonlinear_arith);
            vstd::arithmetic::div_mod::lemma_mod_bound(m, d);
        }
        assert(k2 <= k) by (nonlinear_arith)
            requires k2 * g <= k * g, g > 0;
        crate::float::signed::lemma_representable(k2, t);
    }
}

/// Cutting a number that is not negative to sixteenths does not make it larger.
pub proof fn lemma_sixteenths(x: F64)
    requires
        x.units() >= 0,
        x.le(lit(SEARCH_BOUND)),
    ensures
        sixteenths(x).is_finite(),
        0 <= sixteenths(x).units() <= x.units(),
        x.is_finite(),
        ({
            let w = (x * lit(SIXTEEN)).trunc();
            &&& w.is_finite()
            &&& 0 <= w.units() <= 16 * x.units()
            &&& w.units() >= 16 * x.units() - part(1, 0)
            &&& w.units() % (pow2(1074) as int) == 0
        }),
{
    broadcast use lemma_le_units;
    lemma_small_powers();
    lemma_order(x.enc() as int, SEARCH_BOUND as int);
    lemma_order(SEARCH_BOUND as int, INF_ENC as int);
    let u = x.units();
    let d = pow2(1074) as int;
    lemma_pow2_pos(1074);
    lemma_literal(SIXTEEN, 1026, 0x10_0000_0000_0000, 48, 16, 16, 0);
    assert(lit(SIXTEEN).units() == 16 * d);
    crate::float::bounds::lemma_product(x, lit(SIXTEEN));
    assert(u * (16 * d) == (16 * u) * d) by (nonlinear_arith);
    lemma_sixteen_times(x);
    lemma_ratio_le((16 * u) * d, d, 16 * u);
    crate::float::bounds::lemma_ratio_ge((16 * u) * d, d, 16 * u);
    let t = x * lit(SIXTEEN);
    assert(t.units() == 16 * u);
    lemma_order(t.enc() as int, INF_ENC as int);
    lemma_trunc(t);
    let w = t.trunc();
    assert(1 * d == d);
    crate::float::bounds::lemma_quotient(w, lit(SIXTEEN));
    assert(w.units() * d <= u * (16 * d)) by (nonlinear_arith)
        requires w.units() <= 16 * u, d > 0;
    crate::float::signed::lemma_units_representable(x);
    lemma_ratio_le(w.units() * d, 16 * d, u);
    lemma_order(sixteenths(x).enc() as int, INF_ENC as int);
}

/// Sixteen times a number that is not too large is a number.
proof fn lemma_sixteen_times(x: F64)
    requires
        x.units() >= 0,
        x.enc() <= SEARCH_BOUND,
    ensures
        representable(16 * x.units()),
        16 * x.units() < mag(INF_ENC as int),
{
    let e = x.enc() as int;
    crate::float::model::lemma_cell_of(e);
    lemma_order(e, INF_ENC as int);
    lemma_mag_zero(0);
    let t = crate::float::model::scale(e);
    let k = crate::float::model::significand(e);
    lemma_small_powers();
    assert(t <= 2020) by (nonlinear_arith)
        requires e == t * CELL + k, e <= SEARCH_BOUND, k >= 0, CELL == 0x0010_0000_0000_0000,
            SEARCH_BOUND == 0x7E37_E43C_8800_759C;
    lemma_pow2_adds(4, t);
    assert(pow2(4) == 16) by {
        lemma2_to64();
    }
    let g = pow2(t) as int;
    assert(16 * (k * g) == k * (16 * g)) by (nonlinear_arith);
    crate::float::signed::lemma_representable(k, t + 4);
    assert(x.units() == k * g);
    // k 2^(t+4) < 2^53 2^2024 <= 2^52 2^2046
    crate::float::model::lemma_mag_cell(2046, CELL as int);
    lemma_pow2_adds(t + 4, (2046 - t - 4) as nat);
    lemma_pow2_pos(t + 4);
    vstd::arithmetic::power2::lemma_pow2_strictly_increases(1, (2046 - t - 4) as nat);
    let h = pow2((t + 4) as nat) as int;
    let b = pow2((2046 - t - 4) as nat) as int;
    let c = CELL as int;
    assert(k * h < c * (h * b)) by (nonlinear_arith)
        requires 0 <= k < 2 * c, h > 0, b > 2, c > 0;
}

/// Half of what is not negative, with the sign turned over, is not positive.
proof fn lemma_minus_half(u: F64)
    requires
        !u.is_nan(),
        lit(ZERO).le(u),
    ensures
        !(lit(MINUS_HALF) * u).is_nan(),
        (lit(MINUS_HALF) * u).le(lit(ZERO)),
{
    broadcast use lemma_le_units;
    reveal(F64::spec_mul);
    lemma_mag_zero(0);
    lemma_order(u.enc() as int, 0);
    if u.is_finite() {
        crate::float::laws::law_product_is_nearest(lit(MINUS_HALF), u);
        lemma_order((lit(MINUS_HALF) * u).enc() as int, 0);
        if u.sign() {
            assert(mag(lit(MINUS_HALF).enc() as int) * 0 == 0);
            lemma_pow2_pos(1074);
            lemma_round_zero(pow2(1074) as int);
        }
    } else {
        lemma_order(INF_ENC as int, 0);
    }
}

/// A product of finite numbers that are not negative is not negative.
proof fn lemma_product_not_negative(a: F64, b: F64)
    requires
        a.is_finite() && a.units() >= 0,
        b.is_finite() && b.units() >= 0,
    ensures
        !(a * b).is_nan(),
        lit(ZERO).le(a * b),
{
    broadcast use lemma_le_units;
    lemma_mag_zero(0);
    crate::float::bounds::lemma_product(a, b);
    lemma_order((a * b).enc() as int, 0);
}

/// What both exponentials are taken of is not positive.
pub proof fn lemma_split_arguments(x: F64)
    requires
        x.units() >= 0,
        x.le(lit(SEARCH_BOUND)),
    ensures
        (lit(MINUS_HALF) * sixteenths(x) * sixteenths(x)).le(lit(ZERO)),
        (lit(MINUS_HALF) * ((x - sixteenths(x)) * (x + sixteenths(x)))).le(lit(ZERO)),
{
    broadcast use lemma_le_units;
    lemma_sixteenths(x);
    lemma_mag_zero(0);
    lemma_order(HALF as int, ONE as int);
    let a = sixteenths(x);
    crate::search::bracket_laws::lemma_bound_is_tame();
    // the square
    crate::float::laws::law_product_of_negated(lit(HALF), a);
    crate::float::laws::law_product_is_nearest(lit(HALF), a);
    let h = lit(HALF) * a;
    lemma_product_not_negative(lit(HALF), a);
    assert(lit(MINUS_HALF) == lit(HALF).negated());
    assert(lit(MINUS_HALF) * a == h.negated());
    crate::float::laws::law_negation(h);
    crate::float::laws::law_negation(h.negated() * a);
    lemma_products_in_order(lit(HALF), lit(ONE), a);
    crate::float::laws::law_product_with_one(a);
    lemma_order(h.enc() as int, INF_ENC as int);
    lemma_order(h.enc() as int, a.enc() as int);
    lemma_mag_zero(h.enc() as int);
    assert(h.is_finite());
    crate::float::laws::law_product_of_negated(h, a);
    lemma_product_not_negative(h, a);
    crate::float::laws::law_negation(h * a);
    // the rest
    crate::float::laws::law_negation(a);
    lemma_sum_units(x, a.negated());
    lemma_sum_units(x, a);
    lemma_rounded(0, x.units() - a.units());
    lemma_rounded(0, x.units() + a.units());
    lemma_rounded(0, 0);
    lemma_product_not_negative(x - a, x + a);
    lemma_minus_half((x - a) * (x + a));
}

/// The density's exponential lies between zero and one.
pub proof fn lemma_split<M: Fn(Elementary) -> F64>(m: &M, x: F64)
    requires
        decays(m),
        x.units() >= 0,
        x.le(lit(SEARCH_BOUND)),
    ensures
        at_most(split_exponential(m, x), 1, 0),
        split_exponential(m, x).units() >= 0,
        ({
            let a = sixteenths(x);
            let e1 = exp(m, lit(MINUS_HALF) * a * a);
            let e2 = exp(m, lit(MINUS_HALF) * ((x - a) * (x + a)));
            &&& split_exponential(m, x) == e1 * e2
            &&& at_most(e1, 1, 0) && e1.units() >= 0
            &&& at_most(e2, 1, 0) && e2.units() >= 0
        }),
{
    reveal(split_exponential_spec);
    lemma_split_arguments(x);
    let a = sixteenths(x);
    let e1 = exp(m, lit(MINUS_HALF) * a * a);
    let e2 = exp(m, lit(MINUS_HALF) * ((x - a) * (x + a)));
    lemma_unit(e1);
    lemma_unit(e2);
    lemma_product_at_most(e1, e2, 1, 0, 1, 0);
}

/// What lies between zero and one, by its magnitude.
pub proof fn lemma_unit(e: F64)
    ensures
        lit(ZERO).le(e) && e.le(lit(ONE)) <==> at_most(e, 1, 0) && e.units() >= 0,
{
    broadcast use lemma_le_units;
    lemma_small_powers();
    lemma_mag_zero(0);
    lemma_literal(ONE, 1022, 0x10_0000_0000_0000, 52, 1, 1, 0);
    lemma_order(e.enc() as int, INF_ENC as int);
    lemma_order(ONE as int, INF_ENC as int);
}

/// A whole number of units up to one is rounded by less than 2^-53.
pub proof fn lemma_grid(n: int)
    requires
        0 <= n <= part(1, 0),
    ensures
        -part(1, 53) <= rounded(n) - n <= part(1, 53),
        0 <= rounded(n) <= part(1, 0),
{
    let g = pow2(1021) as int;
    lemma_pow2_pos(1021);
    lemma_pow2_adds(53, 1021);
    lemma_small_powers();
    assert(pow2(53) == 2 * CELL);
    assert(part(1, 0) == 2 * CELL * g && part(1, 53) == g);
    lemma_part(1, 0);
    lemma_part(1, 53);
    let q = n / g;
    vstd::arithmetic::div_mod::lemma_fundamental_div_mod(n, g);
    vstd::arithmetic::div_mod::lemma_mod_bound(n, g);
    vstd::arithmetic::div_mod::lemma_div_pos_is_pos(n, g);
    assert(g * q == q * g) by (nonlinear_arith);
    assert((q + 1) * g == q * g + g) by (nonlinear_arith);
    lemma_rounded(n, part(1, 0));
    lemma_rounded(part(1, 0), part(1, 0));
    lemma_rounded(0, n);
    if q >= 2 * CELL {
        assert(q * g >= (2 * CELL) * g) by (nonlinear_arith)
            requires q >= 2 * CELL, g > 0;
        assert(n == part(1, 0));
    } else {
        lemma_part(q, 53);
        lemma_rounded(q * g, n);
        lemma_rounded(q * g, q * g);
        if q + 1 < 2 * CELL {
            lemma_part(q + 1, 53);
        } else {
            assert((q + 1) * g == part(1, 0));
        }
        lemma_rounded(n, (q + 1) * g);
        lemma_rounded((q + 1) * g, (q + 1) * g);
    }
}

/// Dropping what is too small for a normal number changes next to nothing.
pub proof fn lemma_flush(p: F64)
    requires
        at_most(p, 1, 0),
        p.units() >= 0,
    ensures
        at_most(flush(p), 1, 0),
        flush(p).units() >= 0,
        p.units() - part(1, 1022) <= flush(p).units() <= p.units(),
{
    reveal(flush_spec);
    broadcast use lemma_lt_units;
    lemma_mag_zero(0);
    lemma_small_powers();
    lemma_part(1, 1022);
    lemma_part(1, 0);
    lemma_literal(MIN_POSITIVE, 0, 0x10_0000_0000_0000, 52, 1, 1, 1022);
}

/// Two tails, of which each is not negative and the sum is about one.
pub open spec fn two_tails(p: F64, q: F64) -> bool {
    &&& lit(ZERO).le(p) && p.le(lit(ONE))
    &&& lit(ZERO).le(q) && q.le(lit(ONE))
    &&& -part(1, 51) <= p.units() + q.units() - part(1, 0) <= part(1, 51)
}

proof fn lemma_two_tails(p: F64, q: F64)
    requires
        at_most(p, 1, 0) && p.units() >= 0,
        at_most(q, 1, 0) && q.units() >= 0,
        -part(1, 52) <= p.units() + q.units() - part(1, 0) <= part(1, 52),
    ensures
        two_tails(flush(p), flush(q)),
{
    lemma_flush(p);
    lemma_flush(q);
    lemma_unit(flush(p));
    lemma_unit(flush(q));
    lemma_small_powers();
    lemma_pow2_adds(1, 1022);
    vstd::arithmetic::power2::lemma_pow2_strictly_increases(52, 1021);
    assert(pow2(1023) == 2 * pow2(1022)) by (nonlinear_arith)
        requires pow2(1023) == pow2(1) * pow2(1022), pow2(1) == 2;
    assert(pow2(52) < pow2(1022)) by {
        vstd::arithmetic::power2::lemma_pow2_strictly_increases(52, 1022);
    }
    vstd::arithmetic::power2::lemma_pow2_strictly_increases(53, 1022);
    lemma_pow2_adds(1, 52);
}

proof fn lemma_upper<M: Fn(Elementary) -> F64>(m: &M, x: F64)
    requires
        decays(m),
        x.units() >= 0,
        x.le(lit(SEARCH_BOUND)),
    ensures
        two_tails(cumnor(m, x).0, cumnor(m, x).1),
{
    reveal(cumnor_spec);
    lemma_small_powers();
    broadcast use lemma_le_units;
    broadcast use lemma_lt_units;
    lemma_mag_zero(0);
    let y = x.abs();
    lemma_literal(HALF, 1021, 0x10_0000_0000_0000, 52, 1, 1, 1);
    lemma_literal(ONE, 1022, 0x10_0000_0000_0000, 52, 1, 1, 0);
    lemma_order(x.enc() as int, 0);
    lemma_pow2_adds(1, 1073);
    lemma_pow2_adds(1, 1021);
    lemma_part(1, 0);
    lemma_part(1, 1);
    lemma_part(1, 52);
    lemma_part(1, 53);
    assert(2 * part(1, 1) == part(1, 0));
    assert(2 * part(1, 53) == part(1, 52));
    if y.le(lit(THRSH)) {
        assert(x.le(lit(THRSH)));
        let r = central(x, y);
        lemma_central(x, y);
        crate::float::laws::law_negation(r);
        lemma_sum_units(lit(HALF), r);
        lemma_sum_units(lit(HALF), r.negated());
        lemma_grid(lit(HALF).units() + r.units());
        lemma_grid(lit(HALF).units() - r.units());
        lemma_two_tails(lit(HALF) + r, lit(HALF) - r);
    } else {
        lemma_order(THRSH as int, 0);
        assert(x.units() > 0);
        assert(y.units() == x.units());
        let tail = if y.le(lit(ROOT32)) {
            split_exponential(m, y) * shoulder(y)
        } else {
            split_exponential(m, x) * far(x, y)
        };
        assert(at_most(tail, 1, 0) && tail.units() >= 0) by {
            if y.le(lit(ROOT32)) {
                assert(y.le(lit(SEARCH_BOUND)));
                lemma_split(m, y);
                lemma_shoulder(y);
                lemma_product_at_most(split_exponential(m, y), shoulder(y), 1, 0, 1, 0);
            } else {
                lemma_split(m, x);
                assert(y == x) by {
                    lemma_order(x.enc() as int, 0);
                }
                lemma_order(x.enc() as int, SEARCH_BOUND as int);
                lemma_far(x, 1, 0);
                lemma_coarser(far(x, x), 1, 0, 3, 1);
                lemma_product_at_most(split_exponential(m, x), far(x, x), 1, 0, 1, 0);
            }
        }
        crate::float::laws::law_negation(tail);
        lemma_sum_units(lit(ONE), tail.negated());
        lemma_grid(lit(ONE).units() - tail.units());
        lemma_two_tails(lit(ONE) - tail, tail);
    }
}

/// Both tails of the normal distribution lie between zero and one, they add up to one
/// within 2^-51, and turning the argument's sign over exchanges them.
pub proof fn law_normal_tails<M: Fn(Elementary) -> F64>(m: &M, x: F64)
    requires
        decays(m),
        x.abs().le(lit(SEARCH_BOUND)),
    ensures
        two_tails(cumnor(m, x).0, cumnor(m, x).1),
        cumnor(m, x.negated()) == (cumnor(m, x).1, cumnor(m, x).0),
{
    broadcast use lemma_le_units;
    let y = x.abs();
    crate::float::laws::law_negation(x);
    crate::float::laws::law_negation(y);
    lemma_mag_zero(0);
    lemma_order(x.enc() as int, 0);
    lemma_upper(m, y);
    crate::special::laws::law_normal_tails_mirror(m, y);
    if x.sign() {
        assert(x == y.negated());
        assert(x.negated() == y);
    } else {
        assert(x == y);
    }
}

/// The exponential function of a number of at least `-k` is at least the power of two with
/// the exponent `-1.46 k`, rounded down.
pub open spec fn not_steeper<M: Fn(Elementary) -> F64>(m: &M) -> bool {
    forall|z: F64, k: int|
        0 <= k <= 700 && #[trigger] within_of_zero(z, k) ==> at_least(exp(m, z), 1, (73 * k + 49) / 50)
}

/// The number lies between `-k` and zero.
pub open spec fn within_of_zero(z: F64, k: int) -> bool {
    at_least(z, -k, 0) && z.le(lit(ZERO))
}

/// Cutting a number of at most 64 to sixteenths takes at most a sixteenth off.
pub proof fn lemma_sixteenths_close(x: F64)
    requires
        x.units() >= 0,
        at_most(x, 64, 0),
    ensures
        x.units() - sixteenths(x).units() <= part(1, 4),
        x.le(lit(SEARCH_BOUND)),
{
    broadcast use lemma_le_units;
    lemma_small_powers();
    lemma_literal(SIXTEEN, 1026, 0x10_0000_0000_0000, 48, 16, 16, 0);
    lemma_bound_is_large(x);
    lemma_sixteenths(x);
    let d = pow2(1074) as int;
    lemma_pow2_pos(1074);
    lemma_pow2_adds(4, 1070);
    assert(pow2(4) == 16) by {
        lemma2_to64();
    }
    let g = pow2(1070) as int;
    assert(d == 16 * g);
    let w = (x * lit(SIXTEEN)).trunc();
    let n = w.units() / d;
    vstd::arithmetic::div_mod::lemma_fundamental_div_mod(w.units(), d);
    vstd::arithmetic::div_mod::lemma_div_pos_is_pos(w.units(), d);
    assert(w.units() == n * d) by (nonlinear_arith)
        requires w.units() == d * n;
    // w / 16 is n 2^1070
    assert(n * d == (n * g) * 16) by (nonlinear_arith)
        requires d == 16 * g;
    assert(n < 2 * CELL) by (nonlinear_arith)
        requires n * d <= 16 * (64 * d), d > 0, CELL == 0x0010_0000_0000_0000;
    lemma_part(n, 4);
    crate::float::bounds::lemma_quotient(w, lit(SIXTEEN));
    assert(part(n, 4) * lit(SIXTEEN).units() == w.units() * d) by (nonlinear_arith)
        requires part(n, 4) == n * g, lit(SIXTEEN).units() == 16 * d, w.units() == (n * g) * 16;
    crate::float::bounds::lemma_ratio_ge(w.units() * d, lit(SIXTEEN).units(), part(n, 4));
    assert(1 * d == d && 1 * g == g);
}

pub proof fn lemma_bound_is_large(x: F64)
    requires
        x.units() >= 0,
        at_most(x, 64, 0),
    ensures
        x.le(lit(SEARCH_BOUND)),
{
    broadcast use lemma_le_units;
    lemma_small_powers();
    lemma_literal(SIXTY_FOUR, 1028, 0x10_0000_0000_0000, 46, 64, 64, 0);
    lemma_order(SIXTY_FOUR as int, SEARCH_BOUND as int);
    lemma_mag_zero(0);
}

/// The bits of 37.
pub const THIRTY_SEVEN: u64 = 0x4042_8000_0000_0000;

/// Where the larger tail of the normal distribution is one, up to a distance of 37, the
/// smaller one is still positive: it is not what is left of one.
pub proof fn law_normal_small_tail_is_positive<M: Fn(Elementary) -> F64>(m: &M, x: F64)
    requires
        decays(m),
        not_steeper(m),
        x.gt(lit(ROOT32)),
        x.le(lit(THIRTY_SEVEN)),
    ensures
        cumnor(m, x).1.gt(lit(ZERO)),
        cumnor(m, x.negated()).0.gt(lit(ZERO)),
{
    broadcast use lemma_le_units;
    broadcast use lemma_lt_units;
    lemma_small_powers();
    lemma_mag_zero(0);
    lemma_literal(ROOT32, 1024, 6369051670845502, 50, 5, 6, 0);
    lemma_literal(THIRTY_SEVEN, 1027, 0x12_8000_0000_0000, 47, 37, 37, 0);
    lemma_at_most(x, lit(THIRTY_SEVEN), 37, 0);
    lemma_sixteenths_close(x);
    lemma_sixteenths(x);
    lemma_split(m, x);
    let a = sixteenths(x);
    let z1 = lit(MINUS_HALF) * a * a;
    let z2 = lit(MINUS_HALF) * ((x - a) * (x + a));
    lemma_square_argument(x);
    lemma_rest_argument(x);
    let e1 = exp(m, z1);
    let e2 = exp(m, z2);
    lemma_split_arguments(x);
    assert(within_of_zero(z1, 685));
    assert(within_of_zero(z2, 3));
    assert(at_least(e1, 1, 1001));
    assert(at_least(e2, 1, 5));
    lemma_product_at_least(e1, e2, 1, 1001, 1, 5);
    let s = split_exponential(m, x);
    lemma_order(x.enc() as int, SEARCH_BOUND as int);
    lemma_far(x, 37, 1);
    let f = far(x, x);
    lemma_coarser(f, 1, 0, 3, 1);
    lemma_product_at_most(s, f, 1, 0, 1, 0);
    lemma_product_at_least(s, f, 1, 1006, 1, 8);
    let tail = s * f;
    reveal(cumnor_spec);
    reveal(flush_spec);
    assert(x.abs() == x) by {
        lemma_order(x.enc() as int, 0);
    }
    lemma_order(THRSH as int, ROOT32 as int);
    assert(cumnor(m, x).1 == flush(tail));
    lemma_literal(MIN_POSITIVE, 0, 0x10_0000_0000_0000, 52, 1, 1, 1022);
    lemma_part(1, 1014);
    vstd::arithmetic::power2::lemma_pow2_strictly_increases(52, 60);
    assert(flush(tail) == tail);
    law_normal_tails(m, x);
}

/// Minus half of a square of at most 37 squared.
proof fn lemma_square_argument(x: F64)
    requires
        x.units() >= 0,
        at_most(x, 37, 0),
    ensures
        at_least(lit(MINUS_HALF) * sixteenths(x) * sixteenths(x), -685, 0),
{
    lemma_looser(x, 37, 64, 0);
    lemma_bound_is_large(x);
    lemma_sixteenths(x);
    lemma_small_powers();
    let a = sixteenths(x);
    assert(at_most(a, 37, 0));
    lemma_literal(HALF, 1021, 0x10_0000_0000_0000, 52, 1, 1, 1);
    lemma_product_at_most(lit(HALF), a, 1, 1, 37, 0);
    let h = lit(HALF) * a;
    lemma_product_at_most(h, a, 37, 1, 37, 0);
    lemma_coarser(h * a, 1369, 0, 1, 685);
    crate::float::laws::law_product_of_negated(lit(HALF), a);
    crate::float::laws::law_product_of_negated(h, a);
    crate::float::laws::law_product_is_nearest(lit(HALF), a);
    crate::float::laws::law_product_is_nearest(h, a);
    assert(lit(MINUS_HALF) == lit(HALF).negated());
    lemma_negated(h * a, 685, 0);
}

/// Minus half of the rest of a square of at most 37 squared.
proof fn lemma_rest_argument(x: F64)
    requires
        x.units() >= 0,
        at_most(x, 37, 0),
    ensures
        at_least(lit(MINUS_HALF) * ((x - sixteenths(x)) * (x + sixteenths(x))), -3, 0),
{
    lemma_looser(x, 37, 64, 0);
    lemma_bound_is_large(x);
    lemma_sixteenths(x);
    lemma_sixteenths_close(x);
    lemma_small_powers();
    let a = sixteenths(x);
    lemma_part(37, 0);
    lemma_part(1, 4);
    lemma_part(74, 0);
    crate::float::laws::law_negation(a);
    lemma_sum_units(x, a.negated());
    lemma_sum_units(x, a);
    lemma_rounded(0, x.units() - a.units());
    lemma_rounded(x.units() - a.units(), part(1, 4));
    lemma_rounded(part(1, 4), 0);
    lemma_rounded(0, x.units() + a.units());
    lemma_rounded(x.units() + a.units(), part(74, 0));
    lemma_rounded(part(74, 0), 0);
    lemma_rounded(0, 0);
    assert(74 * pow2(1074) == 2 * (37 * pow2(1074)));
    let d = x - a;
    let s = x + a;
    lemma_product_at_most(d, s, 1, 4, 74, 0);
    let del = d * s;
    lemma_literal(HALF, 1021, 0x10_0000_0000_0000, 52, 1, 1, 1);
    lemma_product_at_most(lit(HALF), del, 1, 1, 74, 4);
    lemma_coarser(lit(HALF) * del, 74, 0, 5, 3);
    crate::float::laws::law_product_of_negated(lit(HALF), del);
    crate::float::laws::law_product_is_nearest(lit(HALF), del);
    assert(lit(MINUS_HALF) == lit(HALF).negated());
    lemma_negated(lit(HALF) * del, 3, 0);
}

/// The exponential function of a number of at most `-k` is at most the power of two with
/// the exponent `-1.4 k`, rounded up.
pub open spec fn not_flatter<M: Fn(Elementary) -> F64>(m: &M) -> bool {
    forall|z: F64, k: int|
        0 <= k <= 700 && #[trigger] past(z, k) ==> at_most(exp(m, z), 1, (7 * k) / 5)
}

/// The number is at most `-k`.
pub open spec fn past(z: F64, k: int) -> bool {
    at_most(z, -k, 0)
}

/// Taking at most 2^-57 from one leaves one.
proof fn lemma_one_stays(t: F64)
    requires
        at_most(t, 1, 57),
        t.units() >= 0,
    ensures
        lit(ONE) - t == lit(ONE),
{
    reveal(F64::spec_add);
    crate::float::laws::law_negation(t);
    lemma_small_powers();
    lemma_literal(ONE, 1022, 0x10_0000_0000_0000, 52, 1, 1, 0);
    let g = pow2(1017) as int;
    lemma_pow2_pos(1017);
    lemma_pow2_adds(57, 1017);
    lemma_pow2_adds(4, 1017);
    assert(pow2(4) == 16 && pow2(57) == 0x200_0000_0000_0000) by {
        lemma2_to64();
        lemma2_to64_rest();
    }
    crate::float::model::lemma_mag_cell(1021, 2 * CELL - 1);
    crate::float::model::lemma_mag_cell(1022, CELL as int);
    lemma_pow2_adds(5, 1017);
    assert(1021 * CELL + 2 * CELL - 1 == ONE - 1);
    assert(1022 * CELL + CELL == ONE);
    let n = lit(ONE).units() - t.units();
    assert(pow2(1021) == 16 * g && pow2(1022) == 32 * g);
    assert(mag(ONE as int) == 0x200_0000_0000_0000 * g) by (nonlinear_arith)
        requires mag(ONE as int) == CELL * pow2(1022), pow2(1022) == 32 * g, CELL
            == 0x0010_0000_0000_0000;
    assert(mag(ONE - 1) == mag(ONE as int) - 16 * g) by (nonlinear_arith)
        requires mag(ONE - 1) == (2 * CELL - 1) * pow2(1021), pow2(1021) == 16 * g, mag(ONE as int)
            == 0x200_0000_0000_0000 * g, CELL == 0x0010_0000_0000_0000;
    assert(mag(ONE + 1) == mag(ONE as int) + 32 * g) by (nonlinear_arith)
        requires mag(ONE + 1) == (CELL + 1) * pow2(1022), pow2(1022) == 32 * g, mag(ONE as int)
            == 0x200_0000_0000_0000 * g, CELL == 0x0010_0000_0000_0000;
    assert(t.units() <= g);
    assert(crate::float::model::nearest(n, 1, ONE as int));
    crate::float::model::lemma_round_ratio_is(n, 1, ONE);
}

/// Minus half of a square of at least nine squared.
proof fn lemma_square_argument_far(x: F64)
    requires
        at_least(x, 9, 0),
        at_most(x, 37, 0),
    ensures
        past(lit(MINUS_HALF) * sixteenths(x) * sixteenths(x), 39),
{
    lemma_part(9, 0);
    lemma_bound_is_large(x);
    lemma_sixteenths(x);
    lemma_sixteenths_close(x);
    lemma_small_powers();
    let a = sixteenths(x);
    lemma_pow2_adds(4, 1070);
    assert(pow2(4) == 16) by {
        lemma2_to64();
    }
    assert(at_least(a, 143, 4));
    assert(at_most(a, 37, 0));
    lemma_literal(HALF, 1021, 0x10_0000_0000_0000, 52, 1, 1, 1);
    lemma_product_at_most(lit(HALF), a, 1, 1, 37, 0);
    lemma_product_at_least(lit(HALF), a, 1, 1, 143, 4);
    let h = lit(HALF) * a;
    lemma_product_at_most(h, a, 37, 1, 37, 0);
    lemma_product_at_least(h, a, 143, 5, 143, 4);
    let s = h * a;
    lemma_pow2_adds(9, 1065);
    assert(pow2(9) == 512) by {
        lemma2_to64();
    }
    assert(part(39, 0) <= part(20449, 9)) by (nonlinear_arith)
        requires part(39, 0) == 39 * pow2(1074), part(20449, 9) == 20449 * pow2(1065), pow2(1074)
            == 512 * pow2(1065), pow2(1065) > 0;
    crate::float::laws::law_product_of_negated(lit(HALF), a);
    crate::float::laws::law_product_of_negated(h, a);
    crate::float::laws::law_product_is_nearest(lit(HALF), a);
    crate::float::laws::law_product_is_nearest(h, a);
    crate::float::laws::law_negation(s);
    assert(lit(MINUS_HALF) == lit(HALF).negated());
    assert((-39) * pow2(1074) == -(39 * pow2(1074)));
}

/// From a distance of nine on, up to 37, the larger tail of the normal distribution is one.
pub proof fn law_normal_large_tail_is_one<M: Fn(Elementary) -> F64>(m: &M, x: F64)
    requires
        decays(m),
        not_flatter(m),
        at_least(x, 9, 0),
        x.le(lit(THIRTY_SEVEN)),
    ensures
        cumnor(m, x).0 == lit(ONE),
        cumnor(m, x.negated()).1 == lit(ONE),
{
    broadcast use lemma_le_units;
    broadcast use lemma_lt_units;
    lemma_small_powers();
    lemma_mag_zero(0);
    lemma_part(9, 0);
    lemma_literal(ROOT32, 1024, 6369051670845502, 50, 5, 6, 0);
    lemma_literal(THIRTY_SEVEN, 1027, 0x12_8000_0000_0000, 47, 37, 37, 0);
    lemma_at_most(x, lit(THIRTY_SEVEN), 37, 0);
    lemma_pow2_pos(1074);
    assert(x.gt(lit(ROOT32)));
    lemma_bound_is_large(x);
    lemma_split(m, x);
    lemma_square_argument_far(x);
    let a = sixteenths(x);
    let z1 = lit(MINUS_HALF) * a * a;
    let z2 = lit(MINUS_HALF) * ((x - a) * (x + a));
    let e1 = exp(m, z1);
    let e2 = exp(m, z2);
    assert(past(z1, 39));
    assert(at_most(e1, 1, 54));
    lemma_product_at_most(e1, e2, 1, 54, 1, 0);
    let s = split_exponential(m, x);
    lemma_order(x.enc() as int, SEARCH_BOUND as int);
    lemma_far(x, 1, 0);
    let f = far(x, x);
    lemma_product_at_most(s, f, 1, 54, 1, 3);
    let tail = s * f;
    lemma_one_stays(tail);
    reveal(cumnor_spec);
    reveal(flush_spec);
    assert(x.abs() == x) by {
        lemma_order(x.enc() as int, 0);
    }
    lemma_order(THRSH as int, ROOT32 as int);
    lemma_order(MIN_POSITIVE as int, ONE as int);
    assert(cumnor(m, x).0 == flush(lit(ONE)));
    law_normal_tails(m, x);
}

/// `x` is the last Newton step, from `x0`, of the search for the argument at which the
/// distribution function is `pp`: the step is less than 1e-13 of `x`.
pub open spec fn last_step<M: Fn(Elementary) -> F64>(m: &M, pp: F64, x0: F64, x: F64) -> bool {
    let dx = (cumnor(m, x0).0 - pp) / (lit(R2PI) * exp(m, lit(MINUS_HALF) * x0 * x0));
    x == x0 - dx && (dx / x).abs().lt(lit(STEP))
}

/// The bits of 1e-13.
pub const STEP: u64 = 0x3D3C_25C2_6849_7682;

/// Newton's steps end with the last one, or give the starting value back.
pub proof fn law_newton_ends<M: Fn(Elementary) -> F64>(
    m: &M,
    pp: F64,
    strtx: F64,
    xcur: F64,
    n: u64,
)
    ensures
        ({
            let x = newton(m, pp, strtx, xcur, n);
            x == strtx || exists|x0: F64| #[trigger] last_step(m, pp, x0, x)
        }),
    decreases n,
{
    if n > 0 {
        let dx = (cumnor(m, xcur).0 - pp) / (lit(R2PI) * exp(m, lit(MINUS_HALF) * xcur * xcur));
        let x = xcur - dx;
        if (dx / x).abs().lt(lit(STEP)) {
            assert(last_step(m, pp, xcur, x));
        } else {
            law_newton_ends(m, pp, strtx, x, (n - 1) as u64);
        }
    }
}

/// A quotient below a fraction comes of magnitudes below it.
pub proof fn lemma_quotient_below(a: F64, b: F64, k: int, e: int)
    requires
        a.is_finite(),
        b.is_finite(),
        b.enc() != 0,
        0 < k < 2 * CELL,
        0 <= e <= 1074,
        mag((a / b).enc() as int) < part(k, e),
    ensures
        mag(a.enc() as int) * pow2(1074) < part(k, e) * mag(b.enc() as int),
{
    crate::float::laws::law_quotient_is_nearest(a, b);
    let num = mag(a.enc() as int) * pow2(1074);
    let den = mag(b.enc() as int);
    lemma_order(a.enc() as int, b.enc() as int);
    lemma_pow2_pos(1074);
    assert(num >= 0) by (nonlinear_arith)
        requires num == mag(a.enc() as int) * pow2(1074), mag(a.enc() as int) >= 0, pow2(1074) > 0;
    crate::float::model::lemma_round_ratio_is(num, den, (a / b).enc());
    lemma_part(k, e);
    if num >= part(k, e) * den {
        crate::float::bounds::lemma_ratio_ge(num, den, part(k, e));
    }
}

/// The density's constant times an exponential of at most one is at most one half.
pub proof fn lemma_density<M: Fn(Elementary) -> F64>(m: &M, x0: F64)
    requires
        decays(m),
        x0.is_finite(),
    ensures
        ({
            let d = lit(R2PI) * exp(m, lit(MINUS_HALF) * x0 * x0);
            at_most(d, 1, 1) && d.units() >= 0
        }),
{
    lemma_small_powers();
    lemma_zero_bounds();
    lemma_order(HALF as int, INF_ENC as int);
    let h = lit(HALF) * x0;
    let y = x0.abs();
    let z = lit(MINUS_HALF) * x0 * x0;
    crate::float::laws::law_negation(x0);
    crate::float::laws::law_negation(y);
    lemma_order(x0.enc() as int, 0);
    lemma_order(HALF as int, ONE as int);
    // half of the magnitude is finite
    let hy = lit(HALF) * y;
    lemma_products_in_order(lit(HALF), lit(ONE), y);
    crate::float::laws::law_product_with_one(y);
    crate::float::bounds::lemma_product(lit(HALF), y);
    lemma_order(hy.enc() as int, y.enc() as int);
    lemma_mag_zero(hy.enc() as int);
    assert(hy.is_finite() && hy.units() >= 0);
    crate::float::laws::law_product_of_negated(lit(HALF), y);
    crate::float::laws::law_product_of_negated(hy, y);
    crate::float::laws::law_negation(hy);
    crate::float::laws::law_negation(hy * y);
    assert(lit(MINUS_HALF) == lit(HALF).negated());
    lemma_product_not_negative(hy, y);
    let mh = lit(MINUS_HALF);
    crate::float::laws::law_product_of_negated(mh, y);
    crate::float::laws::law_product_of_negated(mh * y, y);
    assert(mh * y == hy.negated());
    assert(mh * y * y == (hy * y).negated());
    assert(z == mh * y * y) by {
        if x0.sign() {
            assert(x0 == y.negated());
        } else {
            assert(x0 == y);
        }
    }
    assert(z.le(lit(ZERO))) by {
        broadcast use lemma_le_units;
    }
    let e = exp(m, z);
    lemma_unit(e);
    lemma_literal(R2PI, 1020, 7186705221432911, 53, 0, 1, 1);
    lemma_product_at_most(lit(R2PI), e, 1, 1, 1, 0);
}

/// At the last step the distribution function is within 2^-38 of what is asked for, and
/// the step moved by at most 2^-36, for an answer within 64 of zero.
pub proof fn law_last_step_is_close<M: Fn(Elementary) -> F64>(m: &M, pp: F64, x0: F64, x: F64)
    requires
        decays(m),
        last_step(m, pp, x0, x),
        x0.abs().le(lit(SEARCH_BOUND)),
        x.abs().le(lit(SIXTY_FOUR)),
        lit(ZERO).le(pp) && pp.le(lit(ONE)),
    ensures
        -part(1, 38) < cumnor(m, x0).0.units() - pp.units() < part(1, 38),
        -part(1, 36) <= x.units() - x0.units() <= part(1, 36),
{
    broadcast use lemma_le_units;
    broadcast use lemma_lt_units;
    lemma_small_powers();
    lemma_mag_zero(0);
    let cum = cumnor(m, x0).0;
    law_normal_tails(m, x0);
    lemma_unit(pp);
    lemma_unit(cum);
    lemma_order(x0.enc() as int, SEARCH_BOUND as int);
    lemma_order(SEARCH_BOUND as int, INF_ENC as int);
    assert(x0.is_finite());
    lemma_literal(SIXTY_FOUR, 1028, 0x10_0000_0000_0000, 46, 64, 64, 0);
    lemma_order(x.enc() as int, SIXTY_FOUR as int);
    assert(x.is_finite());
    lemma_density(m, x0);
    let den = lit(R2PI) * exp(m, lit(MINUS_HALF) * x0 * x0);
    let c = cum - pp;
    let dx = c / den;
    let d = pow2(1074) as int;
    lemma_pow2_pos(1074);
    // the difference
    crate::float::laws::law_negation(pp);
    lemma_part(1, 0);
    lemma_part(1, 37);
    lemma_part(1, 38);
    lemma_part(1, 43);
    lemma_sum_units(cum, pp.negated());
    assert(c.is_finite());
    // the step is finite, since the answer is
    lemma_finite_step(x0, dx, x);
    assert(den.enc() != 0) by {
        if den.enc() == 0 {
            reveal(F64::spec_euclidean_or_real_div);
        }
    }
    if x.enc() == 0 {
        reveal(F64::spec_euclidean_or_real_div);
        lemma_order(dx.enc() as int, 0);
    }
    assert(x.enc() != 0);
    // its size
    lemma_literal(STEP, 978, 7922816251426434, 53, 0, 1, 43);
    lemma_order((dx / x).enc() as int, 0);
    assert(mag((dx / x).enc() as int) < part(1, 43)) by {
        crate::float::laws::law_quotient_is_nearest(dx, x);
        assert((dx / x).abs().units() == mag((dx / x).enc() as int));
    }
    lemma_quotient_below(dx, x, 1, 43);
    lemma_order(dx.enc() as int, x.enc() as int);
    lemma_order(den.enc() as int, c.enc() as int);
    let dm = mag(dx.enc() as int);
    let xm = mag(x.enc() as int);
    lemma_pow2_adds(6, 1031);
    assert(pow2(6) == 64) by {
        lemma2_to64();
    }
    assert(part(1, 37) == 64 * part(1, 43));
    assert(dm < part(1, 37)) by (nonlinear_arith)
        requires dm * d < part(1, 43) * xm, xm <= 64 * d, part(1, 37) == 64 * part(1, 43), d > 0,
            part(1, 43) > 0;
    lemma_quotient_below(c, den, 1, 37);
    let cm = mag(c.enc() as int);
    let em = mag(den.enc() as int);
    lemma_pow2_adds(1, 1036);
    lemma_pow2_adds(1, 1073);
    assert(part(1, 37) == 2 * part(1, 38));
    assert(d == 2 * part(1, 1));
    assert(cm < part(1, 38)) by (nonlinear_arith)
        requires cm * d < part(1, 37) * em, 2 * em <= d, part(1, 37) == 2 * part(1, 38), d > 0,
            part(1, 38) > 0;
    // back to the exact difference
    let n = cum.units() - pp.units();
    assert(c.units() == rounded(n));
    if n >= part(1, 38) {
        lemma_rounded(part(1, 38), n);
    }
    if n <= -part(1, 38) {
        lemma_rounded(-part(1, 38), 0);
        lemma_rounded(n, -part(1, 38));
        lemma_rounded(part(1, 38), 0);
    }
    // and the move
    crate::float::laws::law_negation(dx);
    lemma_move(x0, dx, x);
}

/// The bits of 64.
pub const SIXTY_FOUR: u64 = 0x4050_0000_0000_0000;

pub proof fn lemma_finite_step(x0: F64, dx: F64, x: F64)
    requires
        x0.is_finite(),
        x.is_finite(),
        x == x0 - dx,
    ensures
        dx.is_finite(),
{
    reveal(F64::spec_add);
    crate::float::laws::law_negation(dx);
}

/// Rounding near zero moves by at most 2^-45.
pub proof fn lemma_fine_grid(n: int)
    requires
        -part(128, 0) <= n <= part(128, 0),
    ensures
        -part(1, 45) <= rounded(n) - n <= part(1, 45),
{
    let g = pow2(1029) as int;
    lemma_pow2_pos(1029);
    lemma_pow2_adds(45, 1029);
    lemma_small_powers();
    assert(part(128, 0) == (128 * 0x2000_0000_0000) * g) by (nonlinear_arith)
        requires part(128, 0) == 128 * pow2(1074), pow2(1074) == pow2(45) * g, pow2(45)
            == 0x2000_0000_0000;
    assert(part(1, 45) == g);
    let q = n / g;
    vstd::arithmetic::div_mod::lemma_fundamental_div_mod(n, g);
    vstd::arithmetic::div_mod::lemma_mod_bound(n, g);
    assert(g * q == q * g) by (nonlinear_arith);
    assert((q + 1) * g == q * g + g) by (nonlinear_arith);
    assert(-(128 * 0x2000_0000_0000) - 1 <= q <= 128 * 0x2000_0000_0000) by (nonlinear_arith)
        requires -((128 * 0x2000_0000_0000) * g) <= n <= (128 * 0x2000_0000_0000) * g, q * g <= n,
            n < q * g + g, g > 0;
    lemma_part(q, 45);
    lemma_part(q + 1, 45);
    lemma_rounded(q * g, n);
    lemma_rounded(n, (q + 1) * g);
    lemma_rounded((q + 1) * g, 0);
}

/// A step of less than 2^-37 from a number that is not huge to one within 64 of zero moves
/// by at most twice that much.
proof fn lemma_move(x0: F64, dx: F64, x: F64)
    requires
        x0.is_finite() && dx.is_finite(),
        x == x0 - dx,
        mag(dx.enc() as int) < part(1, 37),
        x0.abs().le(lit(SEARCH_BOUND)),
        x.abs().le(lit(SIXTY_FOUR)),
    ensures
        -part(1, 36) <= x.units() - x0.units() <= part(1, 36),
{
    broadcast use lemma_le_units;
    lemma_small_powers();
    lemma_mag_zero(0);
    crate::float::laws::law_negation(dx);
    crate::float::laws::law_negation(x0);
    crate::search::bracket_laws::lemma_bound_is_tame();
    lemma_part(1, 37);
    lemma_part(128, 0);
    lemma_order(x0.enc() as int, SEARCH_BOUND as int);
    lemma_order(dx.enc() as int, x.enc() as int);
    lemma_literal(SIXTY_FOUR, 1028, 0x10_0000_0000_0000, 46, 64, 64, 0);
    lemma_pow2_pos(1074);
    let n = x0.units() - dx.units();
    lemma_sum_units(x0, dx.negated());
    assert(x.units() == rounded(n));
    assert(part(128, 0) == 2 * (64 * pow2(1074)));
    if n > part(128, 0) {
        lemma_rounded(part(128, 0), n);
    }
    if n < -part(128, 0) {
        lemma_rounded(part(128, 0), 0);
        lemma_rounded(n, -part(128, 0));
    }
    lemma_fine_grid(n);
    lemma_pow2_adds(1, 1037);
    vstd::arithmetic::power2::lemma_pow2_strictly_increases(1029, 1037);
}

/// The smaller of two probabilities.
pub open spec fn smaller(p: F64, q: F64) -> F64 {
    if p.le(q) {
        p
    } else {
        q
    }
}

/// The number, or its negative where `p` is the larger probability.
pub open spec fn turned(p: F64, q: F64, z: F64) -> F64 {
    if p.le(q) {
        z
    } else {
        z.negated()
    }
}

/// `z` on the side of the smaller probability is a last Newton step, or the starting value
/// where the steps do not settle.
pub open spec fn inverts<M: Fn(Elementary) -> F64>(m: &M, p: F64, q: F64, z: F64) -> bool {
    ||| turned(p, q, z) == stvaln(m, smaller(p, q))
    ||| exists|x0: F64| #[trigger] last_step(m, smaller(p, q), x0, turned(p, q, z))
}

/// The inverse of the normal distribution function comes of a last Newton step, where the
/// steps settle.
pub proof fn law_normal_inverse_ends<M: Fn(Elementary) -> F64>(m: &M, p: F64, q: F64)
    ensures
        inverts(m, p, q, dinvnr(m, p, q)),
{
    reveal(dinvnr_spec);
    let pp = smaller(p, q);
    let strtx = stvaln(m, pp);
    law_newton_ends(m, pp, strtx, strtx, 100);
    let nx = newton(m, pp, strtx, strtx, 100);
    crate::float::laws::law_negation(nx);
    assert(turned(p, q, dinvnr(m, p, q)) == nx);
}

/// One less a probability is a probability.
pub proof fn lemma_complement_in_range(p: F64)
    requires
        at_most(p, 1, 0) && p.units() >= 0,
    ensures
        lit(ZERO).le(lit(ONE) - p) && (lit(ONE) - p).le(lit(ONE)),
{
    lemma_small_powers();
    lemma_literal(ONE, 1022, 0x10_0000_0000_0000, 52, 1, 1, 0);
    lemma_part(1, 0);
    crate::float::laws::law_negation(p);
    lemma_sum_units(lit(ONE), p.negated());
    lemma_grid(lit(ONE).units() - p.units());
    lemma_unit(lit(ONE) - p);
}

} // verus!
