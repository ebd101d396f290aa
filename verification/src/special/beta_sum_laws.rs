//! The continued fraction of the incomplete beta function is a finite sum.
use crate::float::ratio::lemma_over;
use crate::float::value::{lemma_assoc, lemma_distrib, lemma_mul_nonneg};
use crate::special::beta_fraction_laws::{
    denominator, fraction, lemma_fraction_positive, lemma_terms_positive, numerator, whole_fraction,
};
use vstd::prelude::*;

verus! {

/// The coefficients of the polynomials that the fraction is made of: `n` and `k` are places,
/// and `z` the ratio of the arguments.
pub open spec fn coefficient(a: real, b: real, z: real, n: real, k: nat) -> real
    decreases k,
{
    if k == 0 {
        1real
    } else {
        let j = k as real;
        coefficient(a, b, z, n, (k - 1) as nat) * z * (((b - n - j) * (n + j)) * ((1real / j) * (1real / (a + 2real
            * n + j))))
    }
}

proof fn lemma_inv(v: real)
    requires
        v > 0real,
    ensures
        v * (1real / v) == 1real,
        (1real / v) * v == 1real,
        1real / v > 0real,
{
    lemma_over(1real, v);
    lemma_assoc(v, 1real / v, 1real);
}

/// The first identity: a monomial with inverses.
proof fn lemma_first_identity(g: real, h: real, c: real, k: real, u: real, s: real, p: real, t: real)
    requires
        g * (k * u * s) == h * (c * (u + k)),
        k * p == 1real,
        u * t == 1real,
    ensures
        s * g == h * (c * (p + t)),
{
    assert((g * (k * u * s)) * (p * t) == (s * g) * ((k * p) * (u * t))) by (nonlinear_arith);
    assert((s * g) * (1real * 1real) == s * g);
    assert((c * (u + k)) * (p * t) == c * ((u + k) * (p * t))) by {
        lemma_assoc(c, u + k, p * t);
    }
    assert((u + k) * (p * t) == (u * t) * p + (k * p) * t) by (nonlinear_arith);
    assert((h * (c * (u + k))) * (p * t) == h * ((c * (u + k)) * (p * t))) by {
        lemma_assoc(h, c * (u + k), p * t);
    }
    assert((u * t) * p + (k * p) * t == p + t);
}

/// The identity between the coefficients, over a common factor.
proof fn lemma_common_identity(
    a: real,
    b: real,
    n: real,
    k: real,
    p: real,
    q: real,
    r: real,
    t: real,
)
    requires
        k * p == 1real,
        (a + 2real * n + k) * q == 1real,
        (a + 2real * n + 1real) * r == 1real,
    ensures
        ({
            let m = (b - n - k) * (n + k);
            let e = (a + n) * (a + b + n);
            (b - n) * n * (p + t) == m * (p - q) + (n + (b - n) * n * t + (a + n) * (1real + n - b) * r) + e * (r
                - q)
        }),
{
    let m = (b - n - k) * (n + k);
    let e = (a + n) * (a + b + n);
    let c = (b - n) * n;
    let s = a + 2real * n;
    assert((b - n - k) * (n + k) == (b - n) * n + k * (b - n - n - k)) by (nonlinear_arith);
    assert((c + k * (b - n - n - k)) * p == c * p + (k * p) * (b - n - n - k)) by (nonlinear_arith);
    assert(m * p == c * p + (b - n - n - k));
    assert((b - n - k) * (n + k) + (a + n) * (a + b + n) == (a + b - k) * (a + 2real * n + k)) by (nonlinear_arith);
    assert((m + e) * q == m * q + e * q) by {
        lemma_distrib(q, m, e);
    }
    assert(((a + b - k) * (s + k)) * q == (a + b - k) * ((s + k) * q)) by {
        lemma_assoc(a + b - k, s + k, q);
    }
    assert(m * q + e * q == a + b - k);
    assert((a + n) * (1real + n - b) + (a + n) * (a + b + n) == (a + n) * (a + 2real * n + 1real))
        by (nonlinear_arith);
    let f = (a + n) * (1real + n - b);
    assert((f + e) * r == f * r + e * r) by {
        lemma_distrib(r, f, e);
    }
    assert(((a + n) * (s + 1real)) * r == (a + n) * ((s + 1real) * r)) by {
        lemma_assoc(a + n, s + 1real, r);
    }
    assert(f * r + e * r == a + n);
    assert(c * (p + t) == c * p + c * t) by {
        lemma_distrib(c, p, t);
    }
    assert(m * (p - q) == m * p - m * q) by {
        lemma_distrib(m, p - q, q);
    }
    assert(e * (r - q) == e * r - e * q) by {
        lemma_distrib(e, r - q, q);
    }
}

/// A common factor is taken out of an equation.
proof fn lemma_cancelled(x: real, y: real, w: real)
    requires
        x * w == y * w,
        w > 0real,
    ensures
        x == y,
{
    lemma_over(1real, w);
    lemma_inv(w);
    let i = 1real / w;
    lemma_assoc(x, w, i);
    lemma_assoc(y, w, i);
    assert(x * 1real == x && y * 1real == y);
}

/// One coefficient from the one before, without a division.
proof fn lemma_step(a: real, b: real, z: real, n: real, k: nat)
    requires
        k >= 1,
        a + 2real * n + k as real > 0real,
    ensures
        coefficient(a, b, z, n, k) * (k as real * (a + 2real * n + k as real)) == coefficient(
            a,
            b,
            z,
            n,
            (k - 1) as nat,
        ) * z * ((b - n - k as real) * (n + k as real)),
{
    let j = k as real;
    let w = a + 2real * n + j;
    let x = coefficient(a, b, z, n, (k - 1) as nat);
    let m = (b - n - j) * (n + j);
    let p = 1real / j;
    let q = 1real / w;
    lemma_inv(j);
    lemma_inv(w);
    let y = x * z;
    lemma_assoc(y, m, p * q);
    lemma_assoc(y * m, p * q, j * w);
    lemma_swap(p, q, j, w);
    lemma_assoc(p, j, 1real);
    lemma_assoc(q, w, 1real);
    assert((p * q) * (j * w) == 1real);
    assert((y * m) * 1real == y * m);
}

proof fn lemma_times_one(x: real)
    ensures
        1real * x == x,
        x * 1real == x,
{
}

/// Four factors in another order.
proof fn lemma_swap(a: real, b: real, c: real, d: real)
    ensures
        (a * b) * (c * d) == (a * c) * (b * d),
{
    lemma_assoc(a, b, c * d);
    lemma_assoc(b, c, d);
    lemma_assoc(c, b, d);
    lemma_assoc(a, c, b * d);
    lemma_assoc(b, c, 1real);
}

/// Three factors in another order.
proof fn lemma_turn(g: real, z: real, m: real)
    ensures
        g * z * m == (z * m) * g,
{
    lemma_assoc(g, z, m);
    lemma_assoc(g, z * m, 1real);
}

proof fn lemma_a_step(
    g: real,
    g1: real,
    h: real,
    h1: real,
    m: real,
    c: real,
    w: real,
    w1: real,
    k: real,
    k1: real,
    v: real,
    z: real,
)
    requires
        g * (k * w) == g1 * z * m,
        h * (k1 * w1) == h1 * z * m,
        g1 * (k1 * v) == (z * h1) * (c * w),
        w > 0real,
        k1 > 0real,
    ensures
        g * (k * v) == (z * h) * (c * w1),
{
    let cw = c * w;
    assert((g * (k * v)) * (w * k1) == (g * (k * w)) * (v * k1)) by {
        lemma_assoc(g, k, v);
        lemma_swap(g * k, v, w, k1);
        lemma_assoc(g, k, w);
    }
    lemma_turn(g1, z, m);
    lemma_turn(h1, z, m);
    assert((g1 * z * m) * (v * k1) == (z * m) * (g1 * (k1 * v))) by {
        lemma_assoc(z * m, g1, v * k1);
        lemma_assoc(v, k1, 1real);
    }
    assert((z * m) * ((z * h1) * cw) == (z * cw) * (h1 * z * m)) by {
        lemma_assoc(z, h1, cw);
        lemma_assoc(z * m, z * cw, h1);
        lemma_assoc(z * cw, z * m, h1);
        assert((z * m) * ((z * cw) * h1) == ((z * m) * (z * cw)) * h1);
        lemma_assoc(z * m, z * cw, 1real);
    }
    assert(((z * h) * (c * w1)) * (w * k1) == (z * cw) * (h * (k1 * w1))) by {
        lemma_swap(z, h, c, w1);
        lemma_swap(z * c, h * w1, w, k1);
        lemma_assoc(z, c, w);
        lemma_assoc(h, w1, k1);
        lemma_assoc(h, k1, w1);
    }
    assert(w * k1 > 0real) by (nonlinear_arith)
        requires
            w > 0real,
            k1 > 0real,
    ;
    lemma_cancelled(g * (k * v), (z * h) * (c * w1), w * k1);
}

/// The coefficients of one polynomial from those of the next.
proof fn lemma_a(a: real, b: real, z: real, n: real, k: nat)
    requires
        a >= 1real,
        n >= 1real,
        k >= 1,
    ensures
        ({
            let s = a + 2real * n;
            coefficient(a, b, z, n - 1real, k) * (k as real * ((s - 1real) * s)) == (z * coefficient(
                a,
                b,
                z,
                n,
                (k - 1) as nat,
            )) * (((b - n) * n) * (s - 1real + k as real))
        }),
    decreases k,
{
    let s = a + 2real * n;
    let j = k as real;
    let c = (b - n) * n;
    let g = coefficient(a, b, z, n - 1real, k);
    lemma_step(a, b, z, n - 1real, k);
    assert(a + 2real * (n - 1real) + j == s - 2real + j);
    assert(b - (n - 1real) - j == b - n + 1real - j);
    if k == 1 {
        assert(coefficient(a, b, z, n - 1real, 0) == 1real);
        assert(coefficient(a, b, z, n, 0) == 1real);
        assert(g * (1real * (s - 1real)) == 1real * z * ((b - n) * n));
        assert(1real * z == z && z * 1real == z && 1real * (s - 1real) == s - 1real);
        assert(g * (s - 1real) == z * c);
        lemma_assoc(g, s - 1real, s);
        lemma_assoc(z, c, s);
        assert(1real * ((s - 1real) * s) == (s - 1real) * s);
    } else {
        let k1 = (k - 1) as nat;
        let i = k1 as real;
        lemma_a(a, b, z, n, k1);
        lemma_step(a, b, z, n, k1);
        let g1 = coefficient(a, b, z, n - 1real, k1);
        let h = coefficient(a, b, z, n, k1);
        let h1 = coefficient(a, b, z, n, (k1 - 1) as nat);
        let m = (b - n + 1real - j) * (n - 1real + j);
        assert(b - n - i == b - n + 1real - j && n + i == n - 1real + j);
        assert(s - 1real + i == s - 2real + j);
        assert(s + i == s - 1real + j);
        lemma_a_step(g, g1, h, h1, m, c, s - 2real + j, s - 1real + j, j, i, (s - 1real) * s, z);
    }
}

proof fn lemma_b_step(
    g: real,
    g1: real,
    h: real,
    h1: real,
    m: real,
    d: real,
    w: real,
    w1: real,
    k1: real,
    k2: real,
    v: real,
    z: real,
)
    requires
        g * (k2 * w) == g1 * z * m,
        h * (k1 * w1) == h1 * z * m,
        g1 * z * (d * w1) == h1 * (k2 * v),
        w1 > 0real,
        k2 > 0real,
    ensures
        g * z * (d * w) == h * (k1 * v),
{
    let dw = d * w1;
    assert((g * z * (d * w)) * (k2 * w1) == (g * (k2 * w)) * (z * dw)) by {
        lemma_assoc(d, w, 1real);
        lemma_swap(g, z, w, d);
        lemma_swap(g * w, z * d, k2, w1);
        lemma_assoc(g, w, k2);
        lemma_assoc(g, k2, w);
        lemma_assoc(w, k2, 1real);
        lemma_assoc(z, d, w1);
    }
    lemma_turn(g1, z, m);
    lemma_turn(h1, z, m);
    assert((g1 * z * m) * (z * dw) == (z * m) * (g1 * z * dw)) by {
        lemma_assoc(z * m, g1, z * dw);
        lemma_assoc(g1, z, dw);
    }
    assert((h * (k1 * v)) * (k2 * w1) == (z * m) * (h1 * (k2 * v))) by {
        lemma_assoc(h, k1, v);
        lemma_assoc(k2, w1, 1real);
        lemma_swap(h * k1, v, w1, k2);
        lemma_assoc(h, k1, w1);
        lemma_assoc(z * m, h1, v * k2);
        lemma_assoc(v, k2, 1real);
    }
    assert(k2 * w1 > 0real) by (nonlinear_arith)
        requires
            w1 > 0real,
            k2 > 0real,
    ;
    lemma_cancelled(g * z * (d * w), h * (k1 * v), k2 * w1);
}

/// The coefficients of the polynomial after the next.
proof fn lemma_b(a: real, b: real, z: real, n: real, k: nat)
    requires
        a >= 1real,
        n >= 0real,
        k >= 2,
    ensures
        ({
            let s = a + 2real * n;
            coefficient(a, b, z, n + 1real, (k - 2) as nat) * z * (((b - n - 1real) * (n + 1real)) * (s
                + k as real)) == coefficient(a, b, z, n, (k - 1) as nat) * ((k as real - 1real) * ((s + 1real) * (s
                + 2real)))
        }),
    decreases k,
{
    let s = a + 2real * n;
    let j = k as real;
    let d = (b - n - 1real) * (n + 1real);
    let k1 = (k - 1) as nat;
    let h = coefficient(a, b, z, n, k1);
    lemma_step(a, b, z, n, k1);
    let i = k1 as real;
    assert(i == j - 1real);
    if k == 2 {
        assert(coefficient(a, b, z, n + 1real, 0) == 1real);
        assert(coefficient(a, b, z, n, 0) == 1real);
        lemma_times_one(z);
        lemma_times_one(s + 1real);
        lemma_times_one((s + 1real) * (s + 2real));
        assert(b - n - i == b - n - 1real && n + i == n + 1real && a + 2real * n + i == s + 1real);
        assert(h * (s + 1real) == z * d);
        lemma_assoc(h, s + 1real, s + 2real);
        lemma_assoc(z, d, s + 2real);
        assert(1real * ((s + 1real) * (s + 2real)) == (s + 1real) * (s + 2real));
    } else {
        let k2 = (k - 2) as nat;
        lemma_b(a, b, z, n, k1);
        lemma_step(a, b, z, n + 1real, k2);
        let g = coefficient(a, b, z, n + 1real, k2);
        let g1 = coefficient(a, b, z, n + 1real, (k2 - 1) as nat);
        let h1 = coefficient(a, b, z, n, k2);
        let l = k2 as real;
        assert(l == j - 2real);
        assert(b - (n + 1real) - l == b - n - i && n + 1real + l == n + i);
        assert(a + 2real * (n + 1real) + l == s + j);
        let m = (b - n - i) * (n + i);
        assert((k1 - 2) as nat == (k2 - 1) as nat);
        lemma_b_step(g, g1, h, h1, m, d, s + j, s + i, i, l, (s + 1real) * (s + 2real), z);
    }
}

/// The second factor of the relation between three polynomials.
#[verifier::opaque]
pub open spec fn middle(a: real, b: real, n: real) -> real {
    let s = a + 2real * n;
    n + (if n == 0real {
        0real
    } else {
        (b - n) * n * (1real / (s - 1real))
    }) + (a + n) * (1real + n - b) * (1real / (s + 1real))
}

/// The third one.
#[verifier::opaque]
pub open spec fn outer(a: real, b: real, n: real) -> real {
    let s = a + 2real * n;
    let r = 1real / (s + 1real);
    ((a + n) * (a + b + n)) * (((b - n - 1real) * (n + 1real)) * (r * r * (1real / (s + 2real))))
}

/// The coefficient before, or nothing.
pub open spec fn before(a: real, b: real, z: real, n: real, k: nat, back: nat) -> real {
    if k < back {
        0real
    } else {
        coefficient(a, b, z, n, (k - back) as nat)
    }
}

/// The first factor of the relation: the polynomial before, which for the first one is one.
pub open spec fn leading(a: real, b: real, z: real, n: real, k: nat) -> real {
    if n == 0real {
        if k == 0 {
            1real
        } else {
            0real
        }
    } else {
        coefficient(a, b, z, n - 1real, k)
    }
}

/// Products of inverses with what they are inverse to.
proof fn lemma_third(
    x: real,
    z: real,
    d: real,
    g2: real,
    j: real,
    s1: real,
    s2: real,
    sj: real,
    e: real,
    r: real,
    w: real,
    q: real,
)
    requires
        g2 * z * (d * sj) == x * (j * (s1 * s2)),
        sj * q == 1real,
        s1 * r == 1real,
        s2 * w == 1real,
        j == sj - s1,
    ensures
        (e * (d * (r * r * w))) * (z * z) * g2 == (z * x) * (e * (r - q)),
{
    let y = g2 * z;
    let v = s1 * s2;
    // y d = x j v q
    lemma_assoc(y, d, sj);
    lemma_assoc(y * d, sj, q);
    assert((y * d) * 1real == y * d);
    lemma_assoc(x, j * v, q);
    assert(y * d == x * ((j * v) * q));
    // v r w = 1
    let rw = r * w;
    assert(v * rw == 1real) by {
        lemma_assoc(s1, s2, rw);
        lemma_assoc(s2, r, w);
        lemma_assoc(r, s2, w);
        lemma_assoc(s1, r, 1real);
        assert(s2 * rw == r * (s2 * w));
        assert(r * 1real == r);
    }
    // j r q = r - q
    assert(j * (r * q) == r - q) by {
        lemma_distrib(r * q, sj - s1, s1);
        lemma_assoc(sj, r, q);
        lemma_assoc(s1, r, q);
        lemma_assoc(r, sj, q);
        assert(sj * (r * q) == (sj * q) * r) by {
            lemma_assoc(sj, q, r);
            lemma_assoc(q, r, 1real);
        }
        assert(1real * r == r && 1real * q == q);
    }
    // r r w y d = x (j r q)
    let f = r * r * w;
    assert(f == r * rw) by {
        lemma_assoc(r, r, w);
    }
    assert(f * (y * d) == x * (j * (r * q))) by {
        let jvq = (j * v) * q;
        lemma_assoc(f, x, jvq);
        lemma_assoc(x, f, jvq);
        assert(f * (x * jvq) == x * (f * jvq));
        lemma_assoc(j, v, q);
        lemma_assoc(j, q, v);
        assert(jvq == (j * q) * v);
        lemma_assoc(f, j * q, v);
        lemma_assoc(j * q, r * rw, v);
        assert(f * ((j * q) * v) == (j * q) * (f * v)) by {
            lemma_assoc(f, j * q, v);
            lemma_assoc(j * q, f, v);
        }
        lemma_assoc(r, rw, v);
        lemma_assoc(rw, v, 1real);
        assert(r * 1real == r);
        assert(f * v == r);
        lemma_assoc(j, q, r);
        lemma_assoc(q, r, 1real);
    }
    // and the rest
    let u = d * f;
    lemma_assoc(e, u, z * z);
    lemma_assoc(e * u, z * z, g2);
    assert((z * z) * g2 == z * y) by {
        lemma_assoc(z, z, g2);
        lemma_assoc(z, g2, 1real);
    }
    assert((e * u) * (z * y) == (e * z) * (u * y)) by {
        lemma_assoc(e, u, z * y);
        lemma_assoc(u, z, y);
        lemma_assoc(z, u, y);
        lemma_assoc(e, z, u * y);
    }
    assert(u * y == f * (y * d)) by {
        lemma_assoc(d, f, y);
        lemma_assoc(f, d, y);
        lemma_assoc(d, y, 1real);
        lemma_assoc(d, f, 1real);
    }
    let k = r - q;
    assert((e * z) * (x * k) == (z * x) * (e * k)) by {
        lemma_assoc(e, z, x * k);
        lemma_assoc(z, x, k);
        lemma_assoc(e, z * x, k);
        lemma_assoc(z * x, e, k);
        assert((e * z) * (x * k) == e * (z * (x * k)));
        assert(e * ((z * x) * k) == (e * (z * x)) * k);
        lemma_assoc(e, z * x, 1real);
    }
}

/// The middle term of the relation.
proof fn lemma_second(s: real, x: real, z: real, m: real, p: real, q: real, j: real)
    requires
        j * p == 1real,
        (s + j) * q == 1real,
    ensures
        s * (x * z * (m * (p * q))) == (z * x) * (m * (p - q)),
{
    let y = x * z;
    let pq = p * q;
    assert(s * pq == p - q) by {
        lemma_distrib(pq, s + j, -j);
        lemma_distrib(pq, s, j);
        lemma_assoc(s + j, p, q);
        lemma_assoc(s + j, q, p);
        lemma_assoc(j, p, q);
        assert((s + j) * pq == ((s + j) * q) * p) by {
            lemma_assoc(s + j, q, p);
            lemma_assoc(p, q, 1real);
        }
        assert(1real * p == p && 1real * q == q);
    }
    assert(s * (y * (m * pq)) == y * (m * (s * pq))) by {
        lemma_assoc(s, y, m * pq);
        lemma_assoc(y, s, m * pq);
        lemma_assoc(s, m, pq);
        lemma_assoc(m, s, pq);
    }
    lemma_assoc(x, z, 1real);
}

/// The relation between the coefficients.
proof fn lemma_coefficients(a: real, b: real, z: real, n: real, k: nat)
    requires
        a >= 1real,
        n == 0real || n >= 1real,
    ensures
        ({
            let s = a + 2real * n;
            s * leading(a, b, z, n, k) == s * coefficient(a, b, z, n, k) + middle(a, b, n) * z * before(
                a,
                b,
                z,
                n,
                k,
                1,
            ) + outer(a, b, n) * (z * z) * before(a, b, z, n + 1real, k, 2)
        }),
{
    reveal(middle);
    reveal(outer);
    let s = a + 2real * n;
    if k == 0 {
        assert(coefficient(a, b, z, n, 0) == 1real);
        assert(n != 0real ==> coefficient(a, b, z, n - 1real, 0) == 1real);
        assert(middle(a, b, n) * z * 0real == 0real && outer(a, b, n) * (z * z) * 0real == 0real);
    } else {
        let j = k as real;
        let x = coefficient(a, b, z, n, (k - 1) as nat);
        let h = z * x;
        let p = 1real / j;
        let q = 1real / (s + j);
        let r = 1real / (s + 1real);
        let w = 1real / (s + 2real);
        let t = if n == 0real {
            0real
        } else {
            1real / (s - 1real)
        };
        lemma_inv(j);
        lemma_inv(s + j);
        lemma_inv(s + 1real);
        lemma_inv(s + 2real);
        let c = (b - n) * n;
        let m = (b - n - j) * (n + j);
        let e = (a + n) * (a + b + n);
        let d = (b - n - 1real) * (n + 1real);
        // the first
        assert(s * leading(a, b, z, n, k) == h * (c * (p + t))) by {
            if n == 0real {
                assert(s * 0real == 0real && (b - n) * 0real == 0real && 0real * (p + t) == 0real && h * 0real
                    == 0real);
            } else {
                lemma_inv(s - 1real);
                lemma_a(a, b, z, n, k);
                let g = coefficient(a, b, z, n - 1real, k);
                lemma_assoc(j, s - 1real, s);
                lemma_first_identity(g, h, c, j, s - 1real, s, p, t);
            }
        }
        // the second
        let g = coefficient(a, b, z, n, k);
        assert(s * g == h * (m * (p - q))) by {
            assert(g == x * z * (m * (p * q)));
            lemma_second(s, x, z, m, p, q, j);
        }
        // the third
        let g2 = before(a, b, z, n + 1real, k, 2);
        assert(outer(a, b, n) * (z * z) * g2 == h * (e * (r - q))) by {
            if k == 1 {
                assert(outer(a, b, n) * (z * z) * 0real == 0real);
                assert(r - q == 0real);
                assert(e * 0real == 0real && h * 0real == 0real);
            } else {
                lemma_b(a, b, z, n, k);
                lemma_third(x, z, d, g2, j - 1real, s + 1real, s + 2real, s + j, e, r, w, q);
            }
        }
        let y = middle(a, b, n);
        assert(y == n + c * t + (a + n) * (1real + n - b) * r) by {
            assert(c * 0real == 0real);
        }
        assert(y * z * x == h * y) by {
            lemma_assoc(y, z, x);
            lemma_assoc(y, z * x, 1real);
        }
        lemma_common_identity(a, b, n, j, p, q, r, t);
        lemma_distrib(h, m * (p - q), y);
        lemma_distrib(h, m * (p - q) + y, e * (r - q));
    }
}

/// The sum of the coefficients up to `k`.
pub open spec fn total(a: real, b: real, z: real, n: real, k: int) -> real
    decreases k + 1,
{
    if k < 0 {
        0real
    } else {
        total(a, b, z, n, k - 1) + coefficient(a, b, z, n, k as nat)
    }
}

spec fn leading_total(a: real, b: real, z: real, n: real, k: int) -> real
    decreases k + 1,
{
    if k < 0 {
        0real
    } else {
        leading_total(a, b, z, n, k - 1) + leading(a, b, z, n, k as nat)
    }
}

proof fn lemma_leading_total(a: real, b: real, z: real, n: real, k: int)
    requires
        k >= 0,
    ensures
        leading_total(a, b, z, n, k) == if n == 0real {
            1real
        } else {
            total(a, b, z, n - 1real, k)
        },
    decreases k,
{
    assert(leading_total(a, b, z, n, -1) == 0real);
    assert(total(a, b, z, n - 1real, -1) == 0real);
    if k > 0 {
        lemma_leading_total(a, b, z, n, k - 1);
    }
}

proof fn lemma_totals(a: real, b: real, z: real, n: real, k: int)
    requires
        a >= 1real,
        n == 0real || n >= 1real,
        k >= 0,
    ensures
        ({
            let s = a + 2real * n;
            s * leading_total(a, b, z, n, k) == s * total(a, b, z, n, k) + middle(a, b, n) * z * total(
                a,
                b,
                z,
                n,
                k - 1,
            ) + outer(a, b, n) * (z * z) * total(a, b, z, n + 1real, k - 2)
        }),
    decreases k,
{
    let s = a + 2real * n;
    let y = middle(a, b, n) * z;
    let w = outer(a, b, n) * (z * z);
    lemma_coefficients(a, b, z, n, k as nat);
    lemma_distrib(s, leading_total(a, b, z, n, k - 1), leading(a, b, z, n, k as nat));
    lemma_distrib(s, total(a, b, z, n, k - 1), coefficient(a, b, z, n, k as nat));
    lemma_distrib(y, total(a, b, z, n, k - 2), before(a, b, z, n, k as nat, 1));
    lemma_distrib(w, total(a, b, z, n + 1real, k - 3), before(a, b, z, n + 1real, k as nat, 2));
    assert(total(a, b, z, n, k - 1) == total(a, b, z, n, k - 2) + before(a, b, z, n, k as nat, 1));
    assert(total(a, b, z, n + 1real, k - 2) == total(a, b, z, n + 1real, k - 3) + before(
        a,
        b,
        z,
        n + 1real,
        k as nat,
        2,
    ));
    if k > 0 {
        lemma_totals(a, b, z, n, k - 1);
    } else {
        assert(s * 0real == 0real && y * 0real == 0real && w * 0real == 0real);
        assert(leading_total(a, b, z, n, -1) == 0real && total(a, b, z, n, -1) == 0real && total(
            a,
            b,
            z,
            n,
            -2,
        ) == 0real && total(a, b, z, n + 1real, -3) == 0real);
    }
}

/// The coefficients vanish past the degree.
proof fn lemma_vanish(a: real, b: int, z: real, n: int, k: nat)
    requires
        k >= b - n,
        b - n >= 1,
    ensures
        coefficient(a, b as real, z, n as real, k) == 0real,
    decreases k,
{
    let x = coefficient(a, b as real, z, n as real, (k - 1) as nat);
    let j = k as real;
    let i = (1real / j) * (1real / (a + 2real * (n as real) + j));
    let m = (b as real - n as real - j) * (n as real + j);
    if k == b - n {
        assert(b as real - n as real - j == 0real);
        assert(0real * (n as real + j) == 0real);
        assert(0real * i == 0real);
        assert((x * z) * 0real == 0real);
    } else {
        lemma_vanish(a, b, z, n, (k - 1) as nat);
        assert(0real * z == 0real);
        assert(0real * (m * i) == 0real);
    }
}

/// The polynomial at the place `n`.
#[verifier::opaque]
pub open spec fn polynomial(a: real, b: int, z: real, n: int) -> real {
    total(a, b as real, z, n as real, b)
}

/// The relation between three polynomials.
proof fn lemma_relation(a: real, b: int, z: real, n: int)
    requires
        a >= 1real,
        0 <= n < b,
    ensures
        ({
            let s = a + 2real * (n as real);
            let y = middle(a, b as real, n as real) * z;
            let w = outer(a, b as real, n as real) * (z * z);
            let lead = if n == 0 {
                1real
            } else {
                polynomial(a, b, z, n - 1)
            };
            s * lead == (s + y) * polynomial(a, b, z, n) + w * polynomial(a, b, z, n + 1)
        }),
{
    reveal(polynomial);
    let br = b as real;
    let nr = n as real;
    let s = a + 2real * nr;
    let y = middle(a, br, nr) * z;
    let w = outer(a, br, nr) * (z * z);
    lemma_totals(a, br, z, nr, b);
    lemma_leading_total(a, br, z, nr, b);
    assert((n - 1) as real == nr - 1real && (n + 1) as real == nr + 1real);
    lemma_vanish(a, b, z, n, b as nat);
    assert(total(a, br, z, nr, b) == total(a, br, z, nr, b - 1));
    if n + 1 < b {
        lemma_vanish(a, b, z, n + 1, b as nat);
        lemma_vanish(a, b, z, n + 1, (b - 1) as nat);
        assert(total(a, br, z, nr + 1real, b) == total(a, br, z, nr + 1real, b - 1));
        assert(total(a, br, z, nr + 1real, b - 1) == total(a, br, z, nr + 1real, b - 2));
    } else {
        lemma_outer_ends(a, br, nr);
        assert(0real * (z * z) == 0real);
        assert(w == 0real);
        assert(0real * total(a, br, z, nr + 1real, b - 2) == 0real);
        assert(0real * total(a, br, z, nr + 1real, b) == 0real);
    }
    lemma_distrib(total(a, br, z, nr, b), s, y);
}

proof fn lemma_outer_ends(a: real, b: real, n: real)
    requires
        b == n + 1real,
    ensures
        outer(a, b, n) == 0real,
{
    reveal(outer);
    let s = a + 2real * n;
    let r = 1real / (s + 1real);
    let f = r * r * (1real / (s + 2real));
    assert(b - n - 1real == 0real);
    assert(0real * (n + 1real) == 0real);
    assert(0real * f == 0real);
    assert(((a + n) * (a + b + n)) * 0real == 0real);
}

/// The last part of a denominator, at the mean's own distance.
proof fn lemma_mean_part(a: real, b: real, n: real, x: real, y: real, l: real, r: real)
    requires
        x + y == 1real,
        l == a - (a + b) * x,
        (a + 2real * n + 1real) * r == 1real,
    ensures
        ({
            let s = a + 2real * n;
            let f = (a + n) * (1real + n - b);
            n + ((a + n) * r) * (1real + l + n * (y + 1real)) == y * s + (n + f * r) * x
        }),
{
    let s = a + 2real * n;
    let f = (a + n) * (1real + n - b);
    let e = (a + n) * (a + b + n);
    // 1 + l + n (y + 1) = (s + 1) - (a + b + n) x
    assert(n * (y + 1real) == n * 2real - n * x) by {
        lemma_distrib(n, 2real - x, x);
    }
    lemma_distrib(x, a + b, n);
    let g = (a + b + n) * x;
    assert(1real + l + n * (y + 1real) == (s + 1real) - g);
    let h = (a + n) * r;
    assert(h * ((s + 1real) - g) == h * (s + 1real) - h * g) by {
        lemma_distrib(h, (s + 1real) - g, g);
    }
    assert(h * (s + 1real) == a + n) by {
        lemma_assoc(a + n, r, s + 1real);
        lemma_assoc(r, s + 1real, 1real);
        lemma_times_one(a + n);
    }
    let er = e * r;
    assert(h * g == er * x) by {
        lemma_assoc(h, a + b + n, x);
        lemma_assoc(a + n, r, a + b + n);
        lemma_assoc(a + n, a + b + n, r);
    }
    // (f + e) r = a + n
    assert((f + e) * r == a + n) by {
        lemma_distrib(a + n, 1real + n - b, a + b + n);
        assert(f + e == (a + n) * (s + 1real));
        lemma_assoc(a + n, s + 1real, r);
        lemma_times_one(a + n);
    }
    lemma_distrib(r, f, e);
    let fr = f * r;
    assert(fr + er == a + n);
    lemma_distrib(x, fr, er);
    lemma_distrib(x, n, fr);
    assert(y * s == s - s * x) by {
        lemma_distrib(s, 1real - x, x);
        lemma_times_one(s);
        lemma_assoc(y, s, 1real);
    }
    lemma_distrib(x, a + n, n);
}

/// A quotient is a product with an inverse.
proof fn lemma_as_inverse(w: real, v: real)
    requires
        v > 0real,
    ensures
        w / v == w * (1real / v),
{
    lemma_inv(v);
    let q = w / v;
    assert(q * v == w) by (nonlinear_arith)
        requires
            q == w / v,
            v > 0real,
    ;
    let i = 1real / v;
    lemma_assoc(q, v, i);
    lemma_times_one(q);
}

/// The fractions that the denominators and the numerators are made of.
proof fn lemma_parts(a: real, n: real)
    requires
        a >= 1real,
        n >= 0real,
    ensures
        ({
            let i = 1real / a;
            let r = 1real / (a + 2real * n + 1real);
            &&& a * i == 1real
            &&& 1real + n / a == (a + n) * i
            &&& (1real + n / a) / (1real + 1real / a + n / a + n / a) == (a + n) * r
        }),
{
    let i = 1real / a;
    let s1 = a + 2real * n + 1real;
    let r = 1real / s1;
    lemma_inv(a);
    lemma_inv(s1);
    lemma_as_inverse(n, a);
    lemma_distrib(i, a, n);
    let top = (a + n) * i;
    let bot = s1 * i;
    lemma_distrib(i, a + 2real * n, 1real);
    lemma_distrib(i, a, 2real * n);
    lemma_assoc(2real, n, i);
    lemma_times_one(i);
    assert(1real + 1real / a + n / a + n / a == bot);
    assert(bot > 0real) by (nonlinear_arith)
        requires
            bot == s1 * i,
            s1 > 0real,
            i > 0real,
    ;
    lemma_as_inverse(top, bot);
    lemma_inv(bot);
    let v = 1real / bot;
    // top v = (a + n) r
    assert(((a + n) * r) * bot == top) by {
        lemma_assoc((a + n) * r, s1, i);
        lemma_assoc(a + n, r, s1);
        lemma_times_one(a + n);
    }
    lemma_assoc((a + n) * r, bot, v);
    lemma_times_one((a + n) * r);
}

/// A denominator, over the second argument.
proof fn lemma_denominator(a: real, b: real, x: real, y: real, l: real, z: real, n: real)
    requires
        a >= 1real,
        n >= 1real,
        x + y == 1real,
        l == a - (a + b) * x,
        z * y == x,
    ensures
        denominator(a, b, x, y, l, n) == y * (a + 2real * n + middle(a, b, n) * z),
{
    reveal(denominator);
    reveal(middle);
    let s = a + 2real * n;
    let r = 1real / (s + 1real);
    let t = 1real / (s - 1real);
    lemma_inv(s + 1real);
    lemma_inv(s - 1real);
    lemma_parts(a, n);
    lemma_mean_part(a, b, n, x, y, l, r);
    let c = (b - n) * n;
    let f = (a + n) * (1real + n - b);
    let mid = middle(a, b, n);
    assert(mid == n + c * t + f * r);
    lemma_as_inverse(n * (b - n) * x, s - 1real);
    assert(n * (b - n) * x * t == (c * t) * x) by {
        lemma_assoc(n, b - n, 1real);
        lemma_assoc(c, x, t);
    }
    assert(y * (s + mid * z) == y * s + mid * x) by {
        lemma_distrib(y, s, mid * z);
        lemma_assoc(mid, z, y);
        lemma_assoc(y, mid * z, 1real);
    }
    lemma_distrib(x, n + f * r, c * t);
}

/// A numerator.
proof fn lemma_numerator(a: real, b: real, x: real, y: real, z: real, n: real)
    requires
        a >= 1real,
        n >= 0real,
        z * y == x,
    ensures
        numerator(a, b, x, n + 1real) == ((outer(a, b, n) * (z * z)) * y) * ((a + 2real * n + 2real) * y),
{
    reveal(numerator);
    reveal(outer);
    let s = a + 2real * n;
    let r = 1real / (s + 1real);
    let w = 1real / (s + 2real);
    let i = 1real / a;
    lemma_inv(s + 1real);
    lemma_inv(s + 2real);
    lemma_parts(a, n);
    lemma_as_inverse(a, s + 1real);
    lemma_as_inverse(b, a);
    lemma_distrib(i, a + n, b);
    let p = (a + n) * i;
    let p2 = (a + b + n) * i;
    let e0 = a * r;
    let e = (a + n) * (a + b + n);
    let d = (b - n - 1real) * (n + 1real);
    assert(n + 1real - 1real == n);
    assert(a + 2real * (n + 1real) - 1real == s + 1real);
    // p p2 e0 e0 = e r r
    assert(p * p2 == e * (i * i)) by {
        lemma_swap(a + n, i, a + b + n, i);
    }
    assert(p * p2 * e0 * e0 == e * (r * r)) by {
        lemma_assoc(p * p2, e0, e0);
        lemma_swap(a, r, a, r);
        lemma_swap(i, i, a, a);
        lemma_assoc(i, a, 1real);
        let aa = a * a;
        let rr = r * r;
        lemma_assoc(e, i * i, aa * rr);
        lemma_assoc(i * i, aa, rr);
        lemma_times_one(rr);
        assert((i * i) * aa == 1real);
    }
    let q = (n + 1real) * (b - (n + 1real)) * x * x;
    assert(q == d * (x * x)) by {
        lemma_assoc(n + 1real, b - n - 1real, 1real);
        lemma_assoc(d, x, x);
    }
    assert(numerator(a, b, x, n + 1real) == (e * (r * r)) * (d * (x * x)));
    // the other side
    let rr = r * r;
    let zz = z * z;
    let f = rr * w;
    let o = e * (d * f);
    assert(outer(a, b, n) == o);
    assert(((o * zz) * y) * ((s + 2real) * y) == (o * (s + 2real)) * (zz * (y * y))) by {
        lemma_swap(o * zz, y, s + 2real, y);
        lemma_assoc(o, zz, s + 2real);
        lemma_assoc(o * (s + 2real), zz, y * y);
    }
    assert(zz * (y * y) == x * x) by {
        lemma_swap(z, z, y, y);
    }
    assert(o * (s + 2real) == e * (d * rr)) by {
        lemma_assoc(e, d * f, s + 2real);
        lemma_assoc(d, f, s + 2real);
        lemma_assoc(rr, w, s + 2real);
        lemma_times_one(rr);
    }
    assert((e * (d * rr)) * (x * x) == (e * rr) * (d * (x * x))) by {
        lemma_assoc(e, d, rr);
        lemma_assoc(e, rr, d);
        lemma_assoc(d, rr, 1real);
        lemma_assoc(e * rr, d, x * x);
    }
}

/// One place of the fraction, in abstract numbers.
proof fn lemma_place(
    s: real,
    y: real,
    g: real,
    w: real,
    alpha: real,
    v: real,
    p0: real,
    p1: real,
    p2: real,
)
    requires
        v > 0real,
        s * p0 == g * p1 + w * p2,
        alpha == (w * y) * ((s + 2real) * y),
        w == 0real || v * p2 == ((s + 2real) * y) * p1,
    ensures
        (y * g + alpha * (1real / v)) * p1 == (s * y) * p0,
{
    let beta = y * g;
    let i = 1real / v;
    let h = (s + 2real) * y;
    lemma_inv(v);
    assert((s * y) * p0 == beta * p1 + (w * y) * p2) by {
        lemma_assoc(s, y, p0);
        lemma_assoc(s, p0, y);
        lemma_assoc(s * p0, y, 1real);
        lemma_distrib(y, g * p1, w * p2);
        lemma_assoc(y, g, p1);
        lemma_assoc(w, p2, y);
        lemma_assoc(w, y, p2);
        lemma_assoc(w * p2, y, 1real);
    }
    let q = alpha * i;
    assert(q * p1 == (w * y) * p2) by {
        if w == 0real {
            assert(0real * y == 0real && 0real * p2 == 0real && 0real * h == 0real);
            assert(0real * i == 0real && 0real * p1 == 0real);
        } else {
            lemma_assoc(alpha, i, p1);
            lemma_assoc(alpha, p1, i);
            lemma_assoc(w * y, h, p1);
            lemma_assoc(w * y, v * p2, i);
            assert((v * p2) * i == p2) by {
                lemma_assoc(v, p2, i);
                lemma_times_one(p2);
            }
        }
    }
    lemma_distrib(p1, beta, q);
}

/// The fraction from a place on is a quotient of two polynomials.
proof fn lemma_fraction_is_quotient(a: real, b: int, x: real, y: real, l: real, z: real, n: int)
    requires
        a >= 1real,
        x > 0real,
        y > 0real,
        x + y == 1real,
        l == a - (a + b as real) * x,
        l >= 0real,
        z * y == x,
        z >= 0real,
        1 <= n < b,
    ensures
        fraction(a, b, x, y, l, n) * polynomial(a, b, z, n) == ((a + 2real * (n as real)) * y) * polynomial(
            a,
            b,
            z,
            n - 1,
        ),
    decreases b - n,
{
    let br = b as real;
    let nr = n as real;
    let s = a + 2real * nr;
    lemma_relation(a, b, z, n);
    lemma_denominator(a, br, x, y, l, z, nr);
    lemma_numerator(a, br, x, y, z, nr);
    lemma_fraction_positive(a, b, x, y, l, n + 1);
    assert((n + 1) as real == nr + 1real);
    let w = outer(a, br, nr) * (z * z);
    let alpha = numerator(a, br, x, nr + 1real);
    let v = fraction(a, b, x, y, l, n + 1);
    if n + 1 < b {
        lemma_fraction_is_quotient(a, b, x, y, l, z, n + 1);
        assert(a + 2real * ((n + 1) as real) == s + 2real);
    } else {
        lemma_outer_ends(a, br, nr);
        assert(0real * (z * z) == 0real);
    }
    lemma_place(
        s,
        y,
        s + middle(a, br, nr) * z,
        w,
        alpha,
        v,
        polynomial(a, b, z, n - 1),
        polynomial(a, b, z, n),
        polynomial(a, b, z, n + 1),
    );
    lemma_as_inverse(alpha, v);
}

/// The terms of the binomial sum, from the one before: `z` is the ratio of the arguments.
pub open spec fn binomial_term(a: real, b: real, z: real, k: nat) -> real
    decreases k,
{
    if k == 0 {
        1real
    } else {
        binomial_term(a, b, z, (k - 1) as nat) * z * ((b - k as real) / (a + k as real))
    }
}

/// The sum of the first terms, up to `k`.
pub open spec fn binomial_sum(a: real, b: real, z: real, k: int) -> real
    decreases k + 1,
{
    if k < 0 {
        0real
    } else {
        binomial_sum(a, b, z, k - 1) + binomial_term(a, b, z, k as nat)
    }
}

proof fn lemma_terms_agree(a: real, b: real, z: real, k: nat)
    requires
        a >= 1real,
    ensures
        coefficient(a, b, z, 0real, k) == binomial_term(a, b, z, k),
    decreases k,
{
    if k > 0 {
        lemma_terms_agree(a, b, z, (k - 1) as nat);
        let j = k as real;
        lemma_inv(j);
        lemma_inv(a + j);
        lemma_as_inverse(b - j, a + j);
        let i = 1real / (a + j);
        let p = 1real / j;
        assert(b - 0real - j == b - j && 0real + j == j && a + 2real * 0real + j == a + j);
        lemma_swap(b - j, j, p, i);
        assert(((b - j) * j) * (p * i) == (b - j) * i) by {
            lemma_assoc(b - j, j, p * i);
            lemma_assoc(j, p, i);
            lemma_times_one(i);
        }
    }
}

proof fn lemma_sums_agree(a: real, b: real, z: real, k: int)
    requires
        a >= 1real,
    ensures
        total(a, b, z, 0real, k) == binomial_sum(a, b, z, k),
    decreases k + 1,
{
    if k >= 0 {
        lemma_terms_agree(a, b, z, k as nat);
        lemma_sums_agree(a, b, z, k - 1);
    }
}

/// The inverse of 1 + 1 / a.
proof fn lemma_first_inverse(a: real, r: real)
    requires
        a >= 1real,
        (a + 1real) * r == 1real,
    ensures
        1real + 1real / a > 0real,
        1real / (1real + 1real / a) == a * r,
{
    let i = 1real / a;
    lemma_inv(a);
    let d = 1real + i;
    lemma_inv(d);
    let u = a * r;
    lemma_distrib(u, 1real, i);
    lemma_assoc(r, a, i);
    lemma_times_one(u);
    lemma_times_one(r);
    lemma_distrib(r, a, 1real);
    assert(u * d == 1real);
    lemma_cancelled(1real / d, u, d);
}

/// The first denominator of the fraction.
proof fn lemma_first_denominator(a: real, b: real, x: real, y: real, l: real, z: real)
    requires
        a >= 1real,
        x + y == 1real,
        l == a - (a + b) * x,
        l >= 0real,
        z * y == x,
    ensures
        (1real + l) / (1real + 1real / a) == y * (a + middle(a, b, 0real) * z),
        (1real + l) / (1real + 1real / a) > 0real,
{
    reveal(middle);
    let r = 1real / (a + 1real);
    lemma_inv(a + 1real);
    lemma_first_inverse(a, r);
    let d = 1real + 1real / a;
    lemma_as_inverse(1real + l, d);
    lemma_over(1real + l, d);
    lemma_mean_part(a, b, 0real, x, y, l, r);
    let f = a * (1real - b);
    let mid = middle(a, b, 0real);
    assert(mid == f * r);
    assert(0real * (y + 1real) == 0real && 2real * 0real == 0real);
    let e = 1real + l;
    assert((a * r) * e == y * a + (f * r) * x) by {
        assert(a + 0real == a && 1real + 0real - b == 1real - b && a + 2real * 0real == a);
        assert(1real + l + 0real * (y + 1real) == e);
        assert((a + 0real) * (1real + 0real - b) == f);
        assert(0real + f * r == f * r);
    }
    assert(e * (a * r) == (a * r) * e) by {
        lemma_assoc(e, a * r, 1real);
    }
    assert(y * (a + mid * z) == y * a + mid * x) by {
        lemma_distrib(y, a, mid * z);
        lemma_assoc(mid, z, y);
        lemma_assoc(y, mid * z, 1real);
    }
}

/// The quotient that the fraction is, in abstract numbers.
proof fn lemma_last(d: real, p: real, c: real)
    requires
        d > 0real,
        d * p == c,
    ensures
        (1real / d) * c == p,
{
    lemma_inv(d);
    lemma_assoc(1real / d, d, p);
    lemma_times_one(p);
}

/// For a whole second parameter the continued fraction is the finite sum that the incomplete
/// beta function is: over what stands in front, which is x^a y^b / B(a, b), the lower ratio is
/// the sum of (b - 1)...(b - k) / ((a + 1)...(a + k)) (x / y)^k, divided by a y.
pub proof fn law_fraction_is_binomial_sum(a: real, b: int, x: real, y: real, l: real)
    requires
        a >= 1real,
        b >= 2,
        x > 0real,
        y > 0real,
        x + y == 1real,
        l == a - (a + b as real) * x,
        l >= 0real,
    ensures
        whole_fraction(a, b, x, y, l) * (a * y) == binomial_sum(a, b as real, x / y, b),
{
    let br = b as real;
    let z = x / y;
    lemma_over(x, y);
    let p0 = polynomial(a, b, z, 0);
    assert(p0 == binomial_sum(a, br, z, b)) by {
        reveal(polynomial);
        lemma_sums_agree(a, br, z, b);
        assert(0int as real == 0real);
    }
    assert(0int as real == 0real && 1int as real == 1real);
    lemma_relation(a, b, z, 0);
    lemma_fraction_is_quotient(a, b, x, y, l, z, 1);
    lemma_fraction_positive(a, b, x, y, l, 1);
    lemma_terms_positive(a, br, x, y, l, 1real);
    lemma_numerator(a, br, x, y, z, 0real);
    lemma_first_denominator(a, br, x, y, l, z);
    let v = fraction(a, b, x, y, l, 1);
    let alpha = numerator(a, br, x, 1real);
    let w = outer(a, br, 0real) * (z * z);
    let g = a + middle(a, br, 0real) * z;
    lemma_place(a, y, g, w, alpha, v, 1real, p0, polynomial(a, b, z, 1));
    lemma_as_inverse(alpha, v);
    let d = y * g + alpha * (1real / v);
    assert(alpha * (1real / v) >= 0real) by {
        lemma_inv(v);
        lemma_mul_nonneg(alpha, 1real / v);
    }
    lemma_last(d, p0, a * y);
}

} // verus!
