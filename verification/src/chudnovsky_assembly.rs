//! Final assembly of the Chudnovsky computation:
//! `pi = 426880 * sqrt(10005) * Q / (A * Q + T)` in floating point.
use crate::accuracy;
use crate::bitlen;
use crate::chudnovsky;
use crate::chudnovsky::{TERM_A, TERM_B};
use crate::float;
use crate::float::Float;
use crate::float_ops::ToFloat;
use crate::integer;
use crate::integer::Integer;
use crate::limbs;
use crate::newton;
use crate::pi_config::ChudnovskyConfig;
use crate::reals;
use vstd::arithmetic::mul::*;
use vstd::arithmetic::power2::*;
use vstd::arithmetic::power::*;
use vstd::prelude::*;

verus! {

/// `426880^2 * 10005`.
pub open spec fn numerator_square() -> int {
    1_823_176_476_672_000
}

/// `A * Q + T` for the terms 1 to `n`.
pub open spec fn denominator(n: int) -> int {
    TERM_A * chudnovsky::split_q(1, n + 1) + chudnovsky::split_t(1, n + 1)
}

/// `|p_term(k)|` is at most `q_term(k) / 151931373056000`.
proof fn lemma_term_ratio(k: int)
    requires
        k >= 1,
    ensures
        151_931_373_056_000 * integer::abs(chudnovsky::p_term(k)) <= chudnovsky::q_term(k),
        chudnovsky::p_term(k) <= 0,
        chudnovsky::q_term(k) > 0,
{
    let u = 6 * k - 5;
    let v = 6 * k - 1;
    let w = 2 * k - 1;
    let c = k * k * k;
    assert(0 <= u * v * w <= 72 * c) by (nonlinear_arith)
        requires
            1 <= u <= 6 * k,
            1 <= v <= 6 * k,
            1 <= w <= 2 * k,
            c == k * k * k,
    {
        assert(0 <= u * v <= (6 * k) * (6 * k));
        assert(0 <= (u * v) * w <= ((6 * k) * (6 * k)) * (2 * k));
        assert(((6 * k) * (6 * k)) * (2 * k) == 72 * (k * k * k));
    }
    assert(c >= 1) by (nonlinear_arith)
        requires
            k >= 1,
            c == k * k * k,
    ;
}

/// The sum of the terms from 1 on is small against the term zero.
proof fn lemma_t_bound(n: nat)
    requires
        n >= 1,
    ensures
        chudnovsky::split_q(1, n as int + 1) > 0,
        (151_931_373_056_000 * integer::abs(chudnovsky::split_p(1, n as int + 1))) * (chudnovsky::l_term(n as int) * pow2(n)) <= 2
            * chudnovsky::split_q(1, n as int + 1) * (TERM_A + TERM_B),
        (151_931_373_056_000 * integer::abs(chudnovsky::split_t(1, n as int + 1))) * pow2(n) <= (chudnovsky::split_q(
            1,
            n as int + 1,
        ) * (TERM_A + TERM_B)) * (4 * pow2(n) - 4),
    decreases n,
{
    let k = n as int;
    let c: int = 151_931_373_056_000;
    let ab: int = TERM_A + TERM_B;
    lemma_term_ratio(k);
    chudnovsky::law_partial_sum(n);
    lemma_pow2_unfold(n);
    let p = chudnovsky::p_term(k);
    let q = chudnovsky::q_term(k);
    let l = chudnovsky::l_term(k);
    let (p1, q1, t1) = (chudnovsky::split_p(1, k + 1), chudnovsky::split_q(1, k + 1), chudnovsky::split_t(1, k + 1));
    if n == 1 {
        lemma2_to64();
        assert(chudnovsky::split_p(1, 1) == 1 && chudnovsky::split_q(1, 1) == 1 && chudnovsky::split_t(1, 1) == 0);
        assert(p1 == 1 * p && q1 == 1 * q);
        assert(t1 == 0 * q + p1 * l);
        assert(0 * q == 0);
        assert(l == ab);
        let x = integer::abs(p);
        assert(integer::abs(t1) == x * ab) by (nonlinear_arith)
            requires
                t1 == p * ab,
                p <= 0,
                x == -p,
                ab > 0,
                integer::abs(t1) == if t1 < 0 { -t1 } else { t1 },
        ;
        assert((c * x) * (ab * 2) <= 2 * q * ab) by (nonlinear_arith)
            requires
                c * x <= q,
                ab > 0,
        ;
        assert((c * (x * ab)) * 2 <= (q * ab) * 4) by (nonlinear_arith)
            requires
                c * x <= q,
                ab > 0,
                q > 0,
        ;
    } else {
        let m = (n - 1) as nat;
        lemma_t_bound(m);
        let (p0, q0, t0) = (chudnovsky::split_p(1, k), chudnovsky::split_q(1, k), chudnovsky::split_t(1, k));
        let l0 = chudnovsky::l_term(k - 1);
        let w = pow2(m) as int;
        lemma_pow2_pos(m);
        let x0 = integer::abs(p0);
        let x1 = integer::abs(p1);
        let y = integer::abs(p);
        assert(x1 == x0 * y) by (nonlinear_arith)
            requires
                p1 == p0 * p,
                x0 == if p0 < 0 { -p0 } else { p0 },
                x1 == if p1 < 0 { -p1 } else { p1 },
                y == -p,
                p <= 0,
        ;
        // First bound.
        assert(l <= 2 * l0 && l0 > 0);
        assert(x1 * c <= x0 * q) by (nonlinear_arith)
            requires
                x1 == x0 * y,
                c * y <= q,
                x0 >= 0,
        ;
        let s0 = x0 * (l0 * w);
        assert((c * x1) * (l * (2 * w)) <= 4 * (q * s0)) by (nonlinear_arith)
            requires
                x1 * c <= x0 * q,
                0 <= l <= 2 * l0,
                w >= 1,
                x0 >= 0,
                q > 0,
                s0 == x0 * (l0 * w),
                c * x1 >= 0,
        {
            assert(0 <= l * (2 * w) <= 4 * (l0 * w));
            assert((c * x1) * (l * (2 * w)) <= (x0 * q) * (4 * (l0 * w)));
            assert((x0 * q) * (4 * (l0 * w)) == 4 * (q * (x0 * (l0 * w))));
        }
        assert(c * s0 <= 2 * q0 * ab) by (nonlinear_arith)
            requires
                (c * x0) * (l0 * w) <= 2 * q0 * ab,
                s0 == x0 * (l0 * w),
        ;
        assert(4 * s0 <= 2 * q0 * ab) by (nonlinear_arith)
            requires
                c * s0 <= 2 * q0 * ab,
                c >= 4,
                s0 >= 0,
        ;
        assert(4 * (q * s0) <= 2 * (q0 * q) * ab) by (nonlinear_arith)
            requires
                4 * s0 <= 2 * q0 * ab,
                q > 0,
        ;
        assert(q1 == q0 * q);
        // Second bound.
        let z0 = integer::abs(t0);
        let z1 = integer::abs(t1);
        assert(z1 <= z0 * q + x1 * l) by (nonlinear_arith)
            requires
                t1 == t0 * q + p1 * l,
                z0 == if t0 < 0 { -t0 } else { t0 },
                z1 == if t1 < 0 { -t1 } else { t1 },
                x1 == if p1 < 0 { -p1 } else { p1 },
                q > 0,
                l > 0,
        ;
        let big = q1 * ab;
        assert((c * z0) * q * w <= big * (4 * w - 4)) by (nonlinear_arith)
            requires
                (c * z0) * w <= (q0 * ab) * (4 * w - 4),
                q1 == q0 * q,
                big == q1 * ab,
                q > 0,
        {
            assert(((c * z0) * w) * q <= ((q0 * ab) * (4 * w - 4)) * q);
        }
        assert((c * x1) * (l * (2 * w)) <= 2 * big) by (nonlinear_arith)
            requires
                (c * x1) * (l * (2 * w)) <= 4 * (q * s0),
                4 * (q * s0) <= 2 * (q0 * q) * ab,
                q1 == q0 * q,
                big == q1 * ab,
        ;
        let zq = z0 * q;
        let xl = x1 * l;
        let w2 = 2 * w;
        let z2 = zq + xl;
        assert(c * z1 <= c * z2) by (nonlinear_arith)
            requires
                z1 <= z2,
                c > 0,
        ;
        lemma_mul_inequality(c * z1, c * z2, w2);
        lemma_mul_is_distributive_add(c, zq, xl);
        lemma_mul_is_distributive_add_other_way(w2, c * zq, c * xl);
        assert((c * zq) * w2 == 2 * ((c * z0) * q * w)) by (nonlinear_arith)
            requires
                zq == z0 * q,
                w2 == 2 * w,
        ;
        assert((c * xl) * w2 == (c * x1) * (l * w2)) by (nonlinear_arith)
            requires
                xl == x1 * l,
        ;
        assert(big > 0) by (nonlinear_arith)
            requires
                big == q1 * ab,
                q1 > 0,
                ab > 0,
        ;
        assert(2 * (big * (4 * w - 4)) + 2 * big <= big * (4 * (2 * w) - 4)) by (nonlinear_arith)
            requires
                big > 0,
        ;
    }
}

/// The denominator is close to `A * Q`.
pub proof fn lemma_denominator(n: nat)
    requires
        n >= 1,
    ensures
        chudnovsky::split_q(1, n as int + 1) > 0,
        (TERM_A - 1) * chudnovsky::split_q(1, n as int + 1) <= denominator(n as int) <= (TERM_A + 1) * chudnovsky::split_q(
            1,
            n as int + 1,
        ),
        denominator(n as int) > 0,
{
    lemma_t_bound(n);
    lemma_pow2_pos(n);
    let q = chudnovsky::split_q(1, n as int + 1);
    let t = integer::abs(chudnovsky::split_t(1, n as int + 1));
    let w = pow2(n) as int;
    let ab: int = TERM_A + TERM_B;
    let c: int = 151_931_373_056_000;
    assert((c * t) * w <= ((q * ab) * 4) * w) by (nonlinear_arith)
        requires
            (c * t) * w <= (q * ab) * (4 * w - 4),
            q > 0,
            ab > 0,
    {
        assert((q * ab) * (4 * w - 4) == ((q * ab) * 4) * w - 4 * (q * ab));
        assert(q * ab > 0);
    }
    assert(c * t <= (q * ab) * 4) by (nonlinear_arith)
        requires
            (c * t) * w <= ((q * ab) * 4) * w,
            w >= 1,
    ;
    assert((q * ab) * 4 <= c * q) by (nonlinear_arith)
        requires
            ab * 4 <= c,
            q > 0,
    ;
    assert(t <= q) by (nonlinear_arith)
        requires
            c * t <= c * q,
            c > 0,
    ;
}

/// A small whole number as a floating-point number is exact.
pub proof fn lemma_small_float(f: Float, prec: nat, n: int)
    requires
        prec >= 32,
        0 < n < 0x1_0000_0000,
        f.is_rounded(prec, false, n, 0),
    ensures
        f.val() == n as real,
        f.mantissa@ == n,
        f.exp == 0,
        !f.sign,
{
    lemma2_to64();
    bitlen::lemma_bit_len_at_most(n, 32);
    reals::lemma_rpow2_step(0);
    let r = n as real;
    assert(r * 1real == r) by (nonlinear_arith);
}

/// The order of squares is the order of the numbers.
proof fn lemma_square_order(x: real, y: real)
    requires
        y >= 0real,
        x * x < y * y,
    ensures
        x < y,
{
    if x >= y {
        accuracy::lemma_mul_le_both(y, x, y, x);
    }
}

/// `426880 * sqrt(10005)` to `prec` bits.
pub fn sqrt_numerator(prec: u64) -> (c: Float)
    requires
        256 <= prec <= 0x100_0000_0000,
        prec / 8 + 512 <= limbs::limb_limit(),
    ensures
        c.wf(),
        c.prec == prec,
        c.val() > 0real,
        accuracy::within(c.val() * c.val(), numerator_square() as real, 8real, reals::rpow2(-(prec as int))),
        c.exp < 29,
        c.exp + prec > 20,
        c.size() <= prec / 64 + 1,
{
    let ghost p = prec as int;
    let ghost u = reals::rpow2(-p);
    let mut s: Float = Float::with_val_64(prec, 10_005u32);
    proof {
        limbs::lemma_limb_limit();
        lemma_small_float(s, prec as nat, 10_005);
        lemma_small_unit(p);
    }
    s.sqrt_mut();
    let ghost sv = s.val();
    proof {
        float::lemma_val_zero(s);
        reals::lemma_rpow2_step(-p);
        reals::lemma_rpow2_step(1 - p);
        let n = 10_005real;
        let ss = sv * sv;
        assert(reals::rpow2(2 - p) == 4real * u);
        assert(accuracy::within(ss, n, 4real, u));
        // 64 < s < 128.
        assert(n * (4real * u) <= 1real) by {
            accuracy::lemma_mul_le(4real * u, 4real / 10000real, n / 10000real);
            accuracy::lemma_mul_le(4real * u, 1real / 20000real, n);
            assert(n * (1real / 20000real) <= 1real);
        }
        assert(64real * 64real == 4096real && 128real * 128real == 16384real);
        lemma_square_order(64real, sv);
        lemma_square_order(sv, 128real);
        lemma_rpow2_values();
        newton::lemma_exp_bounds(s, 6, 7);
    }
    let factor: Float = Float::with_val_64(64, 426_880u32);
    proof {
        lemma_small_float(factor, 64, 426_880);
        lemma2_to64_rest();
        integer::lemma_size_from_bits(factor.mantissa, 64);
    }
    let c: Float = s.mul_at_prec(&factor, prec);
    proof {
        let f = 426_880real;
        let w = sv * f;
        accuracy::lemma_mul_le_both(64real, sv, f, f);
        accuracy::lemma_mul_le_both(sv, 128real, f, f);
        accuracy::lemma_near_within(c.val(), w, p);
        accuracy::lemma_within_product(c.val(), w, 1real, c.val(), w, 1real, u);
        accuracy::lemma_regroup(sv, f, sv, f);
        let ff = f * f;
        assert(ff == 182_226_534_400real) by (nonlinear_arith)
            requires
                ff == f * f,
                f == 426_880real,
        ;
        accuracy::lemma_within_scale(sv * sv, 10_005real, 4real, u, ff);
        assert(10_005real * 182_226_534_400real == 1_823_176_476_672_000real);
        let k = numerator_square() as real;
        assert(k == 10_005real * ff);
        accuracy::lemma_within_chain(c.val() * c.val(), w * w, k, 3real, 4real, u);
        assert(27_320_320real <= w < 54_640_641real);
        lemma_rpow2_values();
        newton::lemma_near_range(c, w, 24, 26, p);
    }
    c
}

/// The unit of a precision from 256 bits on is tiny.
pub proof fn lemma_small_unit(p: int)
    requires
        p >= 256,
    ensures
        0real < reals::rpow2(-p) <= 1real / 1_000_000real,
{
    reals::lemma_rpow2_step(-p);
    reals::lemma_rpow2_monotone(-p, -20);
    reals::lemma_rpow2_add(20, -20);
    reals::lemma_rpow2_nat(20);
    lemma2_to64();
    reals::lemma_rpow2_step(-20);
    let x = reals::rpow2(-20);
    assert(reals::rpow2(20) == 1_048_576real);
    assert(reals::rpow2(0) == 1real);
    assert(x <= 1real / 1_000_000real) by (nonlinear_arith)
        requires
            1_048_576real * x == 1real,
    ;
}

/// Some powers of two as reals.
pub proof fn lemma_rpow2_values()
    ensures
        reals::rpow2(0) == 1real,
        reals::rpow2(1) == 2real,
        reals::rpow2(3) == 8real,
        reals::rpow2(6) == 64real,
        reals::rpow2(7) == 128real,
        reals::rpow2(24) == 16_777_216real,
        reals::rpow2(26) == 67_108_864real,
{
    lemma2_to64();
    reals::lemma_rpow2_nat(0);
    reals::lemma_rpow2_nat(1);
    reals::lemma_rpow2_nat(3);
    reals::lemma_rpow2_nat(6);
    reals::lemma_rpow2_nat(7);
    reals::lemma_rpow2_nat(24);
    reals::lemma_rpow2_nat(26);
}

/// A positive integer as a floating-point number is exact.
pub proof fn lemma_integer_float(f: Float, n: Integer)
    requires
        f.wf(),
        n.wf(),
        n@ > 0,
        f.mantissa@ == integer::abs(n@),
        f.sign == (n@ < 0),
        f.exp == 0,
    ensures
        f.val() == n@ as real,
        f.size() == n.size(),
        bitlen::bit_len(f.mantissa@) <= 64 * n.size(),
{
    reals::lemma_rpow2_step(0);
    let r = n@ as real;
    assert(r * 1real == r) by (nonlinear_arith);
    integer::lemma_zero(n);
    integer::lemma_zero(f.mantissa);
    integer::lemma_unique(f.mantissa, n);
    newton::lemma_bit_len_at_most_size(f.mantissa);
}

/// The accuracy of the quotient: with `c^2` close to the constant, one rounded
/// product with `q`, one reciprocal of `d` and one more rounded product give a
/// value whose square times `d^2` is close to the constant times `q^2`.
proof fn lemma_quotient_accuracy(
    c: real,
    q: real,
    d: real,
    n: real,
    r: real,
    x: real,
    u: real,
)
    requires
        0real < u <= 1real / 10000real,
        c > 0real,
        q > 0real,
        d > 0real,
        accuracy::within(c * c, numerator_square() as real, 8real, u),
        accuracy::within(n, c * q, 1real, u),
        accuracy::within(d * r, 1real, 1real, u),
        accuracy::within(x, n * r, 1real, u),
    ensures
        accuracy::within((x * d) * (x * d), (numerator_square() as real) * (q * q), 20real, u),
{
    let k = numerator_square() as real;
    accuracy::lemma_mul_positive(c, q);
    accuracy::lemma_mul_positive(q, q);
    // n^2 against k * q^2.
    accuracy::lemma_within_product(n, c * q, 1real, n, c * q, 1real, u);
    accuracy::lemma_regroup(c, q, c, q);
    accuracy::lemma_within_scale(c * c, k, 8real, u, q * q);
    accuracy::lemma_within_chain(n * n, (c * c) * (q * q), k * (q * q), 3real, 8real, u);
    // x * d against n.
    accuracy::lemma_within_scale(x, n * r, 1real, u, d);
    let nr = n * r;
    let dr = d * r;
    assert(nr * d == dr * n) by (nonlinear_arith)
        requires
            nr == n * r,
            dr == d * r,
    ;
    let cq = c * q;
    lemma_one_plus_bound(cq, u);
    assert(n > 0real) by {
        lemma_one_plus_bound(n, u);
        accuracy::lemma_mul_le(1real * u, 1real / 10000real, cq);
        assert(1real * u == u) by (nonlinear_arith);
        assert(cq * (1real / 10000real) == cq / 10000real) by (nonlinear_arith);
    }
    accuracy::lemma_within_scale(dr, 1real, 1real, u, n);
    assert(1real * n == n) by (nonlinear_arith);
    accuracy::lemma_within_chain(x * d, dr * n, n, 1real, 1real, u);
    accuracy::lemma_within_product(x * d, n, 3real, x * d, n, 3real, u);
    accuracy::lemma_within_chain((x * d) * (x * d), n * n, k * (q * q), 7real, 12real, u);
}

/// Multiples of a small error stay small.
proof fn lemma_one_plus_bound(y: real, u: real)
    ensures
        y * (1real * u) == y * u,
{
    assert(1real * u == u) by (nonlinear_arith);
}

/// The quotient lies between two and eight.
proof fn lemma_quotient_range(x: real, q: int, d: int, u: real)
    requires
        0real < u <= 1real / 10000real,
        x > 0real,
        q > 0,
        (TERM_A - 1) * q <= d <= (TERM_A + 1) * q,
        accuracy::within(
            (x * (d as real)) * (x * (d as real)),
            (numerator_square() as real) * ((q as real) * (q as real)),
            20real,
            u,
        ),
    ensures
        2real <= x < 8real,
{
    let k = numerator_square() as real;
    let qr = q as real;
    let dr = d as real;
    let qq = qr * qr;
    let m = k * qq;
    accuracy::lemma_mul_positive(qr, qr);
    let e = 20real * u;
    accuracy::lemma_mul_le(e, 1real / 500real, m);
    assert(m * (1real / 500real) == m / 500real) by (nonlinear_arith);
    let xd = x * dr;
    assert(m - m / 500real <= xd * xd <= m + m / 500real);
    reals::lemma_int_product((TERM_A - 1) as int, q);
    reals::lemma_int_product((TERM_A + 1) as int, q);
    let lo = 13_591_408real;
    let hi = 13_591_410real;
    assert(lo * qr <= dr <= hi * qr);
    assert(0real < lo * qr) by {
        accuracy::lemma_mul_positive(lo, qr);
    }
    if x < 2real {
        accuracy::lemma_mul_le_both(x, 2real, dr, hi * qr);
        let b = 2real * (hi * qr);
        accuracy::lemma_mul_le_both(xd, b, xd, b);
        assert(b * b == (4real * (hi * hi)) * qq) by (nonlinear_arith)
            requires
                b == 2real * (hi * qr),
                qq == qr * qr,
        ;
        assert(hi * hi == 184_726_425_788_100real) by (nonlinear_arith)
            requires
                hi == 13_591_410real,
        ;
        assert(4real * (hi * hi) == 738_905_703_152_400real);
        assert(m == 1_823_176_476_672_000real * qq);
    }
    if x >= 8real {
        accuracy::lemma_mul_le_both(8real, x, lo * qr, dr);
        let b = 8real * (lo * qr);
        accuracy::lemma_mul_le_both(b, xd, b, xd);
        assert(b * b == (64real * (lo * lo)) * qq) by (nonlinear_arith)
            requires
                b == 8real * (lo * qr),
                qq == qr * qr,
        ;
        assert(lo * lo == 184_726_371_422_464real) by (nonlinear_arith)
            requires
                lo == 13_591_408real,
        ;
        assert(64real * (lo * lo) == 11_822_487_771_037_696real);
        assert(m == 1_823_176_476_672_000real * qq);
    }
}

/// `c * q / d` to `prec` bits: the product with `q` and the reciprocal of `d`
/// side by side or one after the other, then their product.
pub fn assemble_quotient(
    config: &ChudnovskyConfig,
    c: Float,
    q: &Integer,
    denom: Integer,
    prec: u64,
) -> (pi: Float)
    requires
        256 <= prec <= 0x100_0000_0000,
        prec / 8 + 512 <= limbs::limb_limit(),
        q.size() + prec / 8 + 512 <= limbs::limb_limit(),
        c.wf(),
        c.prec == prec,
        c.val() > 0real,
        accuracy::within(c.val() * c.val(), numerator_square() as real, 8real, reals::rpow2(-(prec as int))),
        c.exp < 29,
        c.exp + prec > 20,
        c.size() <= prec / 64 + 1,
        q.wf(),
        denom.wf(),
        q@ > 0,
        (TERM_A - 1) * q@ <= denom@ <= (TERM_A + 1) * q@,
        denom.size() + 512 <= limbs::limb_limit(),
    ensures
        pi.wf(),
        pi.prec == prec,
        2real <= pi.val() < 8real,
        accuracy::within(
            (pi.val() * (denom@ as real)) * (pi.val() * (denom@ as real)),
            (numerator_square() as real) * ((q@ as real) * (q@ as real)),
            20real,
            reals::rpow2(-(prec as int)),
        ),
{
    let ghost p = prec as int;
    let ghost u = reals::rpow2(-p);
    let ghost d = denom@;
    proof {
        limbs::lemma_limb_limit();
        lemma_small_unit(p);
        assert(d > 0) by (nonlinear_arith)
            requires
                (TERM_A - 1) * q@ <= d,
                q@ > 0,
                TERM_A == 13_591_409,
        ;
    }
    let ghost dn = denom;
    let denom_float: Float = denom.to_float();
    let q_float: Float = q.to_float();
    proof {
        lemma_integer_float(denom_float, dn);
        lemma_integer_float(q_float, *q);
        bitlen::lemma_bit_len(denom_float.mantissa@);
    }
    let target: u64 = prec + 16;
    let (recip, numer) = if config.parallel_final_assembly {
        let recip_task = || -> (r: Float)
            ensures is_reciprocal(denom_float, target as int, r)
        { denom_float.reciprocal_at_prec(target) };
        let numer_task = || -> (r: Float)
            ensures r.wf() && r.prec == prec && float::near(r.val(), c.val() * q_float.val(), p)
        { c.mul_at_prec(&q_float, prec) };
        rayon::join(recip_task, numer_task)
    } else {
        (denom_float.reciprocal_at_prec(target), c.mul_at_prec(&q_float, prec))
    };
    let ghost qv = q_float.val();
    let ghost dv = denom_float.val();
    proof {
        accuracy::lemma_mul_positive(c.val(), qv);
        accuracy::lemma_near_within(numer.val(), c.val() * qv, p);
        lemma_numerator_range(c, q_float, numer, p);
        lemma_reciprocal_unit(dv * recip.val(), p);
    }
    let pi: Float = numer.mul_at_prec(&recip, prec);
    proof {
        let n = numer.val();
        let r = recip.val();
        assert(r > 0real) by {
            float::lemma_val_zero(recip);
        }
        accuracy::lemma_mul_positive(n, r);
        accuracy::lemma_near_within(pi.val(), n * r, p);
        lemma_quotient_accuracy(c.val(), qv, dv, n, r, pi.val(), u);
        accuracy::lemma_mul_le(1real * u, 1real / 10000real, n * r);
        assert(1real * u == u) by (nonlinear_arith);
        assert((n * r) * (1real / 10000real) == (n * r) / 10000real) by (nonlinear_arith);
        lemma_quotient_range(pi.val(), q@, d, u);
    }
    pi
}

/// What the reciprocal is.
spec fn is_reciprocal(b: Float, target: int, r: Float) -> bool {
    &&& r.wf()
    &&& r.prec == target
    &&& r.mantissa@ > 0
    &&& r.sign == b.sign
    &&& -2 < r.exp + r.prec + b.exp + bitlen::bit_len(b.mantissa@)
    &&& r.exp + b.exp + bitlen::bit_len(b.mantissa@) < 3
    &&& r.size() <= target / 64 + 1
    &&& reals::rabs(b.val() * r.val() - 1real) <= reals::rpow2(1 - target)
}

/// The exponent and size of the numerator.
proof fn lemma_numerator_range(c: Float, q: Float, n: Float, p: int)
    requires
        p >= 256,
        c.wf(),
        q.wf(),
        n.wf(),
        c.val() > 0real,
        q.val() > 0real,
        q.exp == 0,
        c.prec == p,
        float::near(n.val(), c.val() * q.val(), p),
    ensures
        n.val() > 0real,
        n.exp <= c.exp + p + bitlen::bit_len(q.mantissa@) + 1,
        n.exp + n.prec >= c.exp - 2,
        n.size() <= n.prec / 64 + 1,
        !n.sign,
        n.mantissa@ > 0,
{
    let ce = c.exp as int;
    newton::lemma_val_sign(c);
    newton::lemma_val_sign(q);
    newton::lemma_val_bounds(c);
    newton::lemma_val_bounds(q);
    bitlen::lemma_bit_len(c.mantissa@);
    bitlen::lemma_bit_len(q.mantissa@);
    let a = bitlen::bit_len(c.mantissa@) as int;
    let b = bitlen::bit_len(q.mantissa@) as int;
    assert(1 <= a <= p);
    reals::lemma_rpow2_add(ce + a - 1, b - 1);
    reals::lemma_rpow2_add(ce + a, b);
    reals::lemma_rpow2_step(ce + a - 1);
    reals::lemma_rpow2_step(b - 1);
    accuracy::lemma_mul_le_both(reals::rpow2(ce + a - 1), c.val(), reals::rpow2(b - 1), q.val());
    lemma_mul_strict(c.val(), reals::rpow2(ce + a), q.val(), reals::rpow2(b));
    newton::lemma_near_range(n, c.val() * q.val(), ce + a + b - 2, ce + a + b, p);
}

proof fn lemma_mul_strict(a: real, b: real, c: real, d: real)
    requires
        0real < a < b,
        0real < c < d,
    ensures
        a * c < b * d,
{
    assert(a * c < b * c) by (nonlinear_arith)
        requires
            0real < a < b,
            0real < c,
    ;
    assert(b * c < b * d) by (nonlinear_arith)
        requires
            0real < b,
            c < d,
    ;
}

/// The reciprocal has 16 bits more than needed.
proof fn lemma_reciprocal_unit(y: real, p: int)
    requires
        reals::rabs(y - 1real) <= reals::rpow2(1 - (p + 16)),
    ensures
        accuracy::within(y, 1real, 1real, reals::rpow2(-p)),
{
    reals::lemma_rpow2_monotone(1 - (p + 16), -p);
    let u = reals::rpow2(-p);
    assert(1real * (1real * u) == u) by (nonlinear_arith);
}

/// The constants of the quotient `426880 * sqrt(10005) * Q / (13591409 * Q + T)`.
pub proof fn law_quotient_parts(n: int)
    ensures
        numerator_square() == 426_880 * 426_880 * 10_005,
        denominator(n) == 13_591_409 * chudnovsky::split_q(1, n + 1) + chudnovsky::split_t(1, n + 1),
{
}

} // verus!
