//! Rounding of a mantissa to a number of bits, to nearest with halves to even.
use crate::bitlen;
use crate::double;
use vstd::arithmetic::div_mod::*;
use vstd::arithmetic::mul::*;
use vstd::arithmetic::power2::*;
use vstd::prelude::*;

verus! {

/// Number of low bits of `m` beyond `prec` bits.
pub open spec fn excess(m: int, prec: nat) -> nat {
    if bitlen::bit_len(m) <= prec {
        0
    } else {
        (bitlen::bit_len(m) - prec) as nat
    }
}

/// `m / 2^excess`, rounded to nearest with halves to even.
pub open spec fn nearest(m: int, prec: nat) -> int {
    double::round_even(m, excess(m, prec))
}

/// The rounded mantissa: at most `prec` bits.
pub open spec fn round_mantissa(m: int, prec: nat) -> int {
    if bitlen::bit_len(nearest(m, prec)) > prec {
        nearest(m, prec) / 2
    } else {
        nearest(m, prec)
    }
}

/// What rounding adds to the exponent.
pub open spec fn round_shift(m: int, prec: nat) -> nat {
    if bitlen::bit_len(nearest(m, prec)) > prec {
        excess(m, prec) + 1
    } else {
        excess(m, prec)
    }
}

/// Where there is nothing to cut off, nothing is rounded.
pub proof fn lemma_round_nothing(m: int)
    ensures
        double::round_even(m, 0) == m,
{
    lemma2_to64();
    assert(m / 1 == m);
    assert(m % 1 == 0);
}

/// The bit below the cut is added where a lower bit is set or the quotient is
/// odd.
pub proof fn lemma_round_bit(m: int, d: nat)
    requires
        m >= 0,
        d >= 1,
    ensures
        double::round_even(m, d) == m / (pow2(d) as int) + if bitlen::bit(m, (d - 1) as nat) == 1
            && (m % (pow2((d - 1) as nat) as int) != 0 || (m / (pow2(d) as int)) % 2 == 1) {
            1int
        } else {
            0
        },
{
    let h = pow2((d - 1) as nat) as int;
    lemma_pow2_unfold(d);
    lemma_pow2_pos((d - 1) as nat);
    bitlen::lemma_low_bits_next(m, (d - 1) as nat);
    lemma_mod_bound(m, h);
    let b = bitlen::bit(m, (d - 1) as nat);
    assert(b * h == if b == 1 { h } else { 0 }) by (nonlinear_arith)
        requires
            b == 0 || b == 1,
    ;
}

/// Rounding moves a number by at most half a unit.
pub proof fn lemma_round_half(m: int, d: nat)
    requires
        m >= 0,
        d >= 1,
    ensures
        -(pow2((d - 1) as nat) as int) <= double::round_even(m, d) * pow2(d) - m <= pow2(
            (d - 1) as nat,
        ),
        0 <= m / (pow2(d) as int) <= double::round_even(m, d) <= m / (pow2(d) as int) + 1,
{
    let p = pow2(d) as int;
    lemma_pow2_unfold(d);
    lemma_pow2_pos((d - 1) as nat);
    lemma_fundamental_div_mod(m, p);
    lemma_mod_bound(m, p);
    lemma_div_pos_is_pos(m, p);
    let q = m / p;
    lemma_mul_is_commutative(p, q);
    assert((q + 1) * p == q * p + p) by (nonlinear_arith);
}

/// The rounded mantissa fits the precision, and is off by at most half a unit:
/// relative to the value, by at most `2^-prec`.
pub proof fn lemma_round_error(m: int, prec: nat)
    requires
        m >= 0,
    ensures
        0 <= round_mantissa(m, prec),
        bitlen::bit_len(round_mantissa(m, prec)) <= prec,
        m > 0 && prec > 0 ==> round_mantissa(m, prec) >= 1,
        m == 0 ==> round_mantissa(m, prec) == 0,
        (round_mantissa(m, prec) * pow2(round_shift(m, prec)) - m) * pow2(prec) <= m,
        (m - round_mantissa(m, prec) * pow2(round_shift(m, prec))) * pow2(prec) <= m,
        round_shift(m, prec) <= bitlen::bit_len(m) + 1,
{
    let d = excess(m, prec);
    let q = nearest(m, prec);
    let pp = pow2(prec) as int;
    lemma_pow2_pos(prec);
    bitlen::lemma_bit_len(m);
    lemma2_to64();
    if d == 0 {
        lemma_round_nothing(m);
        assert(m * 1 == m);
        assert(0 * pp == 0);
    } else {
        let h = pow2((d - 1) as nat) as int;
        let p = pow2(d) as int;
        lemma_pow2_unfold(d);
        lemma_pow2_pos((d - 1) as nat);
        lemma_fundamental_div_mod(m, p);
        lemma_mod_bound(m, p);
        // Half a unit.
        lemma_round_half(m, d);
        let f = m / p;
        let err = q * p - m;
        // 2^(bits - 1) = 2^(d - 1) * 2^prec is at most m.
        lemma_pow2_adds((d - 1) as nat, prec);
        assert((bitlen::bit_len(m) - 1) as nat == (d - 1) as nat + prec);
        assert(h * pp <= m);
        assert(err * pp <= h * pp && -err * pp <= h * pp) by (nonlinear_arith)
            requires
                -h <= err <= h,
                pp > 0,
        ;
        assert((m - q * p) * pp == -err * pp) by (nonlinear_arith)
            requires
                err == q * p - m,
        ;
        // The quotient lies between 2^(prec - 1) and 2^prec.
        lemma_pow2_adds(prec, d);
        assert(m < pp * p);
        assert(f < pp) by (nonlinear_arith)
            requires
                p * f <= m,
                m < pp * p,
                p > 0,
        ;
        if prec > 0 {
            lemma_pow2_unfold(prec);
            lemma_pow2_pos((prec - 1) as nat);
            let half = pow2((prec - 1) as nat) as int;
            assert(f >= half) by (nonlinear_arith)
                requires
                    m < p * f + p,
                    h * (2 * half) <= m,
                    p == 2 * h,
                    h > 0,
            {
                assert(p * half < p * (f + 1));
                assert(half < f + 1);
            }
            if q == pp {
                lemma_pow2_unfold(prec + 1);
                bitlen::lemma_bit_len_unique(q, prec + 1);
                assert(q / 2 == half);
                bitlen::lemma_bit_len_unique(half, prec);
                lemma_pow2_unfold(d + 1);
                assert(half * pow2(d + 1) == q * p) by (nonlinear_arith)
                    requires
                        pow2(d + 1) == 2 * p,
                        q == 2 * half,
                ;
            } else {
                bitlen::lemma_bit_len_at_most(q, prec);
            }
        } else {
            assert(f == 0);
            bitlen::lemma_bit_len_unique(1, 1);
            assert(1int / 2 == 0);
            assert(0 * pow2(d) == 0);
            assert(0 * pow2(d + 1) == 0);
            assert((0 - m) * 1 == -m) by (nonlinear_arith);
        }
    }
}

/// A number that fits the precision but for zeros at its end is kept.
pub proof fn lemma_round_exact(w: int, t: nat, prec: nat)
    requires
        0 <= w < pow2(prec),
    ensures
        round_mantissa(w * pow2(t), prec) * pow2(round_shift(w * pow2(t), prec)) == w * pow2(t),
{
    let m = w * pow2(t);
    lemma2_to64();
    lemma_round_nothing(m);
    if w == 0 {
        assert(m == 0) by (nonlinear_arith)
            requires
                w == 0,
                m == w * pow2(t),
        ;
    } else {
        bitlen::lemma_bit_len_shift(w, t);
        bitlen::lemma_bit_len_at_most(w, prec);
        let d = excess(m, prec);
        if d > 0 {
            let k = (t - d) as nat;
            lemma_pow2_adds(k, d);
            lemma_pow2_unfold(d);
            lemma_pow2_pos((d - 1) as nat);
            let p = pow2(d) as int;
            let q = w * pow2(k);
            assert(m == q * p) by (nonlinear_arith)
                requires
                    m == w * pow2(t),
                    pow2(k) * p == pow2(t),
                    q == w * pow2(k),
            ;
            lemma_fundamental_div_mod_converse(m, p, q, 0);
            bitlen::lemma_bit_len_shift(w, k);
        }
    }
    assert(m * 1 == m);
}

/// Rounding a mantissa: the result has at most `prec` bits, is the multiple of the
/// unit `2^shift` next to `m`, even where two are equally near, and the unit is no
/// larger than the bits of `m` make it.
pub proof fn law_rounding(m: int, prec: nat)
    requires
        m >= 0,
        prec >= 1,
    ensures
        ({
            let r = round_mantissa(m, prec);
            let p = pow2(round_shift(m, prec));
            &&& 0 <= r < pow2(prec)
            &&& -p <= 2 * (r * p - m) <= p
            &&& 2 * (r * p - m) == p || 2 * (m - r * p) == p ==> r % 2 == 0
            &&& round_shift(m, prec) > 0 ==> r >= pow2((prec - 1) as nat)
            &&& m < pow2(prec) ==> r == m && round_shift(m, prec) == 0
        }),
{
    let d = excess(m, prec);
    let q = nearest(m, prec);
    let r = round_mantissa(m, prec);
    let s = round_shift(m, prec);
    let b = bitlen::bit_len(m);
    lemma2_to64();
    lemma_pow2_pos(prec);
    bitlen::lemma_bit_len(m);
    if m < pow2(prec) && b > prec {
        if b > prec + 1 {
            lemma_pow2_strictly_increases(prec, (b - 1) as nat);
        }
    }
    if d == 0 {
        lemma_round_nothing(m);
        if b < prec {
            lemma_pow2_strictly_increases(b, prec);
        }
    } else {
        let p = pow2(d) as int;
        lemma_pow2_pos(d);
        lemma_pow2_adds(d, prec);
        lemma_pow2_adds(d, (prec - 1) as nat);
        lemma_pow2_unfold(prec);
        lemma_pow2_unfold(d + 1);
        let (hi, lo) = (pow2(prec) as int, pow2((prec - 1) as nat) as int);
        lemma_fundamental_div_mod(m, p);
        lemma_mod_bound(m, p);
        let f = m / p;
        assert(lo <= f < hi) by (nonlinear_arith)
            requires
                p * lo <= m < p * hi,
                m == p * f + m % p,
                0 <= m % p < p,
                p > 0,
        ;
        double::law_round_even(m, d);
        lemma_round_half(m, d);
        bitlen::lemma_bit_len(q);
        let c = bitlen::bit_len(q);
        if c > prec {
            if c > prec + 1 {
                lemma_pow2_strictly_increases(prec, (c - 1) as nat);
            }
            assert(q == hi);
            assert(r == lo);
            assert(r * pow2(d + 1) == q * p) by (nonlinear_arith)
                requires
                    r == lo,
                    q == hi,
                    hi == 2 * lo,
                    pow2(d + 1) == 2 * p,
            ;
        } else if c < prec {
            lemma_pow2_strictly_increases(c, prec);
        }
    }
}

} // verus!
