//! Integer division through a floating-point reciprocal.
use crate::bitlen;
use crate::divide::div_rem_mag;
use crate::float;
use crate::float::Float;
use crate::float_ops;
use crate::float_ops::{Round, ToFloat};
use crate::integer;
use crate::integer::{Integer, add_signed, mul_signed, sub_signed};
use crate::limbs;
use crate::limbs::max_limbs;
use crate::magnitude::cmp_mag;
use crate::newton;
use crate::reals;
use core::cmp::Ordering;
use vstd::arithmetic::div_mod::*;
use vstd::arithmetic::mul::*;
use vstd::arithmetic::power2::*;
use vstd::prelude::*;

verus! {

/// From this many limbs on, division goes through a reciprocal.
pub const NEWTON_DIV_THRESHOLD: usize = 64;

/// The estimate of a quotient stays below four bits more than the quotient.
proof fn lemma_estimate_bound(
    a: real,
    b: real,
    c: real,
    a1: real,
    q: real,
    prec: int,
    abits: int,
    bbits: int,
)
    requires
        prec >= 65,
        a > 0real,
        b > 0real,
        a < reals::rpow2(abits),
        reals::rpow2(bbits - 1) <= b,
        reals::rabs(b * c - 1real) <= reals::rpow2(1 - prec),
        float::near(a1, a, prec),
        float::near(q, a1 * c, prec),
    ensures
        0real < q < reals::rpow2(abits - bbits + 3),
{
    reals::lemma_rpow2_monotone(1 - prec, -2);
    reals::lemma_rpow2_monotone(-prec, -2);
    reals::lemma_rpow2_step(-2);
    reals::lemma_rpow2_step(-1);
    reals::lemma_rpow2_step(0);
    let u = reals::rpow2(-prec);
    reals::lemma_rpow2_step(-prec);
    assert(reals::rabs(b * c - 1real) <= 1real / 4real);
    assert(c > 0real) by (nonlinear_arith)
        requires
            b * c > 0real,
            b > 0real,
    ;
    assert(a * u <= a / 4real) by (nonlinear_arith)
        requires
            a > 0real,
            4real * u <= 1real,
    ;
    let p = a1 * c;
    assert(p > 0real) by (nonlinear_arith)
        requires
            p == a1 * c,
            a1 > 0real,
            c > 0real,
    ;
    assert(p * u <= p / 4real) by (nonlinear_arith)
        requires
            p > 0real,
            4real * u <= 1real,
    ;
    // q * b <= 5/4 * 5/4 * 5/4 * a < 2 a
    assert(p * b == a1 * (b * c)) by (nonlinear_arith)
        requires
            p == a1 * c,
    ;
    let bc = b * c;
    assert(a1 * bc <= (25real / 16real) * a) by (nonlinear_arith)
        requires
            0real < a1 <= (5real / 4real) * a,
            0real < bc <= 5real / 4real,
    ;
    assert(q * b <= (5real / 4real) * (p * b)) by (nonlinear_arith)
        requires
            q <= (5real / 4real) * p,
            b > 0real,
    ;
    assert(q * b < 2real * a);
    reals::lemma_rpow2_add(abits - bbits + 3, bbits - 1);
    reals::lemma_rpow2_step(abits);
    reals::lemma_rpow2_step(abits + 1);
    reals::lemma_rpow2_step(bbits - 1);
    let w = reals::rpow2(bbits - 1);
    let r = reals::rpow2(abits - bbits + 3);
    assert(q < r) by (nonlinear_arith)
        requires
            q * b < r * w,
            w <= b,
            q > 0real,
            w > 0real,
    ;
}

/// A first quotient, from a reciprocal of `b` with 64 guard bits.
fn estimate_quotient(a: &Integer, b: &Integer) -> (q: Integer)
    requires
        a.wf(),
        b.wf(),
        a@ >= b@ > 0,
        8 * a.size() + 256 <= limbs::limb_limit(),
    ensures
        q.wf(),
        q@ >= 0,
        q.size() + b.size() <= a.size() + 4,
{
    proof {
        limbs::lemma_limb_limit();
        integer::lemma_zero(*a);
        integer::lemma_zero(*b);
        bitlen::lemma_bit_len_monotone(b@, a@);
        bitlen::lemma_bit_len(a@);
        bitlen::lemma_bit_len(b@);
        newton::lemma_bit_len_at_most_size(*a);
        lemma_size_ordered(*b, *a);
    }
    let a_bits: u64 = a.bits();
    let b_bits: u64 = b.bits();
    let q_bits: u64 = a_bits - b_bits + 1;
    let prec: u64 = q_bits + 64;
    let b_float: Float = b.to_float();
    let recip: Float = b_float.reciprocal_at_prec(prec);
    let a_float: Float = a.to_float();
    let a_trunc: Float = a_float.truncated_to_prec(prec);
    proof {
        newton::lemma_val_bounds(a_float);
        newton::lemma_val_bounds(b_float);
        float::lemma_val_zero(a_float);
        float::lemma_val_zero(b_float);
        newton::lemma_near_range(a_trunc, a_float.val(), a_bits - 1, a_bits as int, prec as int);
    }
    let q_float: Float = a_trunc.mul_at_prec(&recip, prec);
    proof {
        lemma_estimate_bound(
            a_float.val(),
            b_float.val(),
            recip.val(),
            a_trunc.val(),
            q_float.val(),
            prec as int,
            a_bits as int,
            b_bits as int,
        );
        newton::lemma_val_sign(q_float);
        newton::lemma_val_bounds(q_float);
        newton::lemma_exp_bounds(
            q_float,
            q_float.exp + bitlen::bit_len(q_float.mantissa@) - 1,
            q_bits + 2,
        );
        float_ops::law_floor(q_float);
    }
    let q: Integer = floor_of(&q_float);
    proof {
        let k: nat = (q_bits + 2) as nat;
        reals::lemma_rpow2_nat(k);
        lemma_floor_bound(q@, q_float.val(), k);
        integer::lemma_size_from_bits(q, k);
        lemma_size_tight(*b);
    }
    q
}

/// The floor of a positive number below `2^k`.
proof fn lemma_floor_bound(q: int, v: real, k: nat)
    requires
        (q as real) <= v < (q as real) + 1real,
        0real < v < (pow2(k) as real),
    ensures
        0 <= q <= pow2(k),
{
    if q < 0 {
        assert((q as real) <= -1real);
    }
    if q > pow2(k) {
        assert((q as real) > (pow2(k) as real));
    }
}

/// Sizes of numbers that are not negative are ordered as the numbers.
proof fn lemma_size_ordered(a: Integer, b: Integer)
    requires
        a.wf(),
        b.wf(),
        0 <= a@ <= b@,
    ensures
        a.size() <= b.size(),
{
    integer::lemma_size_bound(b);
    integer::lemma_size(a, b.size());
}

/// All but the top limb of a number are full of bits.
proof fn lemma_size_tight(a: Integer)
    requires
        a.wf(),
        a@ > 0,
    ensures
        64 * (a.size() - 1) + 1 <= bitlen::bit_len(a@) <= 64 * a.size(),
{
    integer::lemma_zero(a);
    newton::lemma_bit_len_at_most_size(a);
    limbs::lemma_value_lower(a.limbs@);
    let k: nat = (64 * (a.size() - 1)) as nat;
    limbs::lemma_weight_pow2((a.size() - 1) as nat);
    bitlen::lemma_bit_len(a@);
    if bitlen::bit_len(a@) < k {
        lemma_pow2_strictly_increases(bitlen::bit_len(a@), k);
    }
}

/// The floor of a number.
fn floor_of(f: &Float) -> (n: Integer)
    requires
        f.wf(),
        f.floor_fits(),
        f.size() + 2 <= limbs::limb_limit(),
    ensures
        n.wf(),
        n@ == f.floor(),
{
    match f.to_integer_round(Round::Down) {
        Some((n, ord)) => n,
        None => Integer::new(),
    }
}

/// Quotient and remainder of `a >= b > 0` through a reciprocal of `b`: the
/// rounded estimate is corrected until the remainder is in range.
pub fn div_rem_newton(a: &Integer, b: &Integer) -> (r: (Integer, Integer))
    requires
        a.wf(),
        b.wf(),
        a@ >= b@ > 0,
        8 * a.size() + 256 <= limbs::limb_limit(),
    ensures
        r.0.wf(),
        r.1.wf(),
        r.0@ == a@ / b@,
        r.1@ == a@ % b@,
{
    let mut q: Integer = estimate_quotient(a, b);
    let one: Integer = Integer::from(1u64);
    let product: Integer = mul_signed(&q, b);
    let mut r: Integer = sub_signed(a, &product);
    proof {
        lemma_size_ordered(*b, *a);
        lemma_mul_is_commutative(q@, b@);
    }
    let ghost bound: nat = a.size() + 8;
    proof {
        integer::lemma_size_bound(r);
        integer::lemma_size_bound(q);
        limbs::lemma_weight_monotone(r.size(), bound);
        limbs::lemma_weight_monotone(q.size(), bound);
        integer::lemma_size_bound(*b);
        limbs::lemma_weight_monotone(b.size(), bound);
        integer::lemma_size_bound(*a);
        limbs::lemma_weight_monotone(a.size(), bound);
    }
    while r.negative
        invariant
            q.wf(),
            r.wf(),
            a.wf(),
            b.wf(),
            one.wf(),
            one@ == 1,
            one.size() <= 1,
            b@ > 0,
            a@ >= 0,
            bound == a.size() + 8,
            8 * a.size() + 256 <= limbs::limb_limit(),
            a@ == q@ * b@ + r@,
            b@ < limbs::weight(bound),
            integer::abs(r@) < limbs::weight(bound),
            integer::abs(q@) < limbs::weight(bound),
        decreases if r@ < 0 { -r@ } else { 0 },
    {
        proof {
            integer::lemma_zero(r);
            integer::lemma_size(q, bound);
            integer::lemma_size(r, bound);
            integer::lemma_size(*b, bound);
            assert(q@ * b@ > 0);
            assert(q@ > 0) by (nonlinear_arith)
                requires
                    q@ * b@ > 0,
                    b@ > 0,
            ;
            assert((q@ - 1) * b@ == q@ * b@ - b@) by (nonlinear_arith);
        }
        q = sub_signed(&q, &one);
        r = add_signed(&r, b);
    }
    proof {
        integer::lemma_zero(r);
    }
    while reaches(&r, b)
        invariant
            q.wf(),
            r.wf(),
            a.wf(),
            b.wf(),
            one.wf(),
            one@ == 1,
            one.size() <= 1,
            b@ > 0,
            r@ >= 0,
            a@ >= 0,
            bound == a.size() + 8,
            8 * a.size() + 256 <= limbs::limb_limit(),
            a@ == q@ * b@ + r@,
            a@ < limbs::weight(bound),
            b@ < limbs::weight(bound),
            integer::abs(r@) < limbs::weight(bound),
            integer::abs(q@) < limbs::weight(bound),
        decreases r@,
    {
        proof {
            integer::lemma_size(q, bound);
            integer::lemma_size(r, bound);
            integer::lemma_size(*b, bound);
            assert((q@ + 1) * b@ == q@ * b@ + b@) by (nonlinear_arith);
            let q1 = q@ + 1;
            assert(q1 <= a@) by (nonlinear_arith)
                requires
                    q1 * b@ <= a@,
                    b@ >= 1,
                    a@ >= 0,
            ;
        }
        q = add_signed(&q, &one);
        r = sub_signed(&r, b);
    }
    proof {
        lemma_fundamental_div_mod_converse(a@, b@, q@, r@);
    }
    (q, r)
}

/// Whether `r >= b`, for numbers that are not negative.
fn reaches(r: &Integer, b: &Integer) -> (res: bool)
    requires
        r.wf(),
        b.wf(),
        r@ >= 0,
        b@ >= 0,
    ensures
        res == (r@ >= b@),
{
    proof {
        integer::lemma_zero(*r);
        integer::lemma_zero(*b);
    }
    match cmp_mag(&r.limbs, &b.limbs) {
        Ordering::Less => false,
        _ => true,
    }
}

/// Quotient and remainder of numbers that are not negative.  Large operands go
/// through a reciprocal, the others through Algorithm D.
pub fn div_rem_signed(a: &Integer, b: &Integer) -> (r: (Integer, Integer))
    requires
        a.wf(),
        b.wf(),
        a@ >= 0,
        b@ > 0,
    ensures
        r.0.wf(),
        r.1.wf(),
        r.0@ == a@ / b@,
        r.1@ == a@ % b@,
{
    proof {
        limbs::lemma_limb_limit();
        integer::lemma_zero(*a);
        integer::lemma_zero(*b);
    }
    if b.limbs.len() >= NEWTON_DIV_THRESHOLD && a.limbs.len() >= NEWTON_DIV_THRESHOLD && leaves_room(
        a,
    ) && reaches(a, b) {
        return div_rem_newton(a, b);
    }
    let (q, r) = div_rem_mag(&a.limbs, &b.limbs);
    proof {
        integer::lemma_division_sizes(a.limbs@, b.limbs@, q@, r@);
    }
    (Integer::from_parts(q, false), Integer::from_parts(r, false))
}

/// Whether `a` is small enough for a division through a reciprocal.
fn leaves_room(a: &Integer) -> (r: bool)
    requires
        a.wf(),
    ensures
        r == (8 * a.size() + 256 <= limbs::limb_limit()),
{
    let n: u64 = a.limbs.len() as u64;
    proof {
        limbs::lemma_limb_limit();
    }
    8 * n + 256 <= max_limbs()
}

} // verus!
