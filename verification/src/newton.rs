//! Reciprocals and square roots by Newton iteration with doubling precision.
//!
//! Each iteration roughly doubles the number of correct bits, so each runs at
//! twice the precision of the one before, up to the target plus guard bits.
//! The first step starts from the leading 53 bits; two steps run at full
//! precision, since the first of them still has an inaccurate input.
use crate::accuracy;
use crate::bitlen;
use crate::divide;
use crate::float;
use crate::float::Float;
use crate::integer;
use crate::integer::{Integer, div_signed};
use crate::limbs;
use crate::magnitude::{limb_or_zero, power_of_two, shl_mag, shr_mag};
use crate::reals;
use crate::rounding;
use vstd::arithmetic::div_mod::*;
use vstd::arithmetic::mul::*;
use vstd::arithmetic::power2::*;
use vstd::prelude::*;

verus! {

/// The 64 bits of `|n|` from bit `bits` upward.
pub fn shr_to_u64(n: &Integer, bits: u64) -> (r: u64)
    requires
        n.wf(),
    ensures
        r as int == (integer::abs(n@) / (pow2(bits as nat) as int)) % limbs::base(),
{
    let shifted: Vec<u64> = shr_mag(&n.limbs, bits);
    let r: u64 = limb_or_zero(&shifted, 0);
    proof {
        integer::lemma_zero(*n);
        let v = limbs::value(shifted@);
        if shifted@.len() > 0 {
            limbs::lemma_value_skip_next(shifted@, 0, limbs::base());
            assert(shifted@.skip(0) =~= shifted@);
            let rest = limbs::value(shifted@.skip(1));
            lemma_mod_multiples_vanish(rest, shifted@[0] as int, limbs::base());
            lemma_small_mod(shifted@[0] as nat, limbs::base() as nat);
        } else {
            lemma_small_mod(0, limbs::base() as nat);
        }
    }
    r
}

/// The leading 53 bits of `|n|`, with `n` between them and the next such number
/// in units of `2^k`, where `k` is 53 less than the bit length.
pub fn leading_bits(n: &Integer) -> (r: (u64, i64))
    requires
        n.wf(),
        n@ > 0,
    ensures
        0x10_0000_0000_0000 <= r.0 < 0x20_0000_0000_0000,
        r.1 == bitlen::bit_len(n@) - 53,
        r.1 <= 0 ==> n@ * pow2((-r.1) as nat) == r.0,
        r.1 > 0 ==> r.0 as int == n@ / (pow2(r.1 as nat) as int),
{
    proof {
        limbs::lemma_limb_limit();
        integer::lemma_zero(*n);
        bitlen::lemma_bit_len(n@);
        lemma2_to64();
        lemma2_to64_rest();
    }
    let total: u64 = n.bits();
    if total <= 53 {
        let v: u64 = limb_or_zero(&n.limbs, 0);
        proof {
            if total < 64 {
                lemma_pow2_strictly_increases(total as nat, 64);
            }
            limbs::lemma_weight_step(0);
            integer::lemma_size(*n, 1);
            divide::lemma_one_limb(n.limbs@);
            lemma_pow2_adds(total as nat, (53 - total) as nat);
            lemma_pow2_adds((total - 1) as nat, (53 - total) as nat);
            lemma_pow2_pos((53 - total) as nat);
            let s = pow2((53 - total) as nat) as int;
            assert(pow2((total - 1) as nat) * s <= n@ * s < pow2(total as nat) * s)
                by (nonlinear_arith)
                requires
                    pow2((total - 1) as nat) <= n@ < pow2(total as nat),
                    s > 0,
            ;
        }
        let s: u64 = power_of_two((53 - total) as u32);
        (v * s, total as i64 - 53)
    } else {
        let k: u64 = total - 53;
        let top: u64 = shr_to_u64(n, k);
        proof {
            bitlen::lemma_bit_len_drop(n@, k as nat);
            lemma_pow2_pos(k as nat);
            let q = n@ / (pow2(k as nat) as int);
            lemma_div_pos_is_pos(n@, pow2(k as nat) as int);
            bitlen::lemma_bit_len(q);
            lemma_small_mod(q as nat, limbs::base() as nat);
        }
        (top, k as i64)
    }
}

/// A number between the leading bits and the next such number, as reals.
pub proof fn lemma_leading_value(m: int, top: int, k: int)
    requires
        m > 0,
        k <= 0 ==> m * pow2((-k) as nat) == top,
        k > 0 ==> top == m / (pow2(k as nat) as int),
    ensures
        (top as real) <= (m as real) * reals::rpow2(-k) < (top as real) + 1real,
{
    if k <= 0 {
        reals::lemma_rpow2_nat((-k) as nat);
        reals::lemma_int_product(m, pow2((-k) as nat) as int);
    } else {
        let p = pow2(k as nat) as int;
        lemma_pow2_pos(k as nat);
        lemma_fundamental_div_mod(m, p);
        lemma_mod_bound(m, p);
        reals::lemma_rpow2_nat(k as nat);
        reals::lemma_rpow2_step(-k);
        reals::lemma_int_product(p, top);
        let u = reals::rpow2(-k);
        let pr = p as real;
        let t = top as real;
        let mr = m as real;
        let rest = (m % p) as real;
        assert(mr == pr * t + rest);
        assert(mr * u == t + rest * u) by (nonlinear_arith)
            requires
                mr == pr * t + rest,
                u * pr == 1real,
        ;
        assert(0real <= rest * u < 1real) by (nonlinear_arith)
            requires
                0real <= rest < pr,
                u * pr == 1real,
                u > 0real,
        ;
    }
}

/// Bounds on a value bound its exponent and its size.
pub proof fn lemma_exp_bounds(f: Float, lo: int, hi: int)
    requires
        f.wf(),
        f.mantissa@ > 0,
        reals::rpow2(lo) <= reals::rabs(f.val()) < reals::rpow2(hi),
    ensures
        f.exp < hi,
        f.exp + f.prec > lo,
        f.size() <= f.prec / 64 + 1,
{
    let e = f.exp as int;
    let m = f.mantissa@;
    reals::lemma_rpow2_step(e);
    bitlen::lemma_bit_len(m);
    let w = reals::rpow2(e);
    let mr = m as real;
    assert(mr >= 1real);
    assert(mr * w >= w) by (nonlinear_arith)
        requires
            mr >= 1real,
            w > 0real,
    ;
    if e >= hi {
        reals::lemma_rpow2_monotone(hi, e);
    }
    let n: nat = f.prec as nat;
    if bitlen::bit_len(m) < n {
        lemma_pow2_strictly_increases(bitlen::bit_len(m), n);
    }
    reals::lemma_rpow2_nat(n);
    reals::lemma_rpow2_add(n as int, e);
    let p = pow2(n) as real;
    assert(mr < p);
    assert(mr * w < p * w) by (nonlinear_arith)
        requires
            mr < p,
            w > 0real,
    ;
    if e + n <= lo {
        reals::lemma_rpow2_monotone(e + n, lo);
    }
    integer::lemma_size_from_bits(f.mantissa, n);
}

/// The value of a number lies between the powers of two around it.
pub proof fn lemma_val_bounds(f: Float)
    requires
        f.wf(),
        f.mantissa@ > 0,
    ensures
        reals::rpow2(f.exp + bitlen::bit_len(f.mantissa@) - 1) <= reals::rabs(f.val()) < reals::rpow2(
            f.exp + bitlen::bit_len(f.mantissa@),
        ),
{
    let e = f.exp as int;
    let m = f.mantissa@;
    let n = bitlen::bit_len(m);
    bitlen::lemma_bit_len(m);
    reals::lemma_rpow2_step(e);
    reals::lemma_rpow2_nat(n);
    reals::lemma_rpow2_nat((n - 1) as nat);
    reals::lemma_rpow2_add(n as int, e);
    reals::lemma_rpow2_add(n - 1, e);
    let w = reals::rpow2(e);
    let mr = m as real;
    let a = pow2((n - 1) as nat) as real;
    let b = pow2(n) as real;
    assert(a * w <= mr * w < b * w && mr * w > 0real) by (nonlinear_arith)
        requires
            a <= mr < b,
            w > 0real,
            a > 0real,
    ;
}

/// The first half of a Newton step for `1 / b`: the product `b * x`, rounded.
proof fn lemma_step_product(
    b: real,
    x: real,
    u: real,
    e: real,
    b1: real,
    x1: real,
    bx: real,
)
    requires
        b > 0real,
        x > 0real,
        0real < u,
        65536real * u <= 1real,
        0real <= e,
        1024real * e <= 1real,
        reals::rabs(b * x - 1real) <= e,
        reals::rabs(b1 - b) <= b * u,
        reals::rabs(x1 - x) <= x * u,
        reals::rabs(bx - b1 * x1) <= reals::rabs(b1 * x1) * (u / 256real),
    ensures
        x1 > 0real,
        b1 > 0real,
        (99real / 100real) <= b * x1 <= (101real / 100real),
        reals::rabs(b * x1 - 1real) <= e + (1001real / 1000real) * u,
        reals::rabs(bx - b * x1) <= (203real / 200real) * u,
        (1real / 2real) < bx < (3real / 2real),
{
    let y = b * x1;
    assert(x1 > 0real) by (nonlinear_arith)
        requires
            x1 >= x - x * u,
            x > 0real,
            65536real * u <= 1real,
    ;
    assert(reals::rabs(b * (x1 - x)) <= (b * x) * u) by {
        assert(b * (x1 - x) <= (b * x) * u && -(b * (x1 - x)) <= (b * x) * u) by (nonlinear_arith)
            requires
                b > 0real,
                -(x * u) <= x1 - x <= x * u,
        ;
    }
    assert(b * (x1 - x) == y - b * x) by (nonlinear_arith)
        requires
            y == b * x1,
    ;
    assert((b * x) * u <= (1001real / 1000real) * u) by (nonlinear_arith)
        requires
            b * x <= (1001real / 1000real),
            u > 0real,
    ;
    let z = b1 * x1;
    assert(reals::rabs((b1 - b) * x1) <= y * u) by {
        assert((b1 - b) * x1 <= y * u && -((b1 - b) * x1) <= y * u) by (nonlinear_arith)
            requires
                -(b * u) <= b1 - b <= b * u,
                x1 > 0real,
                y == b * x1,
        ;
    }
    assert((b1 - b) * x1 == z - y) by (nonlinear_arith)
        requires
            z == b1 * x1,
            y == b * x1,
    ;
    assert(y * u <= (101real / 100real) * u) by (nonlinear_arith)
        requires
            y <= (101real / 100real),
            u > 0real,
    ;
    assert(b1 > 0real) by (nonlinear_arith)
        requires
            b1 >= b - b * u,
            b > 0real,
            65536real * u <= 1real,
    ;
    assert(reals::rabs(z) <= (51real / 50real));
    assert(reals::rabs(z) * (u / 256real) <= (1real / 200real) * u) by (nonlinear_arith)
        requires
            0real <= reals::rabs(z) <= (51real / 50real),
            u > 0real,
    ;
}

/// The middle of a Newton step: `2 - b * x`, rounded.
proof fn lemma_step_complement(y: real, u: real, bx: real, s: real)
    requires
        0real < u,
        65536real * u <= 1real,
        (99real / 100real) <= y <= (101real / 100real),
        reals::rabs(bx - y) <= (203real / 200real) * u,
        reals::rabs(s - (2real - bx)) <= reals::rabs(2real - bx) * (u / 256real),
    ensures
        reals::rabs(s - (2real - y)) <= (51real / 50real) * u,
        (1real / 2real) < s < (3real / 2real),
{
    assert(reals::rabs(2real - bx) <= (51real / 50real));
    assert(reals::rabs(2real - bx) * (u / 256real) <= (1real / 200real) * u) by (nonlinear_arith)
        requires
            0real <= reals::rabs(2real - bx) <= (51real / 50real),
            u > 0real,
    ;
}

/// A Newton step for `1 / b` squares the error, up to rounding by `u`.
proof fn lemma_reciprocal_step(b: real, u: real, e: real, x1: real, s: real, xn: real)
    requires
        b > 0real,
        x1 > 0real,
        0real < u,
        65536real * u <= 1real,
        0real <= e,
        1024real * e <= 1real,
        (99real / 100real) <= b * x1 <= (101real / 100real),
        reals::rabs(b * x1 - 1real) <= e + (1001real / 1000real) * u,
        reals::rabs(s - (2real - b * x1)) <= (51real / 50real) * u,
        s > 0real,
        reals::rabs(xn - x1 * s) <= reals::rabs(x1 * s) * u,
    ensures
        reals::rabs(b * xn - 1real) <= e * e + (9real / 4real) * u,
        xn > 0real,
{
    let y = b * x1;
    let a = y - 1real;
    reals::lemma_rabs_product(a, a, e + (1001real / 1000real) * u, e + (1001real / 1000real) * u);
    assert((e + (1001real / 1000real) * u) * (e + (1001real / 1000real) * u) == e * e + (1001real / 500real) * (e * u) + (1002001real / 1000000real)
        * (u * u)) by (nonlinear_arith);
    assert(e * u <= (1real / 1000real) * u) by (nonlinear_arith)
        requires
            1024real * e <= 1real,
            u > 0real,
    ;
    assert(u * u <= (1real / 10000real) * u) by (nonlinear_arith)
        requires
            65536real * u <= 1real,
            u > 0real,
    ;
    assert(a * a <= e * e + (1real / 100real) * u);
    assert(a * a >= 0real) by (nonlinear_arith);
    assert(a * a <= (1real / 100real)) by (nonlinear_arith)
        requires
            -(1real / 100real) <= a <= (1real / 100real),
    ;
    let k = s - (2real - y);
    assert(b * (x1 * s) == y * s) by (nonlinear_arith)
        requires
            y == b * x1,
    ;
    assert(y * s == 1real - a * a + y * k) by (nonlinear_arith)
        requires
            k == s - (2real - y),
            a == y - 1real,
    ;
    reals::lemma_rabs_product(y, k, (101real / 100real), (51real / 50real) * u);
    assert((101real / 100real) * ((51real / 50real) * u) <= (10303real / 10000real) * u) by (nonlinear_arith)
        requires
            u > 0real,
    ;
    let t = x1 * s;
    assert(t > 0real) by (nonlinear_arith)
        requires
            t == x1 * s,
            x1 > 0real,
            s > 0real,
    ;
    let bt = b * t;
    assert(reals::rabs(bt - 1real) <= e * e + (21real / 20real) * u);
    assert(bt <= (11real / 10real));
    assert(reals::rabs(b * (xn - t)) <= bt * u) by {
        assert(b * (xn - t) <= bt * u && -(b * (xn - t)) <= bt * u) by (nonlinear_arith)
            requires
                -(t * u) <= xn - t <= t * u,
                b > 0real,
                bt == b * t,
        ;
    }
    assert(b * (xn - t) == b * xn - bt) by (nonlinear_arith)
        requires
            bt == b * t,
    ;
    assert(bt * u <= (11real / 10real) * u) by (nonlinear_arith)
        requires
            bt <= (11real / 10real),
            u > 0real,
    ;
    assert(xn > 0real) by (nonlinear_arith)
        requires
            xn >= t - t * u,
            t > 0real,
            65536real * u <= 1real,
    ;
}

/// A near-reciprocal of a number lies between powers of two.
proof fn lemma_reciprocal_range(b: real, x: real, e: real, top: int)
    requires
        reals::rpow2(top - 1) <= b < reals::rpow2(top),
        x > 0real,
        1024real * e <= 1real,
        reals::rabs(b * x - 1real) <= e,
    ensures
        reals::rpow2(-top - 1) <= x < reals::rpow2(2 - top),
{
    reals::lemma_rpow2_add(top, -top);
    reals::lemma_rpow2_step(top - 1);
    reals::lemma_rpow2_step(-top - 1);
    reals::lemma_rpow2_step(-top);
    reals::lemma_rpow2_step(1 - top);
    reals::lemma_rpow2_step(0);
    let w = reals::rpow2(top);
    let v = reals::rpow2(-top);
    assert(x * w >= (99real / 100real)) by (nonlinear_arith)
        requires
            b * x >= (99real / 100real),
            b <= w,
            x > 0real,
    ;
    assert(x >= (99real / 100real) * v) by (nonlinear_arith)
        requires
            x * w >= (99real / 100real),
            w * v == 1real,
            w > 0real,
            v > 0real,
    ;
    assert(x * w <= (101real / 50real)) by (nonlinear_arith)
        requires
            b * x <= (101real / 100real),
            2real * b >= w,
            x > 0real,
    ;
    assert(x <= (101real / 50real) * v) by (nonlinear_arith)
        requires
            x * w <= (101real / 50real),
            w * v == 1real,
            w > 0real,
            v > 0real,
    ;
}

/// A positive value has a positive sign.
pub proof fn lemma_val_sign(f: Float)
    requires
        f.wf(),
        f.val() > 0real,
    ensures
        !f.sign,
        f.mantissa@ > 0,
{
    float::lemma_val_zero(f);
    reals::lemma_rpow2_step(f.exp as int);
    let m = f.mantissa@ as real;
    let w = reals::rpow2(f.exp as int);
    assert(m * w >= 0real) by (nonlinear_arith)
        requires
            m >= 0real,
            w > 0real,
    ;
}

/// A rounded copy of a positive value keeps its range, up to a factor of two.
pub proof fn lemma_near_range(f: Float, v: real, lo: int, hi: int, p: int)
    requires
        f.wf(),
        p >= 1,
        reals::rpow2(lo) <= v < reals::rpow2(hi),
        float::near(f.val(), v, p),
    ensures
        f.val() > 0real,
        !f.sign,
        f.mantissa@ > 0,
        f.exp < hi + 1,
        f.exp + f.prec > lo - 1,
        f.size() <= f.prec / 64 + 1,
{
    reals::lemma_rpow2_monotone(-p, -1);
    reals::lemma_rpow2_step(-1);
    reals::lemma_rpow2_step(lo - 1);
    reals::lemma_rpow2_step(hi);
    let u = reals::rpow2(-p);
    assert(v * u <= v / 2real) by (nonlinear_arith)
        requires
            v > 0real,
            2real * u <= 1real,
    ;
    lemma_val_sign(f);
    lemma_exp_bounds(f, lo - 1, hi + 1);
}

/// The last rounding of a reciprocal.
proof fn lemma_final_rounding(b: real, x0: real, x: real, acc: int, t: int)
    requires
        b > 0real,
        x0 > 0real,
        t >= 0,
        acc >= t + 14,
        reals::rabs(b * x0 - 1real) <= reals::rpow2(-acc),
        float::near(x, x0, t),
    ensures
        reals::rabs(b * x - 1real) <= reals::rpow2(1 - t),
{
    let u = reals::rpow2(-t);
    reals::lemma_rpow2_monotone(-acc, -t - 2);
    reals::lemma_rpow2_monotone(-acc, -2);
    reals::lemma_rpow2_step(-t - 2);
    reals::lemma_rpow2_step(-t - 1);
    reals::lemma_rpow2_step(-t);
    reals::lemma_rpow2_step(-2);
    reals::lemma_rpow2_step(-1);
    let y = b * x0;
    assert(reals::rabs(b * (x - x0)) <= y * u) by {
        assert(b * (x - x0) <= y * u && -(b * (x - x0)) <= y * u) by (nonlinear_arith)
            requires
                -(x0 * u) <= x - x0 <= x0 * u,
                b > 0real,
                y == b * x0,
        ;
    }
    assert(b * (x - x0) == b * x - y) by (nonlinear_arith)
        requires
            y == b * x0,
    ;
    assert(y * u <= (5real / 4real) * u) by (nonlinear_arith)
        requires
            y <= (5real / 4real),
            u > 0real,
    ;
}

/// A first guess for `1 / f` from its leading bits.
fn reciprocal_seed(f: &Float) -> (x: Float)
    requires
        f.wf(),
        f.mantissa@ > 0,
        !f.sign,
        -0x1800_0000_0000_0000 <= f.exp <= 0x1800_0000_0000_0000,
    ensures
        x.wf(),
        x.prec == 64,
        !x.sign,
        x.mantissa@ > 0,
        reals::rabs(f.val() * x.val() - 1real) <= reals::rpow2(-50),
{
    let (top, k) = leading_bits(&f.mantissa);
    let one_shifted: u128 = 0x200_0000_0000_0000_0000_0000_0000u128;
    let wide: u128 = top as u128;
    let quot: u128 = (one_shifted + wide / 2) / wide;
    let ghost t = top as int;
    let ghost q = quot as int;
    proof {
        limbs::lemma_limb_limit();
        integer::lemma_zero(f.mantissa);
        lemma_bit_len_at_most_size(f.mantissa);
        let n = one_shifted + t / 2;
        lemma_fundamental_div_mod(n, t);
        lemma_mod_bound(n, t);
        assert(t * q == n - n % t);
        assert(q <= 0x20_0000_0000_0000) by (nonlinear_arith)
            requires
                t * q <= 0x200_0000_0000_0000_0000_0000_0000 + t / 2,
                t >= 0x10_0000_0000_0000,
        ;
        assert(q >= 0x10_0000_0000_0000) by (nonlinear_arith)
            requires
                t * q > 0x200_0000_0000_0000_0000_0000_0000 - t,
                t < 0x20_0000_0000_0000,
                t > 0,
        ;
    }
    let power: bool = quot == 0x20_0000_0000_0000;
    let m: u64 = if power { 0x10_0000_0000_0000 } else { quot as u64 };
    let e: i64 = if power { -104 - k - f.exp } else { -105 - k - f.exp };
    let x: Float = Float { prec: 64, sign: false, mantissa: Integer::from(m), exp: e };
    proof {
        lemma2_to64();
        bitlen::lemma_bit_len_at_most(m as int, 64);
        let eb = f.exp as int;
        // x = q * 2^(-105 - k - eb)
        reals::lemma_rpow2_step(-105 - k - eb);
        let w = reals::rpow2(-105 - k - eb);
        let qr = q as real;
        assert(x.val() == qr * w) by {
            if power {
                assert(qr == 2real * (m as real));
                assert((m as real) * (2real * w) == qr * w) by (nonlinear_arith)
                    requires
                        qr == 2real * (m as real),
                ;
            }
        }
        // f * x = (m * 2^-k) * q * 2^-105
        let fm = f.mantissa@ as real;
        reals::lemma_rpow2_add(eb, -105 - k - eb);
        reals::lemma_rpow2_add(-(k as int), -105);
        assert((fm * reals::rpow2(eb)) * (qr * w) == fm * qr * (reals::rpow2(eb) * w)) by (nonlinear_arith);
        let v = fm * reals::rpow2(-(k as int));
        let c = reals::rpow2(-105);
        assert(fm * qr * (reals::rpow2(-(k as int)) * c) == (v * qr) * c) by (nonlinear_arith)
            requires
                v == fm * reals::rpow2(-(k as int)),
        ;
        lemma_leading_value(f.mantissa@, t, k as int);
        let tr = t as real;
        // v * q is 2^105 up to q + t / 2.
        reals::lemma_int_product(t, q);
        let tq = (t * q) as real;
        assert(tq == tr * qr);
        assert(tq <= v * qr && v * qr <= tq + qr) by (nonlinear_arith)
            requires
                tr <= v <= tr + 1real,
                tq == tr * qr,
                qr >= 0real,
        ;
        let big = one_shifted as real;
        reals::lemma_rpow2_nat(105);
        lemma_pow2_105();
        reals::lemma_rpow2_step(-105);
        assert(reals::rabs(v * qr - big) <= 3real * (0x10_0000_0000_0000int as real));
        assert(c * big == 1real);
        let d = v * qr - big;
        assert((v * qr) * c - 1real == d * c) by (nonlinear_arith)
            requires
                d == v * qr - big,
                c * big == 1real,
        ;
        let lim = 3real * (0x10_0000_0000_0000int as real);
        assert(reals::rabs(d * c) <= lim * c) by {
            reals::lemma_rabs_product(d, c, lim, c);
        }
        reals::lemma_rpow2_add(-105, 55);
        reals::lemma_rpow2_nat(55);
        let g = reals::rpow2(-50);
        lemma2_to64_rest();
        assert(lim * c <= g) by (nonlinear_arith)
            requires
                g == c * (0x80_0000_0000_0000int as real),
                lim == 3real * (0x10_0000_0000_0000int as real),
                c > 0real,
        ;
    }
    x
}

pub proof fn lemma_pow2_105()
    ensures
        pow2(105) == 0x200_0000_0000_0000_0000_0000_0000,
        pow2(104) == 0x100_0000_0000_0000_0000_0000_0000,
        pow2(52) == 0x10_0000_0000_0000,
{
    lemma2_to64();
    lemma2_to64_rest();
    lemma_pow2_adds(64, 41);
    lemma_pow2_adds(64, 40);
}

/// Bit lengths are bounded by sizes.
pub proof fn lemma_bit_len_at_most_size(a: Integer)
    requires
        a.wf(),
    ensures
        bitlen::bit_len(integer::abs(a@)) <= 64 * a.size(),
{
    integer::lemma_zero(a);
    integer::lemma_size_bound(a);
    limbs::lemma_weight_pow2(a.size());
    limbs::lemma_limbs_bound(a.limbs@);
    bitlen::lemma_bit_len_at_most(integer::abs(a@), 64 * a.size());
}

/// The number two, written with 53 bits where the precision allows.
fn two_at(prec: u64) -> (r: Float)
    requires
        1 <= prec,
    ensures
        r.wf(),
        r.prec == prec,
        !r.sign,
        r.mantissa@ > 0,
        r.val() == 2real,
        -51 <= r.exp <= 14,
        r.size() <= 2,
{
    let mut r: Float = Float {
        prec,
        sign: false,
        mantissa: Integer::from(0x10_0000_0000_0000u64),
        exp: -51,
    };
    r.round_to_prec();
    proof {
        lemma_pow2_105();
        lemma2_to64();
        lemma2_to64_rest();
        lemma_pow2_pos(prec as nat);
        lemma_pow2_strictly_increases(0, prec as nat);
        rounding::lemma_round_exact(1, 52, prec as nat);
        let m = 0x10_0000_0000_0000int;
        let s = rounding::round_shift(m, prec as nat);
        rounding::lemma_round_error(m, prec as nat);
        lemma_pow2_unfold(53);
        bitlen::lemma_bit_len_unique(m, 53);
        let rm = r.mantissa@;
        reals::lemma_int_product(rm, pow2(s) as int);
        reals::lemma_rpow2_nat(s);
        reals::lemma_rpow2_add(s as int, -51);
        reals::lemma_rpow2_add(52, -51);
        reals::lemma_rpow2_nat(52);
        reals::lemma_rpow2_nat(1);
        lemma2_to64();
        let a = rm as real;
        let b = pow2(s) as real;
        let c = reals::rpow2(-51);
        assert(a * (b * c) == (a * b) * c) by (nonlinear_arith);
    }
    r
}

/// Accuracy after a step, where the precision has at most doubled.
pub proof fn lemma_accuracy_step(a: int, cur: int, next: int, e1: real)
    requires
        4 * a >= 3 * cur + 8,
        16 <= next <= 2 * cur,
        e1 <= reals::rpow2(-a) * reals::rpow2(-a) + (9real / 4real) * reals::rpow2(-next),
    ensures
        e1 <= reals::rpow2(-float::imin(2 * a - 2, next - 2)),
        4 * float::imin(2 * a - 2, next - 2) >= 3 * next + 8,
{
    let b = float::imin(2 * a - 2, next - 2);
    reals::lemma_rpow2_add(-a, -a);
    reals::lemma_rpow2_monotone(-2 * a, -b - 2);
    reals::lemma_rpow2_monotone(-next, -b - 2);
    reals::lemma_rpow2_step(-b - 2);
    reals::lemma_rpow2_step(-b - 1);
}

/// `r` is a number whose product with `b` is one up to `2^(-prec - 14)`, rounded
/// to `prec` bits.
#[verifier::opaque]
pub open spec fn is_reciprocal(r: Float, b: Float, prec: nat) -> bool {
    exists|m: int, e: int| #[trigger]
        r.is_rounded(prec, b.sign, m, e) && reals::rabs(
            b.val() * float::scaled(b.sign, m, e) - 1real,
        ) <= reals::rpow2(-(prec as int) - 14)
}

/// `r` is a number of the given sign whose product with `b` is `a` up to a
/// relative error of `2^(-prec - 15)`, rounded to `prec` bits.
#[verifier::opaque]
pub open spec fn rounds_quotient(r: Float, a: real, b: real, sign: bool, prec: nat) -> bool {
    exists|m: int, e: int| #[trigger]
        r.is_rounded(prec, sign, m, e) && reals::rabs(float::scaled(sign, m, e) * b - a)
            <= reals::rabs(a) * reals::rpow2(-(prec as int) - 15)
}

/// `r` is the quotient of `a` and `b`, rounded to `prec` bits.
pub open spec fn is_rounded_quotient(r: Float, a: Float, b: Float, prec: nat) -> bool {
    rounds_quotient(r, a.val(), b.val(), a.sign != b.sign, prec)
}

/// A close value that is rounded and given the sign is a reciprocal.
proof fn lemma_reciprocal_rounded(a: Float, mag: Float, x: Float, r: Float, acc: int, prec: nat)
    requires
        !mag.sign,
        mag.mantissa@ == a.mantissa@,
        mag.exp == a.exp,
        !x.sign,
        reals::rabs(mag.val() * x.val() - 1real) <= reals::rpow2(-acc),
        acc >= prec + 14,
        r.is_rounded(prec, a.sign, x.mantissa@, x.exp as int),
    ensures
        is_reciprocal(r, a, prec),
{
    reveal(is_reciprocal);
    let (m, e) = (x.mantissa@, x.exp as int);
    reals::lemma_rpow2_monotone(-acc, -(prec as int) - 14);
    let (b, v) = (mag.val(), x.val());
    assert((-b) * (-v) == b * v) by (nonlinear_arith);
    assert(a.val() * float::scaled(a.sign, m, e) == b * v);
    assert(r.is_rounded(prec, a.sign, m, e));
}

impl Float {
    /// `1 / self` to `target_prec` bits.
    ///
    /// The product of the result and `self` is one up to `2^(1 - target_prec)`.
    #[verifier::rlimit(60)]
    #[verifier::spinoff_prover]
    pub fn reciprocal_at_prec(&self, target_prec: u64) -> (r: Float)
        requires
            self.wf(),
            self.mantissa@ != 0,
            -0x1800_0000_0000_0000 <= self.exp <= 0x1800_0000_0000_0000,
            target_prec / 16 + 64 <= limbs::limb_limit(),
        ensures
            r.wf(),
            r.prec == target_prec,
            target_prec > 0 ==> r.mantissa@ > 0,
            r.mantissa@ != 0 ==> r.sign == self.sign,
            r.mantissa@ != 0 ==> -2 < r.exp + r.prec + self.exp + bitlen::bit_len(self.mantissa@),
            r.mantissa@ != 0 ==> r.exp + self.exp + bitlen::bit_len(self.mantissa@) < 3,
            r.size() <= target_prec / 64 + 1,
            reals::rabs(self.val() * r.val() - 1real) <= reals::rpow2(1 - target_prec),
            is_reciprocal(r, *self, target_prec as nat),
    {
        proof {
            limbs::lemma_limb_limit();
            integer::lemma_zero(self.mantissa);
            lemma_bit_len_at_most_size(self.mantissa);
        }
        let mut mag: Float = self.clone();
        mag.sign = false;
        let ghost b = mag.val();
        let ghost top = mag.exp + bitlen::bit_len(mag.mantissa@);
        proof {
            lemma_val_bounds(mag);
            float::lemma_val_zero(mag);
        }
        let mut x: Float = reciprocal_seed(&mag);
        let cap: u64 = target_prec + 16;
        let mut cur: u64 = 64;
        let mut full: u32 = 0;
        let ghost mut acc: int = 50;
        while full < 2
            invariant
                full <= 2,
                mag.wf(),
                mag.mantissa@ > 0,
                !mag.sign,
                mag.size() == self.size() <= limbs::limb_limit() <= 0x0010_0000_0000_0000,
                -0x1800_0000_0000_0000 <= mag.exp <= 0x1800_0000_0000_0000,
                bitlen::bit_len(mag.mantissa@) <= 64 * mag.size(),
                cap == target_prec + 16,
                target_prec / 16 + 64 <= limbs::limb_limit(),
                b == mag.val(),
                b > 0real,
                top == mag.exp + bitlen::bit_len(mag.mantissa@),
                reals::rpow2(top - 1) <= b < reals::rpow2(top),
                16 <= cur,
                cur <= 64 || cur <= cap,
                full >= 1 ==> cur == cap,
                x.wf(),
                x.prec == cur,
                !x.sign,
                x.mantissa@ > 0,
                4 * acc >= 3 * cur + 8,
                full == 2 ==> acc >= cap - 2,
                reals::rabs(b * x.val() - 1real) <= reals::rpow2(-acc),
            decreases 2 - full, if cur < cap { cap - cur } else { 0 },
        {
            let ghost prev = cur as int;
            let ghost prev_full = full;
            let ghost x0 = x.val();
            let ghost e = reals::rpow2(-acc);
            cur = if cur >= cap || 2 * cur >= cap { cap } else { 2 * cur };
            let ghost u = reals::rpow2(-(cur as int));
            proof {
                reals::lemma_rpow2_monotone(-acc, -10);
                reals::lemma_rpow2_monotone(-(cur as int), -16);
                reals::lemma_rpow2_nat(10);
                reals::lemma_rpow2_nat(16);
                lemma2_to64();
                assert(1024real * e <= 1real) by (nonlinear_arith)
                    requires
                        e <= reals::rpow2(-10),
                        reals::rpow2(-10) * 1024real == 1real,
                ;
                assert(65536real * u <= 1real) by (nonlinear_arith)
                    requires
                        u <= reals::rpow2(-16),
                        reals::rpow2(-16) * 65536real == 1real,
                ;
                float::lemma_val_zero(x);
                lemma_reciprocal_range(b, x0, e, top);
                lemma_exp_bounds(x, -top - 1, 2 - top);
            }
            let ghost xo = x;
            let b1: Float = mag.truncated_to_prec(cur);
            proof {
                lemma_near_range(b1, b, top - 1, top, cur as int);
            }
            x.prec = cur;
            x.round_to_prec();
            proof {
                float::lemma_rounded_near(x, cur as nat, xo.sign, xo.mantissa@, xo.exp as int);
                lemma_near_range(x, x0, -top - 1, 2 - top, cur as int);
            }
            let bx: Float = b1.mul_at_prec(&x, cur + 8);
            proof {
                reals::lemma_rpow2_add(-(cur as int), -8);
                reals::lemma_rpow2_nat(8);
                assert(reals::rpow2(-8) == 1real / 256real) by (nonlinear_arith)
                    requires
                        reals::rpow2(-8) * 256real == 1real,
                ;
                assert(u * reals::rpow2(-8) == u / 256real) by (nonlinear_arith)
                    requires
                        reals::rpow2(-8) == 1real / 256real,
                ;
            }
            let ghost x1 = x.val();
            proof {
                lemma_step_product(b, x0, u, e, b1.val(), x1, bx.val());
                lemma_val_sign(bx);
                reals::lemma_rpow2_step(-1);
                reals::lemma_rpow2_step(0);
                lemma_exp_bounds(bx, -1, 1);
            }
            let two: Float = two_at(cur + 8);
            let s: Float = two.sub_at_prec(&bx, cur + 8);
            proof {
                lemma_step_complement(b * x1, u, bx.val(), s.val());
                lemma_val_sign(s);
                lemma_exp_bounds(s, -1, 1);
            }
            x = x.mul_at_prec(&s, cur);
            proof {
                lemma_reciprocal_step(b, u, e, x1, s.val(), x.val());
                lemma_val_sign(x);
                lemma_accuracy_step(acc, prev, cur as int, reals::rabs(b * x.val() - 1real));
                acc = float::imin(2 * acc - 2, cur - 2);
            }
            if cur >= cap {
                full = full + 1;
            }
        }
        proof {
            float::lemma_val_zero(x);
            reals::lemma_rpow2_monotone(-acc, -10);
            reals::lemma_rpow2_nat(10);
            lemma2_to64();
            assert(1024real * reals::rpow2(-acc) <= 1real) by (nonlinear_arith)
                requires
                    reals::rpow2(-acc) <= reals::rpow2(-10),
                    reals::rpow2(-10) * 1024real == 1real,
            ;
            lemma_reciprocal_range(b, x.val(), reals::rpow2(-acc), top);
            lemma_exp_bounds(x, -top - 1, 2 - top);
        }
        let ghost x0 = x.val();
        let ghost xo = x;
        x.prec = target_prec;
        x.round_to_prec();
        proof {
            float::lemma_rounded_near(x, target_prec as nat, xo.sign, xo.mantissa@, xo.exp as int);
            lemma_final_rounding(b, x0, x.val(), acc, target_prec as int);
            rounding::lemma_round_error(xo.mantissa@, target_prec as nat);
            bitlen::lemma_bit_len(x.mantissa@);
            if target_prec > 0 {
                lemma_near_range(x, x0, -top - 1, 2 - top, target_prec as int);
            } else {
                lemma2_to64();
                integer::lemma_zero(x.mantissa);
            }
            float::lemma_val_zero(x);
            let v = x.val();
            assert((-b) * (-v) == b * v) by (nonlinear_arith);
            assert((-b) * 0real == b * 0real) by (nonlinear_arith);
        }
        if !x.is_zero() {
            x.sign = self.sign;
        }
        proof {
            lemma_reciprocal_rounded(*self, mag, xo, x, acc, target_prec as nat);
        }
        x
    }
}

/// Relative error of a quotient through a reciprocal.
proof fn lemma_quotient_error(a: real, b: real, c: real, r: real, t: int)
    requires
        t >= 0,
        reals::rabs(b * c - 1real) <= reals::rpow2(1 - (t + 16)),
        float::near(r, a * c, t),
    ensures
        reals::rabs(r * b - a) <= reals::rabs(a) * reals::rpow2(1 - t),
{
    let u = reals::rpow2(-t);
    reals::lemma_rpow2_add(-t, -15);
    reals::lemma_rpow2_nat(15);
    lemma2_to64();
    reals::lemma_rpow2_step(-t);
    reals::lemma_rpow2_monotone(-t, 0);
    reals::lemma_rpow2_step(0);
    let v = reals::rpow2(-t - 15);
    assert(v <= (1real / 1000real) * u) by (nonlinear_arith)
        requires
            v == u * reals::rpow2(-15),
            reals::rpow2(-15) * 32768real == 1real,
            u > 0real,
    ;
    let f = b * c - 1real;
    let aa = reals::rabs(a);
    // r * b - a = (r - a * c) * b + a * f
    let d = r - a * c;
    assert(r * b - a == d * b + a * f) by (nonlinear_arith)
        requires
            d == r - a * c,
            f == b * c - 1real,
    ;
    reals::lemma_rabs_product(a, f, aa, v);
    // |d * b| <= |a * c * b| * u
    let g = a * c;
    assert(reals::rabs(d * b) <= reals::rabs(g * b) * u) by {
        lemma_rabs_scale(d, g, b, u);
    }
    assert(g * b == a + a * f) by (nonlinear_arith)
        requires
            g == a * c,
            f == b * c - 1real,
    ;
    assert(aa * v <= aa * ((1real / 1000real) * u)) by (nonlinear_arith)
        requires
            v <= (1real / 1000real) * u,
            aa >= 0real,
    ;
    assert(aa * ((1real / 1000real) * u) == (1real / 1000real) * (aa * u)) by (nonlinear_arith);
    assert(aa * v <= (1real / 1000real) * aa) by (nonlinear_arith)
        requires
            v <= (1real / 1000real),
            aa >= 0real,
    ;
    assert(reals::rabs(g * b) <= (1001real / 1000real) * aa);
    assert(reals::rabs(g * b) * u <= (1001real / 1000real) * (aa * u)) by (nonlinear_arith)
        requires
            reals::rabs(g * b) <= (1001real / 1000real) * aa,
            u > 0real,
    ;
    assert(aa * u >= 0real) by (nonlinear_arith)
        requires
            aa >= 0real,
            u > 0real,
    ;
    assert(aa * (2real * u) == 2real * (aa * u)) by (nonlinear_arith);
}

/// Scaling an error bound.
pub proof fn lemma_rabs_scale(d: real, g: real, b: real, u: real)
    requires
        reals::rabs(d) <= reals::rabs(g) * u,
    ensures
        reals::rabs(d * b) <= reals::rabs(g * b) * u,
{
    let k = reals::rabs(b);
    assert(reals::rabs(d * b) == reals::rabs(d) * k) by {
        lemma_rabs_multiplies(d, b);
    }
    assert(reals::rabs(g * b) == reals::rabs(g) * k) by {
        lemma_rabs_multiplies(g, b);
    }
    let x = reals::rabs(d);
    let y = reals::rabs(g);
    assert(x * k <= (y * k) * u) by (nonlinear_arith)
        requires
            x <= y * u,
            k >= 0real,
    ;
}

/// The absolute value of a product.
pub proof fn lemma_rabs_multiplies(x: real, y: real)
    ensures
        reals::rabs(x * y) == reals::rabs(x) * reals::rabs(y),
{
    assert((-x) * y == -(x * y)) by (nonlinear_arith);
    assert(x * (-y) == -(x * y)) by (nonlinear_arith);
    assert((-x) * (-y) == x * y) by (nonlinear_arith);
    assert(x >= 0real && y >= 0real ==> x * y >= 0real) by (nonlinear_arith);
    assert(x < 0real && y < 0real ==> x * y >= 0real) by (nonlinear_arith);
    assert(x < 0real && y >= 0real ==> x * y <= 0real) by (nonlinear_arith);
    assert(x >= 0real && y < 0real ==> x * y <= 0real) by (nonlinear_arith);
}

/// The product of two numbers given by sign, mantissa and exponent.
proof fn lemma_scaled_product(s: bool, x: int, p: int, t: bool, y: int, q: int)
    ensures
        float::scaled(s != t, x * y, p + q) == float::scaled(s, x, p) * float::scaled(t, y, q),
{
    reals::lemma_int_product(x, y);
    reals::lemma_rpow2_add(p, q);
    let (xr, yr, pr, qr) = (x as real, y as real, reals::rpow2(p), reals::rpow2(q));
    accuracy::lemma_regroup(xr, yr, pr, qr);
    let (u, v) = (xr * pr, yr * qr);
    assert((-u) * v == -(u * v)) by (nonlinear_arith);
    assert(u * (-v) == -(u * v)) by (nonlinear_arith);
    assert((-u) * (-v) == u * v) by (nonlinear_arith);
}

/// A quotient through a reciprocal, before rounding.
proof fn lemma_quotient_unrounded(a: real, b: real, c: real, v: real, w: real)
    requires
        v == a * c,
        reals::rabs(b * c - 1real) <= w,
    ensures
        reals::rabs(v * b - a) <= reals::rabs(a) * w,
{
    let f = b * c - 1real;
    reals::lemma_real_assoc(a, c, b);
    reals::lemma_real_comm(c, b);
    let g = b * c;
    assert(a * (g - 1real) == a * g - a) by (nonlinear_arith);
    reals::lemma_rabs_product(a, f, reals::rabs(a), w);
}

/// A product that is rounded is a rounded quotient.
proof fn lemma_quotient_rounded(a: Float, b: Float, c: Float, r: Float, prec: nat)
    requires
        c.sign == b.sign,
        r.is_rounded(prec, a.sign != c.sign, a.mantissa@ * c.mantissa@, a.exp + c.exp),
        reals::rabs(b.val() * c.val() - 1real) <= reals::rpow2(-(prec as int) - 15),
    ensures
        is_rounded_quotient(r, a, b, prec),
{
    reveal(rounds_quotient);
    let (m, e) = (a.mantissa@ * c.mantissa@, a.exp + c.exp);
    let sign = a.sign != b.sign;
    lemma_scaled_product(a.sign, a.mantissa@, a.exp as int, c.sign, c.mantissa@, c.exp as int);
    lemma_quotient_unrounded(
        a.val(),
        b.val(),
        c.val(),
        float::scaled(sign, m, e),
        reals::rpow2(-(prec as int) - 15),
    );
    assert(r.is_rounded(prec, sign, m, e));
}

/// Zero is a quotient of zero.
proof fn lemma_quotient_zero(a: Float, b: Float, r: Float, prec: nat)
    requires
        a.val() == 0real,
        r.wf(),
        r.prec == prec,
        r.mantissa@ == 0,
    ensures
        is_rounded_quotient(r, a, b, prec),
{
    reveal(rounds_quotient);
    let sign = a.sign != b.sign;
    rounding::lemma_round_error(0, prec);
    assert(r.is_rounded(prec, sign, 0, 0));
    let z = reals::rpow2(0);
    assert(0real * z == 0real) by (nonlinear_arith);
    let (v, w) = (b.val(), reals::rpow2(-(prec as int) - 15));
    assert(0real * v == 0real) by (nonlinear_arith);
    assert(0real * w == 0real) by (nonlinear_arith);
}

impl Float {
    /// `self / rhs` to `prec` bits, through the reciprocal of `rhs`.
    ///
    /// The result times `rhs` is `self` up to a relative error of `2^(1 - prec)`.
    pub fn div_at_prec(&self, rhs: &Float, prec: u64) -> (r: Float)
        requires
            self.wf(),
            rhs.wf(),
            rhs.mantissa@ != 0,
            -0x0b00_0000_0000_0000 <= self.exp <= 0x0b00_0000_0000_0000,
            -0x0b00_0000_0000_0000 <= rhs.exp <= 0x0b00_0000_0000_0000,
            self.size() + prec / 16 + 80 <= limbs::limb_limit(),
        ensures
            r.wf(),
            r.prec == prec,
            reals::rabs(r.val() * rhs.val() - self.val()) <= reals::rabs(self.val()) * reals::rpow2(1 - prec),
            is_rounded_quotient(r, *self, *rhs, prec as nat),
    {
        proof {
            limbs::lemma_limb_limit();
            float::lemma_val_zero(*self);
        }
        if self.is_zero() {
            let zero: Float = Float::zero(prec);
            proof {
                float::lemma_val_zero(zero);
                reals::lemma_rpow2_step(1 - prec);
                assert(0real * rhs.val() == 0real) by (nonlinear_arith);
                assert(0real * reals::rpow2(1 - prec) == 0real) by (nonlinear_arith);
                lemma_quotient_zero(*self, *rhs, zero, prec as nat);
            }
            return zero;
        }
        let recip: Float = rhs.reciprocal_at_prec(prec + 16);
        proof {
            integer::lemma_zero(rhs.mantissa);
            lemma_bit_len_at_most_size(rhs.mantissa);
        }
        let r: Float = self.mul_at_prec(&recip, prec);
        proof {
            lemma_quotient_error(self.val(), rhs.val(), recip.val(), r.val(), prec as int);
            lemma_quotient_rounded(*self, *rhs, recip, r, prec as nat);
        }
        r
    }

    /// `self / rhs` by one long division: the quotient of the mantissas with 64
    /// guard bits, rounded to `prec` bits.
    pub fn div_at_prec_knuth(&self, rhs: &Float, prec: u64) -> (r: Float)
        requires
            self.wf(),
            rhs.wf(),
            rhs.mantissa@ != 0,
            -0x0b00_0000_0000_0000 <= self.exp <= 0x0b00_0000_0000_0000,
            -0x0b00_0000_0000_0000 <= rhs.exp <= 0x0b00_0000_0000_0000,
            self.size() + rhs.size() + prec / 64 + 8 <= limbs::limb_limit(),
        ensures
            ({
                let shift = float::imax(
                    prec + 64 + bitlen::bit_len(rhs.mantissa@) - bitlen::bit_len(self.mantissa@),
                    1,
                );
                r.is_rounded(
                    prec as nat,
                    self.sign != rhs.sign,
                    (self.mantissa@ * pow2(shift as nat)) / rhs.mantissa@,
                    self.exp - rhs.exp - shift,
                )
            }),
    {
        proof {
            limbs::lemma_limb_limit();
            integer::lemma_zero(self.mantissa);
            integer::lemma_zero(rhs.mantissa);
            lemma_bit_len_at_most_size(self.mantissa);
            lemma_bit_len_at_most_size(rhs.mantissa);
        }
        let a_bits: u64 = self.mantissa.bits();
        let b_bits: u64 = rhs.mantissa.bits();
        let want: u64 = prec + 64 + b_bits;
        let shift: u64 = if want > a_bits { want - a_bits } else { 1 };
        let shifted: Integer = Integer::from_parts(shl_mag(&self.mantissa.limbs, shift), false);
        let q: Integer = div_signed(&shifted, &rhs.mantissa);
        proof {
            lemma_pow2_pos(shift as nat);
            assert(self.mantissa@ * pow2(shift as nat) >= 0) by (nonlinear_arith)
                requires
                    self.mantissa@ >= 0,
                    pow2(shift as nat) > 0,
            ;
            lemma_div_pos_is_pos(shifted@, rhs.mantissa@);
        }
        let mut out: Float = Float {
            prec,
            sign: self.sign != rhs.sign,
            mantissa: q,
            exp: self.exp - rhs.exp - shift as i64,
        };
        out.round_to_prec();
        out
    }
}

/// A reciprocal is rounded from a number `m * 2^e`, with the sign of `b`, whose
/// product with `b` is one but for `2^-14` units in the last place.
pub proof fn law_reciprocal(r: Float, b: Float, prec: nat) -> (x: (int, int))
    requires
        is_reciprocal(r, b, prec),
    ensures
        r.is_rounded(prec, b.sign, x.0, x.1),
        reals::rabs(b.val() * float::scaled(b.sign, x.0, x.1) - 1real) <= reals::rpow2(
            -(prec as int) - 14,
        ),
{
    reveal(is_reciprocal);
    choose|m: int, e: int| #[trigger]
        r.is_rounded(prec, b.sign, m, e) && reals::rabs(
            b.val() * float::scaled(b.sign, m, e) - 1real,
        ) <= reals::rpow2(-(prec as int) - 14)
}

/// A quotient is rounded from a number `m * 2^e` of the sign of the quotient, whose
/// product with `b` is `a` but for a relative error of `2^-15` units in the last
/// place.
pub proof fn law_rounded_quotient(r: Float, a: Float, b: Float, prec: nat) -> (x: (int, int))
    requires
        is_rounded_quotient(r, a, b, prec),
    ensures
        r.is_rounded(prec, a.sign != b.sign, x.0, x.1),
        reals::rabs(float::scaled(a.sign != b.sign, x.0, x.1) * b.val() - a.val()) <= reals::rabs(
            a.val(),
        ) * reals::rpow2(-(prec as int) - 15),
{
    reveal(rounds_quotient);
    let sign = a.sign != b.sign;
    choose|m: int, e: int| #[trigger]
        r.is_rounded(prec, sign, m, e) && reals::rabs(
            float::scaled(sign, m, e) * b.val() - a.val(),
        ) <= reals::rabs(a.val()) * reals::rpow2(-(prec as int) - 15)
}

} // verus!
