//! Arbitrary-precision binary floating-point numbers.
//!
//! A number is `sign * mantissa * 2^exp` with a mantissa of at most `prec`
//! bits.  Every operation rounds its exact result to nearest, halves to even.  Zero
//! has an empty mantissa, a positive sign and exponent zero.  There are no
//! infinities and no NaN.
use crate::bitlen;
use crate::integer;
use crate::integer::{Integer, add_signed, mul_signed};
use crate::limbs;
use crate::limbs::copy_limbs;
use crate::magnitude;
use crate::magnitude::{power_of_two, shl_mag, shr_mag};
use crate::reals;
use crate::rounding;
use vstd::arithmetic::div_mod::*;
use vstd::arithmetic::mul::*;
use vstd::arithmetic::power2::*;
use vstd::arithmetic::power::*;
use vstd::prelude::*;

verus! {

/// Binary floating-point number of a given precision.
#[derive(Debug)]
pub struct Float {
    /// Precision in bits.
    pub prec: u64,
    /// Whether the value is below zero.
    pub sign: bool,
    /// Magnitude, at most `prec` bits.
    pub mantissa: Integer,
    /// Binary exponent.
    pub exp: i64,
}

/// Exponents that leave room for the arithmetic on them.
pub open spec fn exp_ok(e: int) -> bool {
    -0x2000_0000_0000_0000 <= e <= 0x2000_0000_0000_0000
}

/// The number `m * 2^e`, negated where `sign` is set.
pub open spec fn scaled(sign: bool, m: int, e: int) -> real {
    if sign {
        -((m as real) * reals::rpow2(e))
    } else {
        (m as real) * reals::rpow2(e)
    }
}

impl Float {
    /// The representation invariant, up to the length of the mantissa.
    pub open spec fn loose(&self) -> bool {
        &&& self.mantissa.wf()
        &&& self.mantissa@ >= 0
        &&& exp_ok(self.exp as int)
    }

    /// The representation invariant.
    pub open spec fn wf(&self) -> bool {
        &&& self.loose()
        &&& bitlen::bit_len(self.mantissa@) <= self.prec
        &&& self.mantissa@ == 0 ==> !self.sign && self.exp == 0
    }

    /// The number that is represented.
    pub open spec fn val(&self) -> real {
        scaled(self.sign, self.mantissa@, self.exp as int)
    }

    /// Limbs of the mantissa.
    pub open spec fn size(&self) -> nat {
        self.mantissa.size()
    }

    /// `self` is `m * 2^e` with the given sign, rounded to `prec` bits.
    pub open spec fn is_rounded(&self, prec: nat, sign: bool, m: int, e: int) -> bool {
        &&& self.wf()
        &&& self.prec == prec
        &&& self.mantissa@ == rounding::round_mantissa(m, prec)
        &&& self.mantissa@ != 0 ==> self.sign == sign && self.exp == e + rounding::round_shift(m, prec)
    }
}

/// Bit `i` of the magnitude `a`.
pub fn bit_at(a: &[u64], i: u64) -> (r: u64)
    ensures
        r == bitlen::bit(limbs::value(a@), i as nat),
{
    let limb: u64 = i / 64;
    let off: u64 = i % 64;
    let ghost v = limbs::value(a@);
    let ghost p = pow2(off as nat) as int;
    proof {
        magnitude::lemma_shift_split(i);
        lemma_pow2_pos(off as nat);
        lemma_pow2_pos(i as nat);
        limbs::lemma_weight_positive(limb as nat);
        limbs::lemma_limbs_bound(a@);
        lemma_div_denominator(v, limbs::weight(limb as nat), p);
    }
    if limb >= a.len() as u64 {
        proof {
            limbs::lemma_weight_monotone(a@.len(), limb as nat);
            lemma_basic_div(v, limbs::weight(limb as nat));
            lemma_basic_div(0, p);
        }
        return 0;
    }
    let k: usize = limb as usize;
    proof {
        magnitude::lemma_skip_is_div(a@, k as int);
        limbs::lemma_value_skip_next(a@, k as int, limbs::base());
        let x = a@[k as int] as int;
        let rest = limbs::value(a@.skip(k + 1));
        let h = pow2((64 - off) as nat) as int;
        lemma_pow2_adds((64 - off) as nat, off as nat);
        lemma2_to64();
        assert(limbs::base() * rest == (h * rest) * p) by (nonlinear_arith)
            requires
                h * p == limbs::base(),
        ;
        lemma_mul_is_commutative(h * rest, p);
        lemma_hoist_over_denominator(x, h * rest, p as nat);
        lemma_pow2_unfold((64 - off) as nat);
        let g = pow2((63 - off) as nat) as int;
        assert(h * rest == 2 * (g * rest)) by (nonlinear_arith)
            requires
                h == 2 * g,
        ;
        lemma_mod_multiples_vanish(g * rest, x / p, 2);
        vstd::bits::lemma_u64_shr_is_div(a@[k as int], off);
    }
    (a[k] >> off) % 2
}

/// Whether any of the `n` low bits of the magnitude `a` is set.
pub fn has_low_bits(a: &[u64], n: u64) -> (r: bool)
    ensures
        r == (limbs::value(a@) % (pow2(n as nat) as int) != 0),
{
    let full: u64 = n / 64;
    let ghost v = limbs::value(a@);
    let ghost p = pow2((n % 64) as nat) as int;
    proof {
        magnitude::lemma_shift_split(n);
        lemma_pow2_pos((n % 64) as nat);
        limbs::lemma_weight_positive(full as nat);
        limbs::lemma_limbs_bound(a@);
        lemma_mod_breakdown(v, limbs::weight(full as nat), p);
        assert(a@.take(0) =~= Seq::<u64>::empty());
    }
    let len: usize = a.len();
    let stop: usize = if full < len as u64 { full as usize } else { len };
    let mut i: usize = 0;
    while i < stop
        invariant
            i <= stop <= a@.len(),
            stop <= full,
            v == limbs::value(a@),
            p > 0,
            limbs::weight(full as nat) > 0,
            pow2(n as nat) == limbs::weight(full as nat) * p,
            limbs::value(a@.take(i as int)) == 0,
            v % (pow2(n as nat) as int) == limbs::weight(full as nat) * ((v / limbs::weight(full as nat)) % p)
                + v % limbs::weight(full as nat),
        decreases stop - i,
    {
        proof {
            limbs::lemma_value_take_next(a@, i as int, limbs::base());
            limbs::lemma_value_split(a@, i + 1, limbs::base());
        }
        if a[i] != 0 {
            proof {
                // A set bit in a full limb survives the remainder.
                let j: nat = (i + 1) as nat;
                let lo = limbs::value(a@.take(i + 1));
                limbs::lemma_limbs_bound(a@.take(i + 1));
                let x = a@[i as int] as int;
                let w = limbs::weight(i as nat);
                limbs::lemma_weight_positive(i as nat);
                assert(x * w >= 1) by (nonlinear_arith)
                    requires
                        x >= 1,
                        w >= 1,
                ;
                let q = v % (pow2(n as nat) as int);
                limbs::lemma_weight_adds(j, (full - j) as nat);
                let wj = limbs::weight(j);
                let f = limbs::weight((full - j) as nat);
                limbs::lemma_weight_positive(j);
                limbs::lemma_weight_positive((full - j) as nat);
                // v % wj == lo, and wj divides 2^n.
                lemma_mul_is_commutative(wj, limbs::value(a@.skip(i + 1)));
                lemma_fundamental_div_mod_converse(v, wj, limbs::value(a@.skip(i + 1)), lo);
                assert(wj * f * p == wj * (f * p)) by (nonlinear_arith);
                assert(f * p > 0) by (nonlinear_arith)
                    requires
                        f > 0,
                        p > 0,
                ;
                lemma_mod_mod(v, wj, f * p);
                if q == 0 {
                    lemma_small_mod(0, wj as nat);
                    assert(false);
                }
            }
            return true;
        }
        proof {
            assert(0 * limbs::weight(i as nat) == 0);
        }
        i = i + 1;
    }
    if full >= len as u64 {
        proof {
            assert(a@.take(len as int) =~= a@);
            lemma_small_mod(0, (limbs::weight(full as nat) * p) as nat);
        }
        return false;
    }
    let k: usize = full as usize;
    let q: u64 = power_of_two((n % 64) as u32);
    let low: u64 = a[k] % q;
    proof {
        limbs::lemma_value_split(a@, k as int, limbs::base());
        magnitude::lemma_skip_is_div(a@, k as int);
        let w = limbs::weight(full as nat);
        lemma_mul_is_commutative(w, limbs::value(a@.skip(k as int)));
        lemma_fundamental_div_mod_converse(v, w, limbs::value(a@.skip(k as int)), 0);
        limbs::lemma_value_skip_next(a@, k as int, limbs::base());
        let x = a@[k as int] as int;
        let rest = limbs::value(a@.skip(k + 1));
        let off: nat = (n % 64) as nat;
        let h = pow2((64 - off) as nat) as int;
        lemma_pow2_adds((64 - off) as nat, off);
        lemma2_to64();
        assert(limbs::base() * rest == p * (h * rest)) by (nonlinear_arith)
            requires
                h * p == limbs::base(),
        ;
        lemma_mod_multiples_vanish(h * rest, x, p);
        let y = x % p;
        lemma_mod_bound(x, p);
        assert(w * y == 0 <==> y == 0) by (nonlinear_arith)
            requires
                w >= 1,
                y >= 0,
        ;
    }
    low != 0
}

impl Float {
    /// Round the mantissa to the precision, to nearest with halves to even.
    pub fn round_to_prec(&mut self)
        requires
            old(self).loose(),
            exp_ok(old(self).exp + 64 * old(self).size() + 1),
        ensures
            final(self).is_rounded(
                old(self).prec as nat,
                old(self).sign,
                old(self).mantissa@,
                old(self).exp as int,
            ),
            final(self).size() <= old(self).size() + 1,
    {
        let ghost m = self.mantissa@;
        let ghost prec = self.prec as nat;
        proof {
            limbs::lemma_limb_limit();
            rounding::lemma_round_error(m, prec);
            rounding::lemma_round_nothing(m);
            integer::lemma_zero(self.mantissa);
        }
        if self.mantissa.is_zero() {
            self.sign = false;
            self.exp = 0;
            return;
        }
        let bits: u64 = self.mantissa.bits();
        if bits <= self.prec {
            return;
        }
        let drop: u64 = bits - self.prec;
        let round_bit: u64 = bit_at(&self.mantissa.limbs, drop - 1);
        let low: Integer = Integer::from_parts(shr_mag(&self.mantissa.limbs, drop), false);
        let up: bool = round_bit == 1 && (has_low_bits(&self.mantissa.limbs, drop - 1) || bit_at(
            &low.limbs,
            0,
        ) == 1);
        let one: Integer = Integer::from(if up { 1u64 } else { 0u64 });
        proof {
            bitlen::lemma_bit_len(m);
            rounding::lemma_round_bit(m, drop as nat);
            integer::lemma_zero(low);
            lemma2_to64();
            assert(low@ / 1 == low@);
            // The quotient is small.
            lemma_pow2_pos(drop as nat);
            lemma_pow2_unfold(drop as nat);
            lemma_pow2_pos((drop - 1) as nat);
            limbs::lemma_limbs_bound(self.mantissa.limbs@);
            let p = pow2(drop as nat) as int;
            lemma_fundamental_div_mod(m, p);
            lemma_mod_bound(m, p);
            let q = m / p;
            assert(2 * q <= m) by (nonlinear_arith)
                requires
                    m == p * q + m % p,
                    m % p >= 0,
                    p >= 2,
                    q >= 0,
            ;
            assert(q + 1 <= m);
        }
        let q: Integer = add_signed_small(&low, &one, Ghost(self.mantissa));
        let q_bits: u64 = q.bits();
        if q_bits > self.prec {
            let half: Integer = Integer::from_parts(shr_mag(&q.limbs, q_bits - self.prec), false);
            proof {
                integer::lemma_zero(q);
                lemma_extra_is_one(m, prec);
                lemma2_to64();
            }
            self.exp = self.exp + drop as i64 + (q_bits - self.prec) as i64;
            self.mantissa = half;
        } else {
            self.exp = self.exp + drop as i64;
            self.mantissa = q;
        }
        if self.mantissa.is_zero() {
            self.sign = false;
            self.exp = 0;
        }
    }
}

/// Rounding up grows the mantissa by at most one bit.
proof fn lemma_extra_is_one(m: int, prec: nat)
    requires
        m > 0,
        bitlen::bit_len(m) > prec,
    ensures
        bitlen::bit_len(rounding::nearest(m, prec)) <= prec + 1,
{
    rounding::lemma_round_error(m, prec);
    let d = rounding::excess(m, prec);
    let p = pow2(d) as int;
    let h = pow2((d - 1) as nat) as int;
    bitlen::lemma_bit_len(m);
    lemma_pow2_unfold(d);
    lemma_pow2_pos((d - 1) as nat);
    lemma_pow2_adds(prec, d);
    lemma_pow2_unfold(prec + 1);
    lemma_pow2_pos(prec);
    let pp = pow2(prec) as int;
    let q = rounding::nearest(m, prec);
    rounding::lemma_round_half(m, d);
    assert(q < 2 * pp) by (nonlinear_arith)
        requires
            q * p <= m + h,
            m < pp * p,
            h < p,
            pp >= 1,
            p > 0,
    {
        assert(q * p < pp * p + p);
        assert(q < pp + 1);
    }
    bitlen::lemma_bit_len_at_most(q, prec + 1);
}

/// `a + b` where the sum stays at or below the magnitude of `bound`.
fn add_signed_small(a: &Integer, b: &Integer, Ghost(bound): Ghost<Integer>) -> (r: Integer)
    requires
        a.wf(),
        b.wf(),
        bound.wf(),
        0 <= a@,
        0 <= b@,
        a@ + b@ <= bound@,
    ensures
        r.wf(),
        r@ == a@ + b@,
        r.size() <= bound.size(),
{
    proof {
        limbs::lemma_limb_limit();
        integer::lemma_zero(*a);
        integer::lemma_zero(*b);
        integer::lemma_zero(bound);
    }
    let sum: Vec<u64> = magnitude::add_mag(&a.limbs, &b.limbs);
    proof {
        limbs::lemma_limbs_bound(bound.limbs@);
        if sum@.len() > bound.size() {
            limbs::lemma_value_lower(sum@);
            limbs::lemma_weight_monotone(bound.size(), (sum@.len() - 1) as nat);
        }
    }
    Integer::from_parts(sum, false)
}

impl Clone for Float {
    fn clone(&self) -> (r: Self)
        ensures
            r.prec == self.prec,
            r.sign == self.sign,
            r.mantissa.limbs@ == self.mantissa.limbs@,
            r.mantissa@ == self.mantissa@,
            r.mantissa.negative == self.mantissa.negative,
            r.exp == self.exp,
            r.val() == self.val(),
            self.wf() ==> r.wf(),
            self.loose() ==> r.loose(),
            r.size() == self.size(),
    {
        Float {
            prec: self.prec,
            sign: self.sign,
            mantissa: self.mantissa.clone(),
            exp: self.exp,
        }
    }
}

/// `x` is `y` up to a relative error of `2^-prec`.
pub open spec fn near(x: real, y: real, prec: int) -> bool {
    reals::rabs(x - y) <= reals::rabs(y) * reals::rpow2(-prec)
}

/// Rounding keeps a value up to a relative error of `2^-prec`.
pub proof fn lemma_rounded_near(r: Float, prec: nat, sign: bool, m: int, e: int)
    requires
        r.is_rounded(prec, sign, m, e),
        m >= 0,
    ensures
        near(r.val(), scaled(sign, m, e), prec as int),
{
    let rm = rounding::round_mantissa(m, prec);
    let s = rounding::round_shift(m, prec);
    rounding::lemma_round_error(m, prec);
    reals::lemma_rpow2_add(e, s as int);
    reals::lemma_rpow2_nat(s);
    reals::lemma_rpow2_nat(prec);
    reals::lemma_rpow2_step(e);
    reals::lemma_rpow2_step(-(prec as int));
    reals::lemma_int_product(rm, pow2(s) as int);
    let we = reals::rpow2(e);
    let ps = pow2(s) as real;
    let pp = pow2(prec) as real;
    let u = reals::rpow2(-(prec as int));
    let rr = rm as real;
    let mr = m as real;
    let big = rm * pow2(s);
    let d = (big - m) as real;
    reals::lemma_int_product(big - m, pow2(prec) as int);
    reals::lemma_int_product(m - big, pow2(prec) as int);
    assert(d == rr * ps - mr);
    assert(d * pp <= mr);
    assert((-d) * pp <= mr);
    // The magnitude of the result.
    assert(rr * (we * ps) == (rr * ps) * we) by (nonlinear_arith);
    assert(scaled(false, r.mantissa@, r.exp as int) == (rr * ps) * we) by {
        if rm == 0 {
            assert(0real * (we * ps) == 0real) by (nonlinear_arith);
            reals::lemma_rpow2_step(0);
        }
    }
    let diff = (rr * ps) * we - mr * we;
    assert(diff == d * we) by (nonlinear_arith)
        requires
            d == rr * ps - mr,
            diff == (rr * ps) * we - mr * we,
    ;
    assert(d <= mr * u) by (nonlinear_arith)
        requires
            d * pp <= mr,
            u * pp == 1real,
            u > 0real,
    ;
    assert(-d <= mr * u) by (nonlinear_arith)
        requires
            (-d) * pp <= mr,
            u * pp == 1real,
            u > 0real,
    ;
    assert(d * we <= (mr * we) * u && (-d) * we <= (mr * we) * u) by (nonlinear_arith)
        requires
            d <= mr * u,
            -d <= mr * u,
            we > 0real,
    ;
    assert((-d) * we == -(d * we)) by (nonlinear_arith);
    assert(mr * we >= 0real) by (nonlinear_arith)
        requires
            mr >= 0real,
            we > 0real,
    ;
    if rm == 0 {
        assert(0real * reals::rpow2(r.exp as int) == 0real) by (nonlinear_arith);
    }
}

/// The product of two scaled numbers.
pub proof fn lemma_scaled_product(s: bool, m: int, e: int, t: bool, n: int, f: int)
    ensures
        scaled(s != t, m * n, e + f) == scaled(s, m, e) * scaled(t, n, f),
{
    reals::lemma_int_product(m, n);
    reals::lemma_rpow2_add(e, f);
    let a = m as real;
    let b = n as real;
    let x = reals::rpow2(e);
    let y = reals::rpow2(f);
    assert((a * b) * (x * y) == (a * x) * (b * y)) by (nonlinear_arith);
    let p = a * x;
    let q = b * y;
    assert((-p) * q == -(p * q)) by (nonlinear_arith);
    assert(p * (-q) == -(p * q)) by (nonlinear_arith);
    assert((-p) * (-q) == p * q) by (nonlinear_arith);
}

/// Alignment keeps the value.
pub proof fn lemma_aligned_value(a: Float, e: int)
    requires
        e <= a.exp,
    ensures
        (aligned(a, e) as real) * reals::rpow2(e) == a.val(),
{
    let k: nat = (a.exp - e) as nat;
    reals::lemma_int_product(a.mantissa@, pow2(k) as int);
    reals::lemma_rpow2_nat(k);
    reals::lemma_rpow2_add(k as int, e);
    let m = a.mantissa@ as real;
    let p = pow2(k) as real;
    let w = reals::rpow2(e);
    assert((m * p) * w == m * (p * w)) by (nonlinear_arith);
    let t = (a.mantissa@ * pow2(k)) as real;
    assert((-t) * w == -(t * w)) by (nonlinear_arith);
}

/// The value of an aligned sum.
pub proof fn lemma_sum_value(a: Float, b: Float, e: int, sum: int)
    requires
        e <= a.exp,
        e <= b.exp,
        sum == aligned(a, e) + aligned(b, e),
    ensures
        scaled(sum < 0, integer::abs(sum), e) == a.val() + b.val(),
{
    lemma_aligned_value(a, e);
    lemma_aligned_value(b, e);
    let x = aligned(a, e) as real;
    let y = aligned(b, e) as real;
    let w = reals::rpow2(e);
    assert((x + y) * w == x * w + y * w) by (nonlinear_arith);
    assert((-(x + y)) * w == -((x + y) * w)) by (nonlinear_arith);
}

/// The aligned sum of two floating-point numbers, in units of `2^e`.
pub open spec fn aligned(a: Float, e: int) -> int {
    let m = a.mantissa@ * pow2((a.exp - e) as nat);
    if a.sign {
        -m
    } else {
        m
    }
}

/// The smaller of two integers.
pub open spec fn imin(x: int, y: int) -> int {
    if x <= y {
        x
    } else {
        y
    }
}

/// The larger of two integers.
pub open spec fn imax(x: int, y: int) -> int {
    if x >= y {
        x
    } else {
        y
    }
}

impl Float {
    /// A zero of the given precision.
    pub fn zero(prec: u64) -> (r: Float)
        ensures
            r.wf(),
            r.prec == prec,
            r.mantissa@ == 0,
            r.size() == 0,
    {
        proof {
            bitlen::lemma_bit_len(0);
        }
        Float { prec, sign: false, mantissa: Integer::new(), exp: 0 }
    }

    /// A copy of `self`, rounded to `prec` bits.
    fn rounded_copy(&self, prec: u64) -> (r: Float)
        requires
            self.wf(),
            exp_ok(self.exp + 64 * self.size() + 1),
        ensures
            r.is_rounded(prec as nat, self.sign, self.mantissa@, self.exp as int),
            near(r.val(), self.val(), prec as int),
            r.size() <= self.size() + 1,
    {
        let mut r: Float = self.clone();
        r.prec = prec;
        r.round_to_prec();
        proof {
            lemma_rounded_near(r, prec as nat, self.sign, self.mantissa@, self.exp as int);
        }
        r
    }

    /// `self * rhs`, rounded to `prec` bits.
    pub fn mul_at_prec(&self, rhs: &Float, prec: u64) -> (r: Float)
        requires
            self.wf(),
            rhs.wf(),
            self.size() + rhs.size() <= limbs::limb_limit(),
            exp_ok(self.exp + rhs.exp),
            exp_ok(self.exp + rhs.exp + 64 * (self.size() + rhs.size()) + 1),
        ensures
            r.is_rounded(
                prec as nat,
                self.sign != rhs.sign,
                self.mantissa@ * rhs.mantissa@,
                self.exp + rhs.exp,
            ),
            near(r.val(), self.val() * rhs.val(), prec as int),
            r.size() <= self.size() + rhs.size() + 1,
    {
        proof {
            lemma_scaled_product(
                self.sign,
                self.mantissa@,
                self.exp as int,
                rhs.sign,
                rhs.mantissa@,
                rhs.exp as int,
            );
            assert(self.mantissa@ * rhs.mantissa@ >= 0) by (nonlinear_arith)
                requires
                    self.mantissa@ >= 0,
                    rhs.mantissa@ >= 0,
            ;
        }
        if self.is_zero() || rhs.is_zero() {
            proof {
                assert(self.mantissa@ * rhs.mantissa@ == 0) by (nonlinear_arith)
                    requires
                        self.mantissa@ == 0 || rhs.mantissa@ == 0,
                ;
                rounding::lemma_round_error(0, prec as nat);
            }
            let zero: Float = Float::zero(prec);
            proof {
                lemma_rounded_near(
                    zero,
                    prec as nat,
                    self.sign != rhs.sign,
                    self.mantissa@ * rhs.mantissa@,
                    self.exp + rhs.exp,
                );
            }
            return zero;
        }
        let mantissa: Integer = mul_signed(&self.mantissa, &rhs.mantissa);
        let mut out: Float = Float {
            prec,
            sign: self.sign != rhs.sign,
            mantissa,
            exp: self.exp + rhs.exp,
        };
        out.round_to_prec();
        proof {
            lemma_rounded_near(
                out,
                prec as nat,
                self.sign != rhs.sign,
                self.mantissa@ * rhs.mantissa@,
                self.exp + rhs.exp,
            );
        }
        out
    }

    /// Whether the value is zero.
    pub fn is_zero(&self) -> (r: bool)
        requires
            self.mantissa.wf(),
        ensures
            r == (self.mantissa@ == 0),
            self.wf() ==> r == (self.val() == 0real),
    {
        proof {
            if self.wf() {
                lemma_val_zero(*self);
            }
        }
        self.mantissa.is_zero()
    }

    /// Precision in bits.
    pub fn prec_64(&self) -> (r: u64)
        ensures
            r == self.prec,
    {
        self.prec
    }

    /// The mantissa in units of `2^e`, with the sign.
    fn align(&self, e: i64) -> (r: Integer)
        requires
            self.wf(),
            exp_ok(e as int),
            e <= self.exp,
            self.size() + (self.exp - e) / 64 + 1 <= limbs::limb_limit(),
        ensures
            r.wf(),
            r@ == aligned(*self, e as int),
            r.size() <= self.size() + (self.exp - e) / 64 + 1,
    {
        proof {
            limbs::lemma_limb_limit();
            integer::lemma_zero(self.mantissa);
        }
        let shift: u64 = (self.exp - e) as u64;
        let limbs: Vec<u64> = shl_mag(&self.mantissa.limbs, shift);
        Integer::from_parts(limbs, self.sign)
    }

    /// `self + rhs`, rounded to `prec` bits.
    pub fn add_at_prec(&self, rhs: &Float, prec: u64) -> (r: Float)
        requires
            self.wf(),
            rhs.wf(),
            self.size() + (self.exp - imin(self.exp as int, rhs.exp as int)) / 64 + 3 <= limbs::limb_limit(),
            rhs.size() + (rhs.exp - imin(self.exp as int, rhs.exp as int)) / 64 + 3 <= limbs::limb_limit(),
            exp_ok(self.exp + 64 * self.size() + 256),
            exp_ok(rhs.exp + 64 * rhs.size() + 256),
        ensures
            self.mantissa@ == 0 ==> r.is_rounded(
                prec as nat,
                rhs.sign,
                rhs.mantissa@,
                rhs.exp as int,
            ),
            self.mantissa@ != 0 && rhs.mantissa@ == 0 ==> r.is_rounded(
                prec as nat,
                self.sign,
                self.mantissa@,
                self.exp as int,
            ),
            self.mantissa@ != 0 && rhs.mantissa@ != 0 ==> ({
                let e = imin(self.exp as int, rhs.exp as int);
                let sum = aligned(*self, e) + aligned(*rhs, e);
                r.is_rounded(prec as nat, sum < 0, integer::abs(sum), e)
            }),
            near(r.val(), self.val() + rhs.val(), prec as int),
    {
        proof {
            limbs::lemma_limb_limit();
        }
        if self.is_zero() {
            let r: Float = rhs.rounded_copy(prec);
            proof {
                lemma_rounded_near(r, prec as nat, rhs.sign, rhs.mantissa@, rhs.exp as int);
            }
            return r;
        }
        if rhs.is_zero() {
            let r: Float = self.rounded_copy(prec);
            proof {
                lemma_rounded_near(r, prec as nat, self.sign, self.mantissa@, self.exp as int);
            }
            return r;
        }
        let e: i64 = if self.exp <= rhs.exp { self.exp } else { rhs.exp };
        let a: Integer = self.align(e);
        let b: Integer = rhs.align(e);
        let sum: Integer = add_signed(&a, &b);
        proof {
            integer::lemma_zero(sum);
        }
        let sign: bool = sum.negative;
        let mantissa: Integer = Integer::from_parts(sum.limbs, false);
        let mut out: Float = Float { prec, sign, mantissa, exp: e };
        proof {
            lemma_sum_exponent(*self, *rhs, out);
        }
        out.round_to_prec();
        proof {
            lemma_sum_value(*self, *rhs, e as int, sum@);
            lemma_rounded_near(out, prec as nat, sum@ < 0, integer::abs(sum@), e as int);
        }
        out
    }

    /// `self - rhs`, rounded to `prec` bits.
    pub fn sub_at_prec(&self, rhs: &Float, prec: u64) -> (r: Float)
        requires
            self.wf(),
            rhs.wf(),
            self.size() + (self.exp - imin(self.exp as int, rhs.exp as int)) / 64 + 3 <= limbs::limb_limit(),
            rhs.size() + (rhs.exp - imin(self.exp as int, rhs.exp as int)) / 64 + 3 <= limbs::limb_limit(),
            exp_ok(self.exp + 64 * self.size() + 256),
            exp_ok(rhs.exp + 64 * rhs.size() + 256),
        ensures
            self.mantissa@ == 0 ==> r.is_rounded(
                prec as nat,
                !rhs.sign,
                rhs.mantissa@,
                rhs.exp as int,
            ),
            self.mantissa@ != 0 && rhs.mantissa@ == 0 ==> r.is_rounded(
                prec as nat,
                self.sign,
                self.mantissa@,
                self.exp as int,
            ),
            self.mantissa@ != 0 && rhs.mantissa@ != 0 ==> ({
                let e = imin(self.exp as int, rhs.exp as int);
                let sum = aligned(*self, e) - aligned(*rhs, e);
                r.is_rounded(prec as nat, sum < 0, integer::abs(sum), e)
            }),
            near(r.val(), self.val() - rhs.val(), prec as int),
    {
        let mut neg: Float = rhs.clone();
        if !neg.is_zero() {
            neg.sign = !neg.sign;
        }
        let r: Float = self.add_at_prec(&neg, prec);
        proof {
            if rhs.mantissa@ == 0 {
                rounding::lemma_round_error(0, prec as nat);
            }
        }
        r
    }

    /// In-place square.
    pub fn square_mut(&mut self)
        requires
            old(self).wf(),
            2 * old(self).size() <= limbs::limb_limit(),
            exp_ok(2 * old(self).exp),
            exp_ok(2 * old(self).exp + 128 * old(self).size() + 1),
        ensures
            final(self).is_rounded(
                old(self).prec as nat,
                false,
                old(self).mantissa@ * old(self).mantissa@,
                2 * old(self).exp,
            ),
            near(final(self).val(), old(self).val() * old(self).val(), old(self).prec as int),
    {
        let prec: u64 = self.prec;
        let out: Float = self.mul_at_prec(self, prec);
        *self = out;
    }

    /// A copy of `self` rounded to `prec` bits.  Only the limbs that can
    /// matter are copied; of the others it matters whether any bit is set.
    pub fn truncated_to_prec(&self, prec: u64) -> (r: Float)
        requires
            self.wf(),
            exp_ok(self.exp + 64 * self.size() + 1),
        ensures
            r.is_rounded(prec as nat, self.sign, self.mantissa@, self.exp as int),
            near(r.val(), self.val(), prec as int),
            r.size() <= self.size() + 1,
    {
        proof {
            limbs::lemma_limb_limit();
            integer::lemma_zero(self.mantissa);
        }
        let total: u64 = self.mantissa.limbs.len() as u64;
        if prec / 64 >= total {
            return self.rounded_copy(prec);
        }
        let keep: u64 = prec / 64 + 2;
        if keep >= total {
            return self.rounded_copy(prec);
        }
        let cut: usize = (total - keep) as usize;
        let top: &[u64] = vstd::slice::slice_subrange(
            self.mantissa.limbs.as_slice(),
            cut,
            self.mantissa.limbs.len(),
        );
        let whole: Integer = Integer::from_parts(copy_limbs(top), false);
        let rest: bool = has_low_bits(&self.mantissa.limbs, 64 * cut as u64);
        proof {
            assert(top@ =~= self.mantissa.limbs@.skip(cut as int));
            integer::lemma_zero(whole);
        }
        let kept: Integer = with_sticky_bit(whole, rest);
        let mut out: Float = Float {
            prec,
            sign: self.sign,
            mantissa: kept,
            exp: self.exp + 64 * cut as i64,
        };
        proof {
            magnitude::lemma_skip_is_div(self.mantissa.limbs@, cut as int);
            limbs::lemma_weight_pow2(cut as nat);
            limbs::lemma_limbs_bound(top@);
            limbs::lemma_value_lower(self.mantissa.limbs@);
            limbs::lemma_weight_pow2((total - 1) as nat);
            bitlen::lemma_bit_len(self.mantissa@);
            if bitlen::bit_len(self.mantissa@) < 64 * (total - 1) + 1 {
                if bitlen::bit_len(self.mantissa@) < 64 * (total - 1) {
                    lemma_pow2_strictly_increases(
                        bitlen::bit_len(self.mantissa@),
                        (64 * (total - 1)) as nat,
                    );
                }
            }
            lemma_round_truncated(self.mantissa@, 64 * (cut as nat), prec as nat);
        }
        out.round_to_prec();
        proof {
            lemma_rounded_near(out, prec as nat, self.sign, self.mantissa@, self.exp as int);
        }
        out
    }
}

/// The exponent of a sum stays in range.
proof fn lemma_sum_exponent(a: Float, b: Float, out: Float)
    requires
        a.wf(),
        b.wf(),
        a.mantissa@ != 0,
        b.mantissa@ != 0,
        out.mantissa.wf(),
        out.exp == imin(a.exp as int, b.exp as int),
        out.mantissa@ == integer::abs(aligned(a, out.exp as int) + aligned(b, out.exp as int)),
        exp_ok(a.exp + 64 * a.size() + 256),
        exp_ok(b.exp + 64 * b.size() + 256),
    ensures
        exp_ok(out.exp + 64 * out.size() + 1),
{
    let e = out.exp as int;
    let ka: nat = (a.exp - e) as nat;
    let kb: nat = (b.exp - e) as nat;
    integer::lemma_size_bound(a.mantissa);
    integer::lemma_size_bound(b.mantissa);
    limbs::lemma_weight_pow2(a.size());
    limbs::lemma_weight_pow2(b.size());
    lemma_pow2_adds(64 * a.size(), ka);
    lemma_pow2_adds(64 * b.size(), kb);
    lemma_pow2_pos(ka);
    lemma_pow2_pos(kb);
    let t: nat = if 64 * a.size() + ka >= 64 * b.size() + kb {
        64 * a.size() + ka
    } else {
        64 * b.size() + kb
    };
    let x = a.mantissa@;
    let y = b.mantissa@;
    let pa = pow2(ka) as int;
    let pb = pow2(kb) as int;
    assert(0 <= x * pa <= pow2(64 * a.size()) * pa) by (nonlinear_arith)
        requires
            0 <= x <= pow2(64 * a.size()),
            pa > 0,
    ;
    assert(0 <= y * pb <= pow2(64 * b.size()) * pb) by (nonlinear_arith)
        requires
            0 <= y <= pow2(64 * b.size()),
            pb > 0,
    ;
    if 64 * a.size() + ka < t {
        lemma_pow2_strictly_increases(64 * a.size() + ka, t);
    }
    if 64 * b.size() + kb < t {
        lemma_pow2_strictly_increases(64 * b.size() + kb, t);
    }
    lemma_pow2_unfold(t + 1);
    integer::lemma_size_from_bits(out.mantissa, t + 1);
}

/// `t` with its last bit set where `rest` holds.
pub open spec fn sticky(t: int, rest: bool) -> int {
    if rest && t % 2 == 0 {
        t + 1
    } else {
        t
    }
}

/// Set the last bit where bits below it were set.
fn with_sticky_bit(a: Integer, rest: bool) -> (r: Integer)
    requires
        a.wf(),
        a@ >= 0,
        a.size() < limbs::limb_limit(),
    ensures
        r.wf(),
        r@ == sticky(a@, rest),
        r.size() <= a.size() || a.size() == 0,
{
    proof {
        integer::lemma_zero(a);
        limbs::lemma_limb_limit();
        lemma2_to64();
        assert(a@ / 1 == a@);
    }
    if !rest || bit_at(&a.limbs, 0) == 1 {
        return a;
    }
    let one: Integer = Integer::from(1u64);
    let sum: Vec<u64> = magnitude::add_mag(&a.limbs, &one.limbs);
    proof {
        integer::lemma_zero(one);
        limbs::lemma_limbs_bound(a.limbs@);
        if sum@.len() > a.size() && a.size() > 0 {
            limbs::lemma_value_lower(sum@);
            limbs::lemma_weight_monotone(a.size(), (sum@.len() - 1) as nat);
            limbs::lemma_weight_pow2(a.size());
            lemma_pow2_unfold(64 * a.size());
            assert(false);
        }
    }
    Integer::from_parts(sum, false)
}

/// Of the bits beyond the round bit it matters for rounding only whether one is
/// set.
proof fn lemma_round_truncated(m: int, cut: nat, prec: nat)
    requires
        m > 0,
        cut + prec + 1 < bitlen::bit_len(m),
    ensures
        ({
            let c = pow2(cut) as int;
            let t = sticky(m / c, m % c != 0);
            &&& rounding::round_mantissa(t, prec) == rounding::round_mantissa(m, prec)
            &&& rounding::round_shift(t, prec) + cut == rounding::round_shift(m, prec)
        }),
{
    let c = pow2(cut) as int;
    let s = m / c;
    let t = sticky(s, m % c != 0);
    lemma_pow2_pos(cut);
    bitlen::lemma_bit_len_drop(m, cut);
    lemma_div_pos_is_pos(m, c);
    let d = rounding::excess(m, prec);
    let k = rounding::excess(s, prec);
    assert(d == k + cut);
    assert(k >= 2);
    let n = bitlen::bit_len(s);
    lemma_pow2_adds(cut, k);
    lemma_pow2_unfold(k);
    lemma_pow2_unfold((k - 1) as nat);
    lemma_pow2_pos((k - 2) as nat);
    let p = pow2(k) as int;
    let h = pow2((k - 1) as nat) as int;
    lemma_fundamental_div_mod(m, c);
    lemma_mod_bound(m, c);
    lemma_fundamental_div_mod(s, p);
    lemma_mod_bound(s, p);
    let low = m % c;
    let r = s % p;
    let q = s / p;
    // The last bit of s is that of r.
    let g = pow2((k - 2) as nat) as int;
    assert(p * q == 2 * (2 * g * q)) by (nonlinear_arith)
        requires
            p == 4 * g,
    ;
    assert(s % 2 == r % 2);
    // Setting it changes neither the quotient nor the number of bits.
    let r1 = sticky(r, low != 0);
    assert(t == p * q + r1);
    assert(r1 < p);
    lemma_mul_is_commutative(p, q);
    lemma_fundamental_div_mod_converse(t, p, q, r1);
    bitlen::lemma_bit_len(s);
    if s <= 1 {
        lemma2_to64();
        bitlen::lemma_bit_len_at_most(s, 1);
    }
    lemma_sticky_bits(s, t);
    // The quotient and the remainder of m.
    let e = r * c + low;
    assert(m == q * (p * c) + e) by (nonlinear_arith)
        requires
            m == c * s + low,
            s == p * q + r,
            e == r * c + low,
    ;
    assert(0 <= e < p * c) by (nonlinear_arith)
        requires
            e == r * c + low,
            0 <= r <= p - 1,
            0 <= low < c,
    ;
    lemma_mul_is_commutative(p, c);
    lemma_fundamental_div_mod_converse(m, p * c, q, e);
    let pc = p * c;
    assert(pc == 2 * (h * c)) by (nonlinear_arith)
        requires
            pc == p * c,
            p == 2 * h,
    ;
    if r > h {
        assert(e > h * c) by (nonlinear_arith)
            requires
                e == r * c + low,
                r >= h + 1,
                low >= 0,
                c > 0,
        ;
    } else if r < h {
        assert(e < h * c) by (nonlinear_arith)
            requires
                e == r * c + low,
                r + 1 <= h,
                low < c,
                c > 0,
        ;
    } else {
        assert(e == h * c + low);
    }
    assert(rounding::nearest(t, prec) == rounding::nearest(m, prec));
}

/// Setting the last bit adds no bit.
proof fn lemma_sticky_bits(s: int, t: int)
    requires
        s > 1,
        t == s || (s % 2 == 0 && t == s + 1),
    ensures
        bitlen::bit_len(t) == bitlen::bit_len(s),
{
    assert(s / 2 == t / 2);
    reveal_with_fuel(bitlen::bit_len, 2);
}

/// A value is zero exactly where its mantissa is.
pub proof fn lemma_val_zero(a: Float)
    requires
        a.mantissa@ >= 0,
    ensures
        (a.val() == 0real) == (a.mantissa@ == 0),
        !a.sign ==> a.val() >= 0real,
{
    reals::lemma_rpow2_step(a.exp as int);
    let m = a.mantissa@ as real;
    let w = reals::rpow2(a.exp as int);
    assert(m * w >= 0real) by (nonlinear_arith)
        requires
            m >= 0real,
            w > 0real,
    ;
    assert((m * w == 0real) == (m == 0real)) by (nonlinear_arith)
        requires
            m >= 0real,
            w > 0real,
    ;
}

/// The value of a floating-point number: its mantissa times two to its exponent,
/// with its sign.
pub proof fn law_value(f: Float)
    ensures
        !f.sign ==> f.val() == (f.mantissa@ as real) * reals::rpow2(f.exp as int),
        f.sign ==> f.val() == -((f.mantissa@ as real) * reals::rpow2(f.exp as int)),
        f.mantissa@ == 0 ==> f.val() == 0real,
{
    assert(0real * reals::rpow2(f.exp as int) == 0real) by (nonlinear_arith);
}

/// A rounded number: `m * 2^e` to the nearest mantissa of at most `prec` bits, even
/// where two are equally near, and with no bit less than `prec` where bits are cut
/// off.  The result is the number of bits by which the exponent grows.
pub proof fn law_rounded(r: Float, prec: nat, sign: bool, m: int, e: int) -> (s: nat)
    requires
        r.is_rounded(prec, sign, m, e),
        m > 0,
        prec >= 1,
    ensures
        r.wf(),
        r.prec == prec,
        r.sign == sign,
        r.exp == e + s,
        0 < r.mantissa@ < pow2(prec),
        -(pow2(s) as int) <= 2 * (r.mantissa@ * pow2(s) - m) <= pow2(s),
        2 * (r.mantissa@ * pow2(s) - m) == pow2(s) || 2 * (m - r.mantissa@ * pow2(s)) == pow2(s)
            ==> r.mantissa@ % 2 == 0,
        s > 0 ==> r.mantissa@ >= pow2((prec - 1) as nat),
        m < pow2(prec) ==> s == 0 && r.mantissa@ == m,
{
    rounding::law_rounding(m, prec);
    rounding::lemma_round_error(m, prec);
    rounding::round_shift(m, prec)
}

/// A rounded number is off by at most `2^-prec` of its value.
pub proof fn law_rounded_near(r: Float, prec: nat, sign: bool, m: int, e: int)
    requires
        r.is_rounded(prec, sign, m, e),
        m >= 0,
    ensures
        ({
            let x = (m as real) * reals::rpow2(e);
            let v = if sign {
                -x
            } else {
                x
            };
            let d = r.val() - v;
            -(x * reals::rpow2(-prec)) <= d <= x * reals::rpow2(-prec)
        }),
{
    lemma_rounded_near(r, prec, sign, m, e);
    reals::lemma_rpow2_step(e);
    let x = (m as real) * reals::rpow2(e);
    assert(x >= 0real) by (nonlinear_arith)
        requires
            x == (m as real) * reals::rpow2(e),
            (m as real) >= 0real,
            reals::rpow2(e) > 0real,
    ;
    assert(reals::rabs(scaled(sign, m, e)) == x);
}

/// Two numbers are near at a precision where they differ by at most that many
/// binary places of the second.
pub proof fn law_near(x: real, y: real, prec: int)
    ensures
        near(x, y, prec) <==> x - y <= reals::rabs(y) * reals::rpow2(-prec) && y - x
            <= reals::rabs(y) * reals::rpow2(-prec),
{
}

/// A floating-point number holds at most `prec` bits, and zero has no sign and no
/// exponent.
pub proof fn law_well_formed(f: Float)
    requires
        f.wf(),
    ensures
        0 <= f.mantissa@ < pow2(f.prec as nat),
        f.mantissa@ == 0 ==> !f.sign && f.exp == 0,
{
    bitlen::law_bit_len(f.mantissa@, f.prec as nat);
}

} // verus!
