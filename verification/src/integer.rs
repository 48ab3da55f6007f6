//! Arbitrary-precision signed integers.
//!
//! The magnitude is a vector of 64-bit limbs, least significant first, kept
//! without most-significant zero limbs; the sign is a separate flag.  Zero has
//! no limbs and is not negative, so that every value has one representation.
use crate::bitlen;
use crate::divide;
use crate::divide::{div_rem_limb, div_rem_mag};
use crate::limbs;
use crate::limbs::copy_limbs;
use crate::magnitude;
use crate::magnitude::{add_mag, cmp_mag, same_limbs, shl_mag, sub_mag};
use crate::multiply::mul_mag;
use core::cmp::Ordering;
use vstd::arithmetic::div_mod::*;
use vstd::arithmetic::mul::*;
use vstd::arithmetic::power2::*;
use vstd::arithmetic::power::*;
use vstd::prelude::*;

verus! {

/// Signed arbitrary-precision integer.
#[derive(Debug)]
pub struct Integer {
    /// Magnitude limbs, least significant first, with no zero limb on top.
    pub limbs: Vec<u64>,
    /// Whether the value is below zero.
    pub negative: bool,
}

impl View for Integer {
    type V = int;

    /// The integer that is represented.
    open spec fn view(&self) -> int {
        if self.negative {
            -limbs::value(self.limbs@)
        } else {
            limbs::value(self.limbs@)
        }
    }
}

/// The absolute value of an integer.
pub open spec fn abs(x: int) -> int {
    if x < 0 {
        -x
    } else {
        x
    }
}

/// Quotient of division that rounds toward zero.
pub open spec fn quotient(a: int, b: int) -> int {
    if (a < 0) == (b < 0) {
        abs(a) / abs(b)
    } else {
        -(abs(a) / abs(b))
    }
}

/// Remainder of division that rounds toward zero: it has the dividend's sign.
pub open spec fn remainder(a: int, b: int) -> int {
    if a < 0 {
        -(abs(a) % abs(b))
    } else {
        abs(a) % abs(b)
    }
}

impl Integer {
    /// Number of limbs of the magnitude.
    pub open spec fn size(&self) -> nat {
        self.limbs@.len()
    }

    /// The representation invariant.
    pub open spec fn wf(&self) -> bool {
        &&& limbs::normalized(self.limbs@)
        &&& self.limbs@.len() == 0 ==> !self.negative
        &&& self.limbs@.len() <= limbs::limb_limit()
    }

    /// Zero.
    pub fn new() -> (r: Self)
        ensures
            r.wf(),
            r@ == 0,
            r.size() == 0,
    {
        Integer { limbs: Vec::new(), negative: false }
    }

    /// Whether the value is zero.
    pub fn is_zero(&self) -> (r: bool)
        requires
            self.wf(),
        ensures
            r == (self@ == 0),
            r == (self.size() == 0),
    {
        proof {
            lemma_zero(*self);
        }
        self.limbs.len() == 0
    }

    /// Replace `self` with `other`.
    pub fn assign(&mut self, other: Integer)
        ensures
            *final(self) == other,
    {
        *self = other;
    }

    /// The number with the given magnitude and sign.
    pub fn from_parts(limbs: Vec<u64>, negative: bool) -> (r: Integer)
        requires
            limbs::normalized(limbs@),
            limbs@.len() <= limbs::limb_limit(),
        ensures
            r.wf(),
            r.limbs@ == limbs@,
            r@ == if negative {
                -limbs::value(limbs@)
            } else {
                limbs::value(limbs@)
            },
    {
        let empty: bool = limbs.len() == 0;
        Integer { limbs, negative: negative && !empty }
    }
}

/// Zero is exactly the empty magnitude.
pub proof fn lemma_zero(a: Integer)
    requires
        a.wf(),
    ensures
        (a@ == 0) == (a.size() == 0),
        a.negative == (a@ < 0),
        abs(a@) == limbs::value(a.limbs@),
{
    limbs::lemma_limbs_bound(a.limbs@);
    if a.limbs@.len() > 0 {
        limbs::lemma_value_lower(a.limbs@);
    }
}

/// Two numbers with one value have one representation.
pub proof fn lemma_unique(a: Integer, b: Integer)
    requires
        a.wf(),
        b.wf(),
        a@ == b@,
    ensures
        a.limbs@ == b.limbs@,
        a.negative == b.negative,
{
    lemma_zero(a);
    lemma_zero(b);
    limbs::lemma_normalized_unique(a.limbs@, b.limbs@);
}

/// A value below the weight of limb `k` takes at most `k` limbs.
pub proof fn lemma_size(a: Integer, k: nat)
    requires
        a.wf(),
        abs(a@) < limbs::weight(k),
    ensures
        a.size() <= k,
{
    lemma_zero(a);
    if a.size() > k {
        limbs::lemma_value_lower(a.limbs@);
        limbs::lemma_weight_monotone(k, (a.limbs@.len() - 1) as nat);
    }
}

/// A value is below the weight of its size.
pub proof fn lemma_size_bound(a: Integer)
    requires
        a.wf(),
    ensures
        abs(a@) < limbs::weight(a.size()),
{
    lemma_zero(a);
    limbs::lemma_limbs_bound(a.limbs@);
}

impl Clone for Integer {
    fn clone(&self) -> (r: Self)
        ensures
            r.limbs@ == self.limbs@,
            r.negative == self.negative,
            r@ == self@,
    {
        Integer { limbs: copy_limbs(&self.limbs), negative: self.negative }
    }
}

impl Default for Integer {
    fn default() -> (r: Self)
        ensures
            r.wf(),
            r@ == 0,
    {
        Integer::new()
    }
}

impl PartialEq for Integer {
    fn eq(&self, other: &Self) -> (r: bool) {
        self.negative == other.negative && same_limbs(&self.limbs, &other.limbs)
    }
}

impl vstd::std_specs::cmp::PartialEqSpecImpl for Integer {
    open spec fn obeys_eq_spec() -> bool {
        true
    }

    open spec fn eq_spec(&self, other: &Self) -> bool {
        self.negative == other.negative && self.limbs@ == other.limbs@
    }
}

impl Eq for Integer {

}

/// `a * b`.
pub fn mul_signed(a: &Integer, b: &Integer) -> (r: Integer)
    requires
        a.wf(),
        b.wf(),
        a.size() + b.size() <= limbs::limb_limit(),
    ensures
        r.wf(),
        r@ == a@ * b@,
        r.size() <= a.size() + b.size(),
{
    proof {
        limbs::lemma_limb_limit();
    }
    let limbs: Vec<u64> = mul_mag(&a.limbs, &b.limbs);
    proof {
        let x = limbs::value(a.limbs@);
        let y = limbs::value(b.limbs@);
        assert(x * (-y) == -(x * y)) by (nonlinear_arith);
        assert((-x) * y == -(x * y)) by (nonlinear_arith);
        assert((-x) * (-y) == x * y) by (nonlinear_arith);
    }
    Integer::from_parts(limbs, a.negative != b.negative)
}

/// `a + b`.
pub fn add_signed(a: &Integer, b: &Integer) -> (r: Integer)
    requires
        a.wf(),
        b.wf(),
        a.size() < limbs::limb_limit(),
        b.size() < limbs::limb_limit(),
    ensures
        r.wf(),
        r@ == a@ + b@,
        r.size() <= a.size() + 1 || r.size() <= b.size() + 1,
{
    proof {
        limbs::lemma_limb_limit();
        lemma_zero(*a);
        lemma_zero(*b);
    }
    if a.negative == b.negative {
        Integer::from_parts(add_mag(&a.limbs, &b.limbs), a.negative)
    } else {
        match cmp_mag(&a.limbs, &b.limbs) {
            Ordering::Equal => Integer::new(),
            Ordering::Greater => Integer::from_parts(sub_mag(&a.limbs, &b.limbs), a.negative),
            Ordering::Less => Integer::from_parts(sub_mag(&b.limbs, &a.limbs), b.negative),
        }
    }
}

/// `-a`.
pub fn neg_signed(a: &Integer) -> (r: Integer)
    requires
        a.wf(),
    ensures
        r.wf(),
        r@ == -a@,
        r.limbs@ == a.limbs@,
{
    Integer::from_parts(copy_limbs(&a.limbs), !a.negative)
}

/// `a - b`.
pub fn sub_signed(a: &Integer, b: &Integer) -> (r: Integer)
    requires
        a.wf(),
        b.wf(),
        a.size() < limbs::limb_limit(),
        b.size() < limbs::limb_limit(),
    ensures
        r.wf(),
        r@ == a@ - b@,
        r.size() <= a.size() + 1 || r.size() <= b.size() + 1,
{
    let neg_b: Integer = neg_signed(b);
    add_signed(a, &neg_b)
}

/// `a * 2^bits`.
pub fn shl_signed(a: &Integer, bits: u32) -> (r: Integer)
    requires
        a.wf(),
        a.size() + bits / 64 + 1 <= limbs::limb_limit(),
    ensures
        r.wf(),
        r@ == a@ * pow2(bits as nat),
        r.size() <= a.size() + bits / 64 + 1,
{
    proof {
        limbs::lemma_limb_limit();
    }
    let limbs: Vec<u64> = shl_mag(&a.limbs, bits as u64);
    proof {
        let x = limbs::value(a.limbs@);
        let p = pow2(bits as nat) as int;
        assert((-x) * p == -(x * p)) by (nonlinear_arith);
    }
    Integer::from_parts(limbs, a.negative)
}

/// Sizes of the parts of a division.
pub proof fn lemma_division_sizes(a: Seq<u64>, b: Seq<u64>, q: Seq<u64>, r: Seq<u64>)
    requires
        limbs::normalized(q),
        limbs::normalized(r),
        limbs::value(b) > 0,
        limbs::value(q) == limbs::value(a) / limbs::value(b),
        limbs::value(r) == limbs::value(a) % limbs::value(b),
    ensures
        q.len() <= a.len(),
        r.len() <= b.len(),
{
    limbs::lemma_limbs_bound(a);
    limbs::lemma_limbs_bound(b);
    lemma_mod_bound(limbs::value(a), limbs::value(b));
    lemma_div_is_ordered_by_denominator(limbs::value(a), 1, limbs::value(b));
    assert(limbs::value(a) / 1 == limbs::value(a));
    if q.len() > a.len() {
        limbs::lemma_value_lower(q);
        limbs::lemma_weight_monotone(a.len(), (q.len() - 1) as nat);
    }
    if r.len() > b.len() {
        limbs::lemma_value_lower(r);
        limbs::lemma_weight_monotone(b.len(), (r.len() - 1) as nat);
    }
}

/// Quotient and remainder of the magnitudes of two numbers.
fn div_rem_parts(a: &Integer, b: &Integer) -> (r: (Vec<u64>, Vec<u64>))
    requires
        a.wf(),
        b.wf(),
        b@ != 0,
    ensures
        limbs::value(r.0@) == abs(a@) / abs(b@),
        limbs::value(r.1@) == abs(a@) % abs(b@),
        limbs::normalized(r.0@),
        limbs::normalized(r.1@),
        r.0@.len() <= a.size(),
        r.1@.len() <= b.size(),
{
    proof {
        limbs::lemma_limb_limit();
        lemma_zero(*a);
        lemma_zero(*b);
        limbs::lemma_limbs_bound(b.limbs@);
    }
    let parts: (Vec<u64>, Vec<u64>) = div_rem_mag(&a.limbs, &b.limbs);
    proof {
        lemma_division_sizes(a.limbs@, b.limbs@, parts.0@, parts.1@);
    }
    parts
}

/// `a / b`, rounded toward zero.
pub fn div_signed(a: &Integer, b: &Integer) -> (r: Integer)
    requires
        a.wf(),
        b.wf(),
        b@ != 0,
    ensures
        r.wf(),
        r@ == quotient(a@, b@),
        r.size() <= a.size(),
{
    let (q, rem) = div_rem_parts(a, b);
    proof {
        lemma_zero(*a);
        lemma_zero(*b);
        if a@ == 0 {
            lemma_basic_div(0, abs(b@));
        }
    }
    Integer::from_parts(q, a.negative != b.negative)
}

/// The remainder of `a / b`, with the sign of `a`.
pub fn rem_signed(a: &Integer, b: &Integer) -> (r: Integer)
    requires
        a.wf(),
        b.wf(),
        b@ != 0,
    ensures
        r.wf(),
        r@ == remainder(a@, b@),
        r.size() <= b.size(),
{
    let (q, rem) = div_rem_parts(a, b);
    proof {
        lemma_zero(*a);
        lemma_zero(*b);
    }
    Integer::from_parts(rem, a.negative)
}

/// Quotient and remainder of a magnitude by one limb.
pub fn div_rem_small(a: &Integer, d: u64) -> (r: (Integer, u64))
    requires
        a.wf(),
        d > 0,
    ensures
        r.0.wf(),
        r.0@ == abs(a@) / (d as int),
        r.1 as int == abs(a@) % (d as int),
        r.0.size() <= a.size(),
{
    proof {
        lemma_zero(*a);
    }
    let (q, rem) = div_rem_limb(&a.limbs, d);
    (Integer::from_parts(q, false), rem)
}

/// Division laws: quotient and remainder rebuild the dividend, the remainder is
/// smaller than the divisor and takes the dividend's sign.
pub proof fn law_division(a: int, b: int)
    requires
        b != 0,
    ensures
        quotient(a, b) * b + remainder(a, b) == a,
        abs(remainder(a, b)) < abs(b),
        remainder(a, b) != 0 ==> (remainder(a, b) < 0) == (a < 0),
{
    let x = abs(a);
    let y = abs(b);
    lemma_fundamental_div_mod(x, y);
    lemma_mod_bound(x, y);
    let q = x / y;
    lemma_mul_is_commutative(y, q);
    assert((-q) * y == -(q * y)) by (nonlinear_arith);
    assert(q * (-y) == -(q * y)) by (nonlinear_arith);
    assert((-q) * (-y) == q * y) by (nonlinear_arith);
}

impl Integer {
    /// Bit length of the absolute value, zero for zero.
    pub fn bits(&self) -> (r: u64)
        ensures
            self.wf() ==> r == bitlen::bit_len(abs(self@)),
            self.wf() ==> r <= 64 * self.size(),
    {
        let n: usize = self.limbs.len();
        proof {
            limbs::lemma_limb_limit();
            if self.wf() {
                lemma_zero(*self);
            }
        }
        if n == 0 {
            return 0;
        }
        let top: u64 = self.limbs[n - 1];
        let z: u32 = top.leading_zeros();
        proof {
            if self.wf() {
                self.lemma_bits(z);
            }
        }
        ((n - 1) as u64).wrapping_mul(64).wrapping_add((64 - z) as u64)
    }

    /// The bit length from the zeros at the head of the last limb.
    proof fn lemma_bits(&self, z: u32)
        requires
            self.wf(),
            self.limbs@.len() > 0,
            z == vstd::std_specs::bits::u64_leading_zeros(self.limbs@.last()),
        ensures
            z < 64,
            bitlen::bit_len(abs(self@)) == 64 * (self.limbs@.len() - 1) + 64 - z,
    {
        lemma_zero(*self);
        limbs::lemma_limb_limit();
        let n = self.limbs@.len();
        let top = self.limbs@.last();
        divide::lemma_leading_zeros(top);
        let s = self.limbs@;
        let k: nat = (n - 1) as nat;
        limbs::lemma_value_take_next(s, k as int, limbs::base());
        assert(s.take(n as int) =~= s);
        limbs::lemma_limbs_bound(s.take(k as int));
        limbs::lemma_weight_pow2(k);
        let w = limbs::weight(k);
        lemma_pow2_adds((63 - z) as nat, 64 * k);
        lemma_pow2_adds((64 - z) as nat, 64 * k);
        let lo = pow2((63 - z) as nat) as int;
        let hi = pow2((64 - z) as nat) as int;
        let x = top as int;
        let rest = limbs::value(s.take(k as int));
        assert(lo * w <= x * w + rest < hi * w) by (nonlinear_arith)
            requires
                lo <= x,
                x + 1 <= hi,
                0 <= rest < w,
        ;
        let bits: nat = (64 * k + 64 - z) as nat;
        assert((63 - z) as nat + 64 * k == (bits - 1) as nat);
        assert((64 - z) as nat + 64 * k == bits);
        bitlen::lemma_bit_len_unique(limbs::value(s), bits);
    }
}

/// Powers are bounded by the powers of a bound.
proof fn lemma_power_bound(x: int, k: nat, e: nat)
    requires
        abs(x) <= pow2(k),
    ensures
        abs(pow(x, e)) <= pow2(k * e),
    decreases e,
{
    reveal(pow);
    if e == 0 {
        lemma2_to64();
    } else {
        let e1: nat = (e - 1) as nat;
        lemma_power_bound(x, k, e1);
        let y = pow(x, e1);
        assert(k * e == k + k * e1) by (nonlinear_arith)
            requires
                e == e1 + 1,
        ;
        lemma_pow2_adds(k, k * e1);
        let a = pow2(k) as int;
        let b = pow2(k * e1) as int;
        assert(x * y <= a * b && -(x * y) <= a * b) by (nonlinear_arith)
            requires
                -a <= x <= a,
                -b <= y <= b,
        ;
    }
}

/// A value of at most `2^b` takes at most `b / 64 + 1` limbs.
pub proof fn lemma_size_from_bits(a: Integer, b: nat)
    requires
        a.wf(),
        abs(a@) <= pow2(b),
    ensures
        a.size() <= b / 64 + 1,
{
    let k: nat = b / 64 + 1;
    limbs::lemma_weight_pow2(k);
    lemma_pow2_strictly_increases(b, 64 * k);
    lemma_size(a, k);
}

/// `base^exp` by repeated squaring, for `|base| <= 2^k`.
fn power_loop(base: &Integer, exp: u32, Ghost(k): Ghost<nat>) -> (r: Integer)
    requires
        base.wf(),
        abs(base@) <= pow2(k),
        (k * exp) / 64 + 2 <= limbs::limb_limit(),
    ensures
        r.wf(),
        r@ == pow(base@, exp as nat),
        r.size() <= (k * exp) / 64 + 1,
{
    let mut result: Integer = Integer::from(1u64);
    let mut b: Integer = base.clone();
    let mut e: u32 = exp;
    let ghost mut done: nat = 0;
    let ghost mut step: nat = 1;
    proof {
        lemma_pow0(base@);
        lemma_pow1(base@);
    }
    while e > 0
        invariant
            result.wf(),
            b.wf(),
            abs(base@) <= pow2(k),
            (k * exp) / 64 + 2 <= limbs::limb_limit(),
            step >= 1,
            result@ == pow(base@, done),
            e > 0 ==> b@ == pow(base@, step),
            done + step * e == exp,
        decreases e,
    {
        let bit: u32 = e % 2;
        let half: u32 = e / 2;
        proof {
            lemma_power_bound(base@, k, done);
            lemma_power_bound(base@, k, step);
            lemma_size_from_bits(result, k * done);
            lemma_size_from_bits(b, k * step);
            assert(step * e == step * bit + 2 * step * half) by (nonlinear_arith)
                requires
                    e == bit + 2 * half,
            ;
            assert(step * e >= step) by (nonlinear_arith)
                requires
                    e >= 1,
            ;
            assert(k * done + k * step <= k * exp) by (nonlinear_arith)
                requires
                    done + step <= exp,
            ;
            if half > 0 {
                assert(2 * step * half >= 2 * step) by (nonlinear_arith)
                    requires
                        half >= 1,
                ;
                assert(k * step + k * step <= k * exp) by (nonlinear_arith)
                    requires
                        step + step <= exp,
                ;
            }
        }
        if bit == 1 {
            result = mul_signed(&result, &b);
            proof {
                lemma_pow_adds(base@, done, step);
                done = done + step;
            }
        }
        e = half;
        if e > 0 {
            b = mul_signed(&b, &b);
            proof {
                lemma_pow_adds(base@, step, step);
            }
        }
        proof {
            step = step + step;
            assert(2 * step * half == (step + step) * half) by (nonlinear_arith);
            assert(done + step * e == exp) by (nonlinear_arith)
                requires
                    exp == (done - if bit == 1 { (step / 2) as int } else { 0int }) + (step / 2) * bit + step * half,
                    e == half,
                    bit == 0 || bit == 1,
            ;
        }
    }
    proof {
        assert(step * 0 == 0);
        lemma_power_bound(base@, k, exp as nat);
        lemma_size_from_bits(result, k * (exp as nat));
    }
    result
}

impl Integer {
    /// `base^exp`, by repeated squaring.
    pub fn u_pow_u(base: u32, exp: u32) -> (r: Integer)
        requires
            exp / 2 + 2 <= limbs::limb_limit() || base <= 16 && exp / 16 + 2 <= limbs::limb_limit(),
        ensures
            r.wf(),
            r@ == pow(base as int, exp as nat),
    {
        let b: Integer = Integer::from(base);
        proof {
            lemma2_to64();
        }
        if base <= 16 {
            power_loop(&b, exp, Ghost(4))
        } else {
            power_loop(&b, exp, Ghost(32))
        }
    }

    /// `self^exp`, by repeated squaring.
    pub fn pow_u32(&self, exp: u32) -> (r: Integer)
        requires
            self.wf(),
            self.size() * exp + 2 <= limbs::limb_limit(),
        ensures
            r.wf(),
            r@ == pow(self@, exp as nat),
    {
        proof {
            lemma_size_bound(*self);
            limbs::lemma_weight_pow2(self.size());
            assert((64 * self.size()) * exp == 64 * (self.size() * exp)) by (nonlinear_arith);
        }
        power_loop(self, exp, Ghost(64 * self.size()))
    }
}

impl From<u64> for Integer {
    fn from(v: u64) -> (r: Self)
        ensures
            r.wf(),
            r@ == v,
            r.size() <= 1,
            r.size() == 0 <==> v == 0,
    {
        let mut limbs: Vec<u64> = Vec::new();
        if v != 0 {
            proof {
                limbs::lemma_value_push(limbs@, v, limbs::base());
                limbs::lemma_weight_step(0);
            }
            limbs.push(v);
        }
        Integer::from_parts(limbs, false)
    }
}

impl vstd::std_specs::convert::FromSpecImpl<u64> for Integer {
    open spec fn obeys_from_spec() -> bool {
        false
    }

    open spec fn from_spec(v: u64) -> Self {
        arbitrary()
    }
}

impl From<u32> for Integer {
    fn from(v: u32) -> (r: Self)
        ensures
            r.wf(),
            r@ == v,
            r.size() <= 1,
    {
        Integer::from(v as u64)
    }
}

impl vstd::std_specs::convert::FromSpecImpl<u32> for Integer {
    open spec fn obeys_from_spec() -> bool {
        false
    }

    open spec fn from_spec(v: u32) -> Self {
        arbitrary()
    }
}

impl From<i64> for Integer {
    fn from(v: i64) -> (r: Self)
        ensures
            r.wf(),
            r@ == v,
            r.size() <= 1,
    {
        let magnitude: u64 = if v < 0 { (-(v as i128)) as u64 } else { v as u64 };
        let r: Integer = Integer::from(magnitude);
        proof {
            lemma_zero(r);
        }
        Integer::from_parts(r.limbs, v < 0)
    }
}

impl vstd::std_specs::convert::FromSpecImpl<i64> for Integer {
    open spec fn obeys_from_spec() -> bool {
        false
    }

    open spec fn from_spec(v: i64) -> Self {
        arbitrary()
    }
}

impl From<i32> for Integer {
    fn from(v: i32) -> (r: Self)
        ensures
            r.wf(),
            r@ == v,
            r.size() <= 1,
    {
        Integer::from(v as i64)
    }
}

impl vstd::std_specs::convert::FromSpecImpl<i32> for Integer {
    open spec fn obeys_from_spec() -> bool {
        false
    }

    open spec fn from_spec(v: i32) -> Self {
        arbitrary()
    }
}

impl From<usize> for Integer {
    fn from(v: usize) -> (r: Self)
        ensures
            r.wf(),
            r@ == v,
            r.size() <= 1,
    {
        Integer::from(v as u64)
    }
}

impl vstd::std_specs::convert::FromSpecImpl<usize> for Integer {
    open spec fn obeys_from_spec() -> bool {
        false
    }

    open spec fn from_spec(v: usize) -> Self {
        arbitrary()
    }
}

/// `a` and `b` have the same limbs and the same sign.
pub open spec fn same(a: Integer, b: Integer) -> bool {
    a.limbs@ == b.limbs@ && a.negative == b.negative
}

/// Sums do not depend on the order, subtracting takes back what was added, and a
/// sum of zero is the one zero: no limbs, and no sign.
pub proof fn law_sums(a: Integer, b: Integer, sum: Integer, swapped: Integer, back: Integer)
    requires
        a.wf(),
        b.wf(),
        sum.wf() && sum@ == a@ + b@,
        swapped.wf() && swapped@ == b@ + a@,
        back.wf() && back@ == sum@ - b@,
    ensures
        same(sum, swapped),
        same(back, a),
        a@ == -b@ ==> sum.limbs@.len() == 0 && !sum.negative,
{
    lemma_unique(sum, swapped);
    lemma_unique(back, a);
    lemma_zero(sum);
}

/// The sign of a power.
proof fn lemma_power_sign(x: int, n: nat)
    ensures
        pow(x, n) < 0 <==> x < 0 && n % 2 == 1,
        x != 0 ==> pow(x, n) != 0,
    decreases n,
{
    if n == 0 {
        lemma_pow0(x);
    } else {
        let m = (n - 1) as nat;
        lemma_power_sign(x, m);
        lemma_pow_adds(x, 1, m);
        lemma_pow1(x);
        let p = pow(x, m);
        assert(x == 0 ==> x * p == 0) by (nonlinear_arith);
        assert(x > 0 && p > 0 ==> x * p > 0) by (nonlinear_arith);
        assert(x < 0 && p > 0 ==> x * p < 0) by (nonlinear_arith);
        assert(x < 0 && p < 0 ==> x * p > 0) by (nonlinear_arith);
    }
}

/// Powers multiply by adding exponents; the first power is the number, and the
/// power of exponent zero is one, also of zero.  A power is negative exactly
/// where the number is and the exponent is odd.
pub proof fn law_powers(x: Integer, m: nat, n: nat, p: Integer, q: Integer, product: Integer, r: Integer)
    requires
        x.wf(),
        p.wf() && p@ == pow(x@, m),
        q.wf() && q@ == pow(x@, n),
        product.wf() && product@ == p@ * q@,
        r.wf() && r@ == pow(x@, m + n),
    ensures
        same(r, product),
        m == 0 ==> p@ == 1,
        m == 1 ==> same(p, x),
        p.negative == (x.negative && m % 2 == 1),
{
    lemma_pow_adds(x@, m, n);
    lemma_unique(r, product);
    lemma_pow0(x@);
    lemma_pow1(x@);
    if m == 1 {
        lemma_unique(p, x);
    }
    lemma_power_sign(x@, m);
    lemma_zero(p);
    lemma_zero(x);
}

/// An integer is the value of its limbs with its sign: zero has no limbs and no
/// sign, and only a negative number has the sign.
pub proof fn law_integer(n: Integer)
    requires
        n.wf(),
    ensures
        n.negative <==> n@ < 0,
        n.negative ==> n@ == -limbs::value(n.limbs@),
        !n.negative ==> n@ == limbs::value(n.limbs@),
        n@ == 0 <==> n.limbs@.len() == 0,
        n@ == 0 <==> n.size() == 0,
{
    limbs::law_limbs(n.limbs@);
    limbs::lemma_limbs_bound(n.limbs@);
    if n.limbs@.len() > 0 {
        lemma_pow_positive(18_446_744_073_709_551_616, (n.limbs@.len() - 1) as nat);
    }
}

/// The absolute value is the number or its opposite, and not negative.
pub proof fn law_abs(x: int)
    ensures
        abs(x) >= 0,
        abs(x) == x || abs(x) == -x,
{
}

/// Truncated division of the absolute values, with the signs of the two numbers.
pub proof fn law_signs(a: int, b: int)
    requires
        a >= 0,
        b > 0,
    ensures
        quotient(a, b) == a / b,
        quotient(-a, b) == -(a / b),
        quotient(a, -b) == -(a / b),
        quotient(-a, -b) == a / b,
        remainder(a, b) == a % b,
        remainder(-a, b) == -(a % b),
        remainder(a, -b) == a % b,
        remainder(-a, -b) == -(a % b),
{
    lemma_div_basics(b);
    lemma_small_mod(0, b as nat);
}

/// Two integers are equal where their values are.
pub proof fn law_equal(a: Integer, b: Integer)
    requires
        a.wf(),
        b.wf(),
    ensures
        vstd::std_specs::cmp::PartialEqSpec::eq_spec(&a, &b) <==> a@ == b@,
        same(a, b) <==> a@ == b@,
{
    law_integer(a);
    law_integer(b);
    if a@ == b@ {
        limbs::lemma_normalized_unique(a.limbs@, b.limbs@);
    }
}

} // verus!
