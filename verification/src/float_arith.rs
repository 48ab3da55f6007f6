//! The arithmetic operators of floating-point numbers.
//!
//! Two floats are combined at the larger of their precisions; a float and an
//! integer at the precision of the float.
use crate::bitlen;
use crate::float;
use crate::float::Float;
use crate::float_ops;
use crate::float_ops::ToFloat;
use crate::integer;
use crate::integer::Integer;
use crate::limbs;
use crate::newton;
use crate::operators::{Assign, PowAssign};
use crate::reals;
use core::ops::{Add, AddAssign, Div, DivAssign, Mul, MulAssign, Sub, SubAssign};
use vstd::arithmetic::power2::*;
use vstd::prelude::*;
use vstd::std_specs::ops::{AddSpecImpl, DivSpecImpl, MulSpecImpl, SubSpecImpl};

verus! {

/// Sign, mantissa and exponent of a number.
pub struct Parts {
    pub sign: bool,
    pub mantissa: int,
    pub exp: int,
    /// Limbs of the mantissa.
    pub size: nat,
}

/// The parts of a float.
pub open spec fn parts(f: Float) -> Parts {
    Parts { sign: f.sign, mantissa: f.mantissa@, exp: f.exp as int, size: f.size() }
}

/// The parts of an integer.
pub open spec fn integer_parts(n: Integer) -> Parts {
    Parts { sign: n@ < 0, mantissa: integer::abs(n@), exp: 0, size: n.size() }
}

/// The parts of a machine integer.
pub open spec fn small_parts(n: int) -> Parts {
    Parts { sign: false, mantissa: n, exp: 0, size: 1 }
}

impl Parts {
    /// The number.
    pub open spec fn val(self) -> real {
        float::scaled(self.sign, self.mantissa, self.exp)
    }

    /// The number, in units of `2^e`.
    pub open spec fn aligned(self, e: int) -> int {
        let m = self.mantissa * pow2((self.exp - e) as nat);
        if self.sign {
            -m
        } else {
            m
        }
    }

    /// The number with the other sign.
    pub open spec fn negated(self) -> Parts {
        Parts { sign: !self.sign, ..self }
    }
}

/// Whether the sum of two numbers fits this machine.
pub open spec fn sum_fits(a: Parts, b: Parts) -> bool {
    let e = float::imin(a.exp, b.exp);
    &&& a.size + (a.exp - e) / 64 + 3 <= limbs::limb_limit()
    &&& b.size + (b.exp - e) / 64 + 3 <= limbs::limb_limit()
    &&& float::exp_ok(a.exp + 64 * a.size + 256)
    &&& float::exp_ok(b.exp + 64 * b.size + 256)
}

/// Whether the product of two numbers fits this machine.
pub open spec fn product_fits(a: Parts, b: Parts) -> bool {
    &&& a.size + b.size <= limbs::limb_limit()
    &&& float::exp_ok(a.exp + b.exp)
    &&& float::exp_ok(a.exp + b.exp + 64 * (a.size + b.size) + 1)
}

/// Whether the quotient of two numbers fits this machine.
pub open spec fn quotient_fits(a: Parts, b: Parts, prec: u64) -> bool {
    &&& b.mantissa != 0
    &&& -0x0b00_0000_0000_0000 <= a.exp <= 0x0b00_0000_0000_0000
    &&& -0x0b00_0000_0000_0000 <= b.exp <= 0x0b00_0000_0000_0000
    &&& a.size + prec / 16 + 80 <= limbs::limb_limit()
}

/// `r` is `a + b`, rounded to `prec` bits.
pub open spec fn is_sum(a: Parts, b: Parts, prec: u64, r: Float) -> bool {
    if a.mantissa == 0 {
        r.is_rounded(prec as nat, b.sign, b.mantissa, b.exp)
    } else if b.mantissa == 0 {
        r.is_rounded(prec as nat, a.sign, a.mantissa, a.exp)
    } else {
        let e = float::imin(a.exp, b.exp);
        let sum = a.aligned(e) + b.aligned(e);
        r.is_rounded(prec as nat, sum < 0, integer::abs(sum), e)
    }
}

/// `r` is `a - b`, rounded to `prec` bits.
pub open spec fn is_difference(a: Parts, b: Parts, prec: u64, r: Float) -> bool {
    is_sum(a, b.negated(), prec, r)
}

/// `r` is `a * b`, rounded to `prec` bits.
pub open spec fn is_product(a: Parts, b: Parts, prec: u64, r: Float) -> bool {
    r.is_rounded(prec as nat, a.sign != b.sign, a.mantissa * b.mantissa, a.exp + b.exp)
}

/// `r` is `a / b` to `prec` bits, up to one unit in the last place: a number very
/// close to the quotient, rounded.
pub open spec fn is_quotient(a: Parts, b: Parts, prec: u64, r: Float) -> bool {
    &&& r.wf()
    &&& r.prec == prec
    &&& reals::rabs(r.val() * b.val() - a.val()) <= reals::rabs(a.val()) * reals::rpow2(1 - prec)
    &&& newton::rounds_quotient(r, a.val(), b.val(), a.sign != b.sign, prec as nat)
}

/// The larger of two precisions.
pub open spec fn wider(a: Float, b: Float) -> u64 {
    if a.prec >= b.prec {
        a.prec
    } else {
        b.prec
    }
}

fn larger(a: u64, b: u64) -> (r: u64)
    ensures
        r == if a >= b { a } else { b },
{
    if a >= b {
        a
    } else {
        b
    }
}

/// An integer as a float, without rounding.
fn from_integer(n: &Integer) -> (f: Float)
    requires
        n.wf(),
    ensures
        f.wf(),
        parts(f).size == n.size(),
        parts(f).mantissa == integer::abs(n@),
        parts(f).sign == (n@ < 0),
        parts(f).exp == 0,
{
    proof {
        limbs::lemma_limb_limit();
        integer::lemma_zero(*n);
    }
    let bits: u64 = n.bits();
    let copy: Integer = Clone::clone(n);
    Float {
        prec: larger(bits, 64),
        sign: n.negative,
        mantissa: Integer::from_parts(copy.limbs, false),
        exp: 0,
    }
}

/// A machine integer as a float.
fn from_small(n: u32) -> (f: Float)
    ensures
        f.wf(),
        f.size() <= 1,
        f.mantissa@ == n,
        !f.sign,
        f.exp == 0,
{
    let m: Integer = Integer::from(n);
    proof {
        lemma2_to64();
        bitlen::lemma_bit_len_at_most(n as int, 64);
    }
    Float { prec: 64, sign: false, mantissa: m, exp: 0 }
}

impl PartialEq for Float {
    fn eq(&self, other: &Self) -> (r: bool) {
        if self.mantissa.limbs.len() == 0 && other.mantissa.limbs.len() == 0 {
            return true;
        }
        self.sign == other.sign && self.mantissa == other.mantissa && self.exp == other.exp
    }
}

impl vstd::std_specs::cmp::PartialEqSpecImpl for Float {
    open spec fn obeys_eq_spec() -> bool {
        true
    }

    open spec fn eq_spec(&self, other: &Self) -> bool {
        ||| self.mantissa.limbs@.len() == 0 && other.mantissa.limbs@.len() == 0
        ||| self.sign == other.sign && self.mantissa.negative == other.mantissa.negative
            && self.mantissa.limbs@ == other.mantissa.limbs@ && self.exp == other.exp
    }
}

impl Eq for Float {

}

impl<'a> PowAssign<&'a Integer> for Float {
    open spec fn pow_assign_fits(&self, rhs: &'a Integer) -> bool {
        &&& self.wf()
        &&& rhs.wf()
        &&& rhs@ >= 0
        &&& self.prec / 16 + 64 <= limbs::limb_limit()
        &&& rhs@ * (integer::abs(self.top()) + 3) <= 0x0a00_0000_0000_0000
    }

    open spec fn is_assigned_power(&self, rhs: &'a Integer, r: Float) -> bool {
        float_ops::is_power(*self, rhs@ as nat, r)
    }

    fn pow_assign(&mut self, rhs: &'a Integer) {
        self.pow_assign_integer(rhs);
    }
}

impl Assign<Float> for Float {
    open spec fn assignable(&self, src: Float) -> bool {
        src.wf() && float::exp_ok(src.exp + 64 * src.size() + 1)
    }

    open spec fn is_assigned(&self, src: Float, r: Float) -> bool {
        r.is_rounded(self.prec as nat, src.sign, src.mantissa@, src.exp as int)
    }

    fn assign(&mut self, src: Float) {
        Float::assign(self, src);
    }
}

impl<'a> Assign<&'a Float> for Float {
    open spec fn assignable(&self, src: &'a Float) -> bool {
        src.wf() && float::exp_ok(src.exp + 64 * src.size() + 1)
    }

    open spec fn is_assigned(&self, src: &'a Float, r: Float) -> bool {
        r.is_rounded(self.prec as nat, src.sign, src.mantissa@, src.exp as int)
    }

    fn assign(&mut self, src: &'a Float) {
        Float::assign(self, src);
    }
}

impl Add<Float> for Float {
    type Output = Float;

    fn add(self, rhs: Float) -> (r: Float)
        ensures
            is_sum(parts(self), parts(rhs), wider(self, rhs), r),
    {
        self.add_at_prec(&rhs, larger(self.prec, rhs.prec))
    }
}

impl AddSpecImpl<Float> for Float {
    open spec fn obeys_add_spec() -> bool {
        false
    }

    open spec fn add_req(self, rhs: Float) -> bool {
        self.wf() && rhs.wf() && sum_fits(parts(self), parts(rhs))
    }

    open spec fn add_spec(self, rhs: Float) -> Float {
        arbitrary()
    }
}

impl<'a> Add<&'a Float> for Float {
    type Output = Float;

    fn add(self, rhs: &'a Float) -> (r: Float)
        ensures
            is_sum(parts(self), parts(*rhs), wider(self, *rhs), r),
    {
        self.add_at_prec(rhs, larger(self.prec, rhs.prec))
    }
}

impl<'a> AddSpecImpl<&'a Float> for Float {
    open spec fn obeys_add_spec() -> bool {
        false
    }

    open spec fn add_req(self, rhs: &'a Float) -> bool {
        self.wf() && rhs.wf() && sum_fits(parts(self), parts(*rhs))
    }

    open spec fn add_spec(self, rhs: &'a Float) -> Float {
        arbitrary()
    }
}

impl<'a> Add<Float> for &'a Float {
    type Output = Float;

    fn add(self, rhs: Float) -> (r: Float)
        ensures
            is_sum(parts(*self), parts(rhs), wider(*self, rhs), r),
    {
        self.add_at_prec(&rhs, larger(self.prec, rhs.prec))
    }
}

impl<'a> AddSpecImpl<Float> for &'a Float {
    open spec fn obeys_add_spec() -> bool {
        false
    }

    open spec fn add_req(self, rhs: Float) -> bool {
        self.wf() && rhs.wf() && sum_fits(parts(*self), parts(rhs))
    }

    open spec fn add_spec(self, rhs: Float) -> Float {
        arbitrary()
    }
}

impl<'a, 'b> Add<&'b Float> for &'a Float {
    type Output = Float;

    fn add(self, rhs: &'b Float) -> (r: Float)
        ensures
            is_sum(parts(*self), parts(*rhs), wider(*self, *rhs), r),
    {
        self.add_at_prec(rhs, larger(self.prec, rhs.prec))
    }
}

impl<'a, 'b> AddSpecImpl<&'b Float> for &'a Float {
    open spec fn obeys_add_spec() -> bool {
        false
    }

    open spec fn add_req(self, rhs: &'b Float) -> bool {
        self.wf() && rhs.wf() && sum_fits(parts(*self), parts(*rhs))
    }

    open spec fn add_spec(self, rhs: &'b Float) -> Float {
        arbitrary()
    }
}

impl Add<Integer> for Float {
    type Output = Float;

    fn add(self, rhs: Integer) -> (r: Float)
        ensures
            is_sum(parts(self), integer_parts(rhs), self.prec, r),
    {
        let other: Float = from_integer(&rhs);
        self.add_at_prec(&other, self.prec)
    }
}

impl AddSpecImpl<Integer> for Float {
    open spec fn obeys_add_spec() -> bool {
        false
    }

    open spec fn add_req(self, rhs: Integer) -> bool {
        self.wf() && rhs.wf() && sum_fits(parts(self), integer_parts(rhs))
    }

    open spec fn add_spec(self, rhs: Integer) -> Float {
        arbitrary()
    }
}

impl<'a> Add<&'a Integer> for Float {
    type Output = Float;

    fn add(self, rhs: &'a Integer) -> (r: Float)
        ensures
            is_sum(parts(self), integer_parts(*rhs), self.prec, r),
    {
        let other: Float = from_integer(rhs);
        self.add_at_prec(&other, self.prec)
    }
}

impl<'a> AddSpecImpl<&'a Integer> for Float {
    open spec fn obeys_add_spec() -> bool {
        false
    }

    open spec fn add_req(self, rhs: &'a Integer) -> bool {
        self.wf() && rhs.wf() && sum_fits(parts(self), integer_parts(*rhs))
    }

    open spec fn add_spec(self, rhs: &'a Integer) -> Float {
        arbitrary()
    }
}

impl<'a> Add<Integer> for &'a Float {
    type Output = Float;

    fn add(self, rhs: Integer) -> (r: Float)
        ensures
            is_sum(parts(*self), integer_parts(rhs), self.prec, r),
    {
        let other: Float = from_integer(&rhs);
        self.add_at_prec(&other, self.prec)
    }
}

impl<'a> AddSpecImpl<Integer> for &'a Float {
    open spec fn obeys_add_spec() -> bool {
        false
    }

    open spec fn add_req(self, rhs: Integer) -> bool {
        self.wf() && rhs.wf() && sum_fits(parts(*self), integer_parts(rhs))
    }

    open spec fn add_spec(self, rhs: Integer) -> Float {
        arbitrary()
    }
}

impl<'a, 'b> Add<&'b Integer> for &'a Float {
    type Output = Float;

    fn add(self, rhs: &'b Integer) -> (r: Float)
        ensures
            is_sum(parts(*self), integer_parts(*rhs), self.prec, r),
    {
        let other: Float = from_integer(rhs);
        self.add_at_prec(&other, self.prec)
    }
}

impl<'a, 'b> AddSpecImpl<&'b Integer> for &'a Float {
    open spec fn obeys_add_spec() -> bool {
        false
    }

    open spec fn add_req(self, rhs: &'b Integer) -> bool {
        self.wf() && rhs.wf() && sum_fits(parts(*self), integer_parts(*rhs))
    }

    open spec fn add_spec(self, rhs: &'b Integer) -> Float {
        arbitrary()
    }
}

impl Add<u32> for Float {
    type Output = Float;

    fn add(self, rhs: u32) -> (r: Float)
        ensures
            is_sum(parts(self), small_parts(rhs as int), self.prec, r),
    {
        let other: Float = from_small(rhs);
        self.add_at_prec(&other, self.prec)
    }
}

impl AddSpecImpl<u32> for Float {
    open spec fn obeys_add_spec() -> bool {
        false
    }

    open spec fn add_req(self, rhs: u32) -> bool {
        self.wf() && sum_fits(parts(self), small_parts(rhs as int))
    }

    open spec fn add_spec(self, rhs: u32) -> Float {
        arbitrary()
    }
}

impl<'a> Add<u32> for &'a Float {
    type Output = Float;

    fn add(self, rhs: u32) -> (r: Float)
        ensures
            is_sum(parts(*self), small_parts(rhs as int), self.prec, r),
    {
        let other: Float = from_small(rhs);
        self.add_at_prec(&other, self.prec)
    }
}

impl<'a> AddSpecImpl<u32> for &'a Float {
    open spec fn obeys_add_spec() -> bool {
        false
    }

    open spec fn add_req(self, rhs: u32) -> bool {
        self.wf() && sum_fits(parts(*self), small_parts(rhs as int))
    }

    open spec fn add_spec(self, rhs: u32) -> Float {
        arbitrary()
    }
}

impl Sub<Float> for Float {
    type Output = Float;

    fn sub(self, rhs: Float) -> (r: Float)
        ensures
            is_difference(parts(self), parts(rhs), wider(self, rhs), r),
    {
        self.sub_at_prec(&rhs, larger(self.prec, rhs.prec))
    }
}

impl SubSpecImpl<Float> for Float {
    open spec fn obeys_sub_spec() -> bool {
        false
    }

    open spec fn sub_req(self, rhs: Float) -> bool {
        self.wf() && rhs.wf() && sum_fits(parts(self), parts(rhs))
    }

    open spec fn sub_spec(self, rhs: Float) -> Float {
        arbitrary()
    }
}

impl<'a> Sub<&'a Float> for Float {
    type Output = Float;

    fn sub(self, rhs: &'a Float) -> (r: Float)
        ensures
            is_difference(parts(self), parts(*rhs), wider(self, *rhs), r),
    {
        self.sub_at_prec(rhs, larger(self.prec, rhs.prec))
    }
}

impl<'a> SubSpecImpl<&'a Float> for Float {
    open spec fn obeys_sub_spec() -> bool {
        false
    }

    open spec fn sub_req(self, rhs: &'a Float) -> bool {
        self.wf() && rhs.wf() && sum_fits(parts(self), parts(*rhs))
    }

    open spec fn sub_spec(self, rhs: &'a Float) -> Float {
        arbitrary()
    }
}

impl<'a> Sub<Float> for &'a Float {
    type Output = Float;

    fn sub(self, rhs: Float) -> (r: Float)
        ensures
            is_difference(parts(*self), parts(rhs), wider(*self, rhs), r),
    {
        self.sub_at_prec(&rhs, larger(self.prec, rhs.prec))
    }
}

impl<'a> SubSpecImpl<Float> for &'a Float {
    open spec fn obeys_sub_spec() -> bool {
        false
    }

    open spec fn sub_req(self, rhs: Float) -> bool {
        self.wf() && rhs.wf() && sum_fits(parts(*self), parts(rhs))
    }

    open spec fn sub_spec(self, rhs: Float) -> Float {
        arbitrary()
    }
}

impl<'a, 'b> Sub<&'b Float> for &'a Float {
    type Output = Float;

    fn sub(self, rhs: &'b Float) -> (r: Float)
        ensures
            is_difference(parts(*self), parts(*rhs), wider(*self, *rhs), r),
    {
        self.sub_at_prec(rhs, larger(self.prec, rhs.prec))
    }
}

impl<'a, 'b> SubSpecImpl<&'b Float> for &'a Float {
    open spec fn obeys_sub_spec() -> bool {
        false
    }

    open spec fn sub_req(self, rhs: &'b Float) -> bool {
        self.wf() && rhs.wf() && sum_fits(parts(*self), parts(*rhs))
    }

    open spec fn sub_spec(self, rhs: &'b Float) -> Float {
        arbitrary()
    }
}

impl Sub<Integer> for Float {
    type Output = Float;

    fn sub(self, rhs: Integer) -> (r: Float)
        ensures
            is_difference(parts(self), integer_parts(rhs), self.prec, r),
    {
        let other: Float = from_integer(&rhs);
        self.sub_at_prec(&other, self.prec)
    }
}

impl SubSpecImpl<Integer> for Float {
    open spec fn obeys_sub_spec() -> bool {
        false
    }

    open spec fn sub_req(self, rhs: Integer) -> bool {
        self.wf() && rhs.wf() && sum_fits(parts(self), integer_parts(rhs))
    }

    open spec fn sub_spec(self, rhs: Integer) -> Float {
        arbitrary()
    }
}

impl<'a> Sub<&'a Integer> for Float {
    type Output = Float;

    fn sub(self, rhs: &'a Integer) -> (r: Float)
        ensures
            is_difference(parts(self), integer_parts(*rhs), self.prec, r),
    {
        let other: Float = from_integer(rhs);
        self.sub_at_prec(&other, self.prec)
    }
}

impl<'a> SubSpecImpl<&'a Integer> for Float {
    open spec fn obeys_sub_spec() -> bool {
        false
    }

    open spec fn sub_req(self, rhs: &'a Integer) -> bool {
        self.wf() && rhs.wf() && sum_fits(parts(self), integer_parts(*rhs))
    }

    open spec fn sub_spec(self, rhs: &'a Integer) -> Float {
        arbitrary()
    }
}

impl<'a> Sub<Integer> for &'a Float {
    type Output = Float;

    fn sub(self, rhs: Integer) -> (r: Float)
        ensures
            is_difference(parts(*self), integer_parts(rhs), self.prec, r),
    {
        let other: Float = from_integer(&rhs);
        self.sub_at_prec(&other, self.prec)
    }
}

impl<'a> SubSpecImpl<Integer> for &'a Float {
    open spec fn obeys_sub_spec() -> bool {
        false
    }

    open spec fn sub_req(self, rhs: Integer) -> bool {
        self.wf() && rhs.wf() && sum_fits(parts(*self), integer_parts(rhs))
    }

    open spec fn sub_spec(self, rhs: Integer) -> Float {
        arbitrary()
    }
}

impl<'a, 'b> Sub<&'b Integer> for &'a Float {
    type Output = Float;

    fn sub(self, rhs: &'b Integer) -> (r: Float)
        ensures
            is_difference(parts(*self), integer_parts(*rhs), self.prec, r),
    {
        let other: Float = from_integer(rhs);
        self.sub_at_prec(&other, self.prec)
    }
}

impl<'a, 'b> SubSpecImpl<&'b Integer> for &'a Float {
    open spec fn obeys_sub_spec() -> bool {
        false
    }

    open spec fn sub_req(self, rhs: &'b Integer) -> bool {
        self.wf() && rhs.wf() && sum_fits(parts(*self), integer_parts(*rhs))
    }

    open spec fn sub_spec(self, rhs: &'b Integer) -> Float {
        arbitrary()
    }
}

impl Sub<u32> for Float {
    type Output = Float;

    fn sub(self, rhs: u32) -> (r: Float)
        ensures
            is_difference(parts(self), small_parts(rhs as int), self.prec, r),
    {
        let other: Float = from_small(rhs);
        self.sub_at_prec(&other, self.prec)
    }
}

impl SubSpecImpl<u32> for Float {
    open spec fn obeys_sub_spec() -> bool {
        false
    }

    open spec fn sub_req(self, rhs: u32) -> bool {
        self.wf() && sum_fits(parts(self), small_parts(rhs as int))
    }

    open spec fn sub_spec(self, rhs: u32) -> Float {
        arbitrary()
    }
}

impl<'a> Sub<u32> for &'a Float {
    type Output = Float;

    fn sub(self, rhs: u32) -> (r: Float)
        ensures
            is_difference(parts(*self), small_parts(rhs as int), self.prec, r),
    {
        let other: Float = from_small(rhs);
        self.sub_at_prec(&other, self.prec)
    }
}

impl<'a> SubSpecImpl<u32> for &'a Float {
    open spec fn obeys_sub_spec() -> bool {
        false
    }

    open spec fn sub_req(self, rhs: u32) -> bool {
        self.wf() && sum_fits(parts(*self), small_parts(rhs as int))
    }

    open spec fn sub_spec(self, rhs: u32) -> Float {
        arbitrary()
    }
}

impl Mul<Float> for Float {
    type Output = Float;

    fn mul(self, rhs: Float) -> (r: Float)
        ensures
            is_product(parts(self), parts(rhs), wider(self, rhs), r),
    {
        self.mul_at_prec(&rhs, larger(self.prec, rhs.prec))
    }
}

impl MulSpecImpl<Float> for Float {
    open spec fn obeys_mul_spec() -> bool {
        false
    }

    open spec fn mul_req(self, rhs: Float) -> bool {
        self.wf() && rhs.wf() && product_fits(parts(self), parts(rhs))
    }

    open spec fn mul_spec(self, rhs: Float) -> Float {
        arbitrary()
    }
}

impl<'a> Mul<&'a Float> for Float {
    type Output = Float;

    fn mul(self, rhs: &'a Float) -> (r: Float)
        ensures
            is_product(parts(self), parts(*rhs), wider(self, *rhs), r),
    {
        self.mul_at_prec(rhs, larger(self.prec, rhs.prec))
    }
}

impl<'a> MulSpecImpl<&'a Float> for Float {
    open spec fn obeys_mul_spec() -> bool {
        false
    }

    open spec fn mul_req(self, rhs: &'a Float) -> bool {
        self.wf() && rhs.wf() && product_fits(parts(self), parts(*rhs))
    }

    open spec fn mul_spec(self, rhs: &'a Float) -> Float {
        arbitrary()
    }
}

impl<'a> Mul<Float> for &'a Float {
    type Output = Float;

    fn mul(self, rhs: Float) -> (r: Float)
        ensures
            is_product(parts(*self), parts(rhs), wider(*self, rhs), r),
    {
        self.mul_at_prec(&rhs, larger(self.prec, rhs.prec))
    }
}

impl<'a> MulSpecImpl<Float> for &'a Float {
    open spec fn obeys_mul_spec() -> bool {
        false
    }

    open spec fn mul_req(self, rhs: Float) -> bool {
        self.wf() && rhs.wf() && product_fits(parts(*self), parts(rhs))
    }

    open spec fn mul_spec(self, rhs: Float) -> Float {
        arbitrary()
    }
}

impl<'a, 'b> Mul<&'b Float> for &'a Float {
    type Output = Float;

    fn mul(self, rhs: &'b Float) -> (r: Float)
        ensures
            is_product(parts(*self), parts(*rhs), wider(*self, *rhs), r),
    {
        self.mul_at_prec(rhs, larger(self.prec, rhs.prec))
    }
}

impl<'a, 'b> MulSpecImpl<&'b Float> for &'a Float {
    open spec fn obeys_mul_spec() -> bool {
        false
    }

    open spec fn mul_req(self, rhs: &'b Float) -> bool {
        self.wf() && rhs.wf() && product_fits(parts(*self), parts(*rhs))
    }

    open spec fn mul_spec(self, rhs: &'b Float) -> Float {
        arbitrary()
    }
}

impl Mul<Integer> for Float {
    type Output = Float;

    fn mul(self, rhs: Integer) -> (r: Float)
        ensures
            is_product(parts(self), integer_parts(rhs), self.prec, r),
    {
        let other: Float = from_integer(&rhs);
        self.mul_at_prec(&other, self.prec)
    }
}

impl MulSpecImpl<Integer> for Float {
    open spec fn obeys_mul_spec() -> bool {
        false
    }

    open spec fn mul_req(self, rhs: Integer) -> bool {
        self.wf() && rhs.wf() && product_fits(parts(self), integer_parts(rhs))
    }

    open spec fn mul_spec(self, rhs: Integer) -> Float {
        arbitrary()
    }
}

impl<'a> Mul<&'a Integer> for Float {
    type Output = Float;

    fn mul(self, rhs: &'a Integer) -> (r: Float)
        ensures
            is_product(parts(self), integer_parts(*rhs), self.prec, r),
    {
        let other: Float = from_integer(rhs);
        self.mul_at_prec(&other, self.prec)
    }
}

impl<'a> MulSpecImpl<&'a Integer> for Float {
    open spec fn obeys_mul_spec() -> bool {
        false
    }

    open spec fn mul_req(self, rhs: &'a Integer) -> bool {
        self.wf() && rhs.wf() && product_fits(parts(self), integer_parts(*rhs))
    }

    open spec fn mul_spec(self, rhs: &'a Integer) -> Float {
        arbitrary()
    }
}

impl<'a> Mul<Integer> for &'a Float {
    type Output = Float;

    fn mul(self, rhs: Integer) -> (r: Float)
        ensures
            is_product(parts(*self), integer_parts(rhs), self.prec, r),
    {
        let other: Float = from_integer(&rhs);
        self.mul_at_prec(&other, self.prec)
    }
}

impl<'a> MulSpecImpl<Integer> for &'a Float {
    open spec fn obeys_mul_spec() -> bool {
        false
    }

    open spec fn mul_req(self, rhs: Integer) -> bool {
        self.wf() && rhs.wf() && product_fits(parts(*self), integer_parts(rhs))
    }

    open spec fn mul_spec(self, rhs: Integer) -> Float {
        arbitrary()
    }
}

impl<'a, 'b> Mul<&'b Integer> for &'a Float {
    type Output = Float;

    fn mul(self, rhs: &'b Integer) -> (r: Float)
        ensures
            is_product(parts(*self), integer_parts(*rhs), self.prec, r),
    {
        let other: Float = from_integer(rhs);
        self.mul_at_prec(&other, self.prec)
    }
}

impl<'a, 'b> MulSpecImpl<&'b Integer> for &'a Float {
    open spec fn obeys_mul_spec() -> bool {
        false
    }

    open spec fn mul_req(self, rhs: &'b Integer) -> bool {
        self.wf() && rhs.wf() && product_fits(parts(*self), integer_parts(*rhs))
    }

    open spec fn mul_spec(self, rhs: &'b Integer) -> Float {
        arbitrary()
    }
}

impl Mul<u32> for Float {
    type Output = Float;

    fn mul(self, rhs: u32) -> (r: Float)
        ensures
            is_product(parts(self), small_parts(rhs as int), self.prec, r),
    {
        let other: Float = from_small(rhs);
        self.mul_at_prec(&other, self.prec)
    }
}

impl MulSpecImpl<u32> for Float {
    open spec fn obeys_mul_spec() -> bool {
        false
    }

    open spec fn mul_req(self, rhs: u32) -> bool {
        self.wf() && product_fits(parts(self), small_parts(rhs as int))
    }

    open spec fn mul_spec(self, rhs: u32) -> Float {
        arbitrary()
    }
}

impl<'a> Mul<u32> for &'a Float {
    type Output = Float;

    fn mul(self, rhs: u32) -> (r: Float)
        ensures
            is_product(parts(*self), small_parts(rhs as int), self.prec, r),
    {
        let other: Float = from_small(rhs);
        self.mul_at_prec(&other, self.prec)
    }
}

impl<'a> MulSpecImpl<u32> for &'a Float {
    open spec fn obeys_mul_spec() -> bool {
        false
    }

    open spec fn mul_req(self, rhs: u32) -> bool {
        self.wf() && product_fits(parts(*self), small_parts(rhs as int))
    }

    open spec fn mul_spec(self, rhs: u32) -> Float {
        arbitrary()
    }
}

impl Div<Float> for Float {
    type Output = Float;

    fn div(self, rhs: Float) -> (r: Float)
        ensures
            is_quotient(parts(self), parts(rhs), wider(self, rhs), r),
    {
        self.div_at_prec(&rhs, larger(self.prec, rhs.prec))
    }
}

impl DivSpecImpl<Float> for Float {
    open spec fn obeys_div_spec() -> bool {
        false
    }

    open spec fn div_req(self, rhs: Float) -> bool {
        self.wf() && rhs.wf() && quotient_fits(parts(self), parts(rhs), wider(self, rhs))
    }

    open spec fn div_spec(self, rhs: Float) -> Float {
        arbitrary()
    }
}

impl<'a> Div<&'a Float> for Float {
    type Output = Float;

    fn div(self, rhs: &'a Float) -> (r: Float)
        ensures
            is_quotient(parts(self), parts(*rhs), wider(self, *rhs), r),
    {
        self.div_at_prec(rhs, larger(self.prec, rhs.prec))
    }
}

impl<'a> DivSpecImpl<&'a Float> for Float {
    open spec fn obeys_div_spec() -> bool {
        false
    }

    open spec fn div_req(self, rhs: &'a Float) -> bool {
        self.wf() && rhs.wf() && quotient_fits(parts(self), parts(*rhs), wider(self, *rhs))
    }

    open spec fn div_spec(self, rhs: &'a Float) -> Float {
        arbitrary()
    }
}

impl<'a> Div<Float> for &'a Float {
    type Output = Float;

    fn div(self, rhs: Float) -> (r: Float)
        ensures
            is_quotient(parts(*self), parts(rhs), wider(*self, rhs), r),
    {
        self.div_at_prec(&rhs, larger(self.prec, rhs.prec))
    }
}

impl<'a> DivSpecImpl<Float> for &'a Float {
    open spec fn obeys_div_spec() -> bool {
        false
    }

    open spec fn div_req(self, rhs: Float) -> bool {
        self.wf() && rhs.wf() && quotient_fits(parts(*self), parts(rhs), wider(*self, rhs))
    }

    open spec fn div_spec(self, rhs: Float) -> Float {
        arbitrary()
    }
}

impl<'a, 'b> Div<&'b Float> for &'a Float {
    type Output = Float;

    fn div(self, rhs: &'b Float) -> (r: Float)
        ensures
            is_quotient(parts(*self), parts(*rhs), wider(*self, *rhs), r),
    {
        self.div_at_prec(rhs, larger(self.prec, rhs.prec))
    }
}

impl<'a, 'b> DivSpecImpl<&'b Float> for &'a Float {
    open spec fn obeys_div_spec() -> bool {
        false
    }

    open spec fn div_req(self, rhs: &'b Float) -> bool {
        self.wf() && rhs.wf() && quotient_fits(parts(*self), parts(*rhs), wider(*self, *rhs))
    }

    open spec fn div_spec(self, rhs: &'b Float) -> Float {
        arbitrary()
    }
}

impl Div<Integer> for Float {
    type Output = Float;

    fn div(self, rhs: Integer) -> (r: Float)
        ensures
            is_quotient(parts(self), integer_parts(rhs), self.prec, r),
    {
        let other: Float = from_integer(&rhs);
        self.div_at_prec(&other, self.prec)
    }
}

impl DivSpecImpl<Integer> for Float {
    open spec fn obeys_div_spec() -> bool {
        false
    }

    open spec fn div_req(self, rhs: Integer) -> bool {
        self.wf() && rhs.wf() && quotient_fits(parts(self), integer_parts(rhs), self.prec)
    }

    open spec fn div_spec(self, rhs: Integer) -> Float {
        arbitrary()
    }
}

impl<'a> Div<&'a Integer> for Float {
    type Output = Float;

    fn div(self, rhs: &'a Integer) -> (r: Float)
        ensures
            is_quotient(parts(self), integer_parts(*rhs), self.prec, r),
    {
        let other: Float = from_integer(rhs);
        self.div_at_prec(&other, self.prec)
    }
}

impl<'a> DivSpecImpl<&'a Integer> for Float {
    open spec fn obeys_div_spec() -> bool {
        false
    }

    open spec fn div_req(self, rhs: &'a Integer) -> bool {
        self.wf() && rhs.wf() && quotient_fits(parts(self), integer_parts(*rhs), self.prec)
    }

    open spec fn div_spec(self, rhs: &'a Integer) -> Float {
        arbitrary()
    }
}

impl<'a> Div<Integer> for &'a Float {
    type Output = Float;

    fn div(self, rhs: Integer) -> (r: Float)
        ensures
            is_quotient(parts(*self), integer_parts(rhs), self.prec, r),
    {
        let other: Float = from_integer(&rhs);
        self.div_at_prec(&other, self.prec)
    }
}

impl<'a> DivSpecImpl<Integer> for &'a Float {
    open spec fn obeys_div_spec() -> bool {
        false
    }

    open spec fn div_req(self, rhs: Integer) -> bool {
        self.wf() && rhs.wf() && quotient_fits(parts(*self), integer_parts(rhs), self.prec)
    }

    open spec fn div_spec(self, rhs: Integer) -> Float {
        arbitrary()
    }
}

impl<'a, 'b> Div<&'b Integer> for &'a Float {
    type Output = Float;

    fn div(self, rhs: &'b Integer) -> (r: Float)
        ensures
            is_quotient(parts(*self), integer_parts(*rhs), self.prec, r),
    {
        let other: Float = from_integer(rhs);
        self.div_at_prec(&other, self.prec)
    }
}

impl<'a, 'b> DivSpecImpl<&'b Integer> for &'a Float {
    open spec fn obeys_div_spec() -> bool {
        false
    }

    open spec fn div_req(self, rhs: &'b Integer) -> bool {
        self.wf() && rhs.wf() && quotient_fits(parts(*self), integer_parts(*rhs), self.prec)
    }

    open spec fn div_spec(self, rhs: &'b Integer) -> Float {
        arbitrary()
    }
}

impl Div<u32> for Float {
    type Output = Float;

    fn div(self, rhs: u32) -> (r: Float)
        ensures
            is_quotient(parts(self), small_parts(rhs as int), self.prec, r),
    {
        let other: Float = from_small(rhs);
        self.div_at_prec(&other, self.prec)
    }
}

impl DivSpecImpl<u32> for Float {
    open spec fn obeys_div_spec() -> bool {
        false
    }

    open spec fn div_req(self, rhs: u32) -> bool {
        self.wf() && quotient_fits(parts(self), small_parts(rhs as int), self.prec)
    }

    open spec fn div_spec(self, rhs: u32) -> Float {
        arbitrary()
    }
}

impl<'a> Div<u32> for &'a Float {
    type Output = Float;

    fn div(self, rhs: u32) -> (r: Float)
        ensures
            is_quotient(parts(*self), small_parts(rhs as int), self.prec, r),
    {
        let other: Float = from_small(rhs);
        self.div_at_prec(&other, self.prec)
    }
}

impl<'a> DivSpecImpl<u32> for &'a Float {
    open spec fn obeys_div_spec() -> bool {
        false
    }

    open spec fn div_req(self, rhs: u32) -> bool {
        self.wf() && quotient_fits(parts(*self), small_parts(rhs as int), self.prec)
    }

    open spec fn div_spec(self, rhs: u32) -> Float {
        arbitrary()
    }
}

impl AddAssign<Float> for Float {
    fn add_assign(&mut self, rhs: Float)
        requires
            old(self).wf(),
            rhs.wf(),
            sum_fits(parts(*old(self)), parts(rhs)),
        ensures
            is_sum(parts(*old(self)), parts(rhs), old(self).prec, *final(self)),
    {
        *self = self.add_at_prec(&rhs, self.prec);
    }
}

impl<'a> AddAssign<&'a Float> for Float {
    fn add_assign(&mut self, rhs: &'a Float)
        requires
            old(self).wf(),
            rhs.wf(),
            sum_fits(parts(*old(self)), parts(*rhs)),
        ensures
            is_sum(parts(*old(self)), parts(*rhs), old(self).prec, *final(self)),
    {
        *self = self.add_at_prec(rhs, self.prec);
    }
}

impl AddAssign<Integer> for Float {
    fn add_assign(&mut self, rhs: Integer)
        requires
            old(self).wf(),
            rhs.wf(),
            sum_fits(parts(*old(self)), integer_parts(rhs)),
        ensures
            is_sum(parts(*old(self)), integer_parts(rhs), old(self).prec, *final(self)),
    {
        let other: Float = from_integer(&rhs);
        *self = self.add_at_prec(&other, self.prec);
    }
}

impl<'a> AddAssign<&'a Integer> for Float {
    fn add_assign(&mut self, rhs: &'a Integer)
        requires
            old(self).wf(),
            rhs.wf(),
            sum_fits(parts(*old(self)), integer_parts(*rhs)),
        ensures
            is_sum(parts(*old(self)), integer_parts(*rhs), old(self).prec, *final(self)),
    {
        let other: Float = from_integer(rhs);
        *self = self.add_at_prec(&other, self.prec);
    }
}

impl AddAssign<u32> for Float {
    fn add_assign(&mut self, rhs: u32)
        requires
            old(self).wf(),
            sum_fits(parts(*old(self)), small_parts(rhs as int)),
        ensures
            is_sum(parts(*old(self)), small_parts(rhs as int), old(self).prec, *final(self)),
    {
        let other: Float = from_small(rhs);
        *self = self.add_at_prec(&other, self.prec);
    }
}

impl SubAssign<Float> for Float {
    fn sub_assign(&mut self, rhs: Float)
        requires
            old(self).wf(),
            rhs.wf(),
            sum_fits(parts(*old(self)), parts(rhs)),
        ensures
            is_difference(parts(*old(self)), parts(rhs), old(self).prec, *final(self)),
    {
        *self = self.sub_at_prec(&rhs, self.prec);
    }
}

impl<'a> SubAssign<&'a Float> for Float {
    fn sub_assign(&mut self, rhs: &'a Float)
        requires
            old(self).wf(),
            rhs.wf(),
            sum_fits(parts(*old(self)), parts(*rhs)),
        ensures
            is_difference(parts(*old(self)), parts(*rhs), old(self).prec, *final(self)),
    {
        *self = self.sub_at_prec(rhs, self.prec);
    }
}

impl SubAssign<Integer> for Float {
    fn sub_assign(&mut self, rhs: Integer)
        requires
            old(self).wf(),
            rhs.wf(),
            sum_fits(parts(*old(self)), integer_parts(rhs)),
        ensures
            is_difference(parts(*old(self)), integer_parts(rhs), old(self).prec, *final(self)),
    {
        let other: Float = from_integer(&rhs);
        *self = self.sub_at_prec(&other, self.prec);
    }
}

impl<'a> SubAssign<&'a Integer> for Float {
    fn sub_assign(&mut self, rhs: &'a Integer)
        requires
            old(self).wf(),
            rhs.wf(),
            sum_fits(parts(*old(self)), integer_parts(*rhs)),
        ensures
            is_difference(parts(*old(self)), integer_parts(*rhs), old(self).prec, *final(self)),
    {
        let other: Float = from_integer(rhs);
        *self = self.sub_at_prec(&other, self.prec);
    }
}

impl SubAssign<u32> for Float {
    fn sub_assign(&mut self, rhs: u32)
        requires
            old(self).wf(),
            sum_fits(parts(*old(self)), small_parts(rhs as int)),
        ensures
            is_difference(parts(*old(self)), small_parts(rhs as int), old(self).prec, *final(self)),
    {
        let other: Float = from_small(rhs);
        *self = self.sub_at_prec(&other, self.prec);
    }
}

impl MulAssign<Float> for Float {
    fn mul_assign(&mut self, rhs: Float)
        requires
            old(self).wf(),
            rhs.wf(),
            product_fits(parts(*old(self)), parts(rhs)),
        ensures
            is_product(parts(*old(self)), parts(rhs), old(self).prec, *final(self)),
    {
        *self = self.mul_at_prec(&rhs, self.prec);
    }
}

impl<'a> MulAssign<&'a Float> for Float {
    fn mul_assign(&mut self, rhs: &'a Float)
        requires
            old(self).wf(),
            rhs.wf(),
            product_fits(parts(*old(self)), parts(*rhs)),
        ensures
            is_product(parts(*old(self)), parts(*rhs), old(self).prec, *final(self)),
    {
        *self = self.mul_at_prec(rhs, self.prec);
    }
}

impl MulAssign<Integer> for Float {
    fn mul_assign(&mut self, rhs: Integer)
        requires
            old(self).wf(),
            rhs.wf(),
            product_fits(parts(*old(self)), integer_parts(rhs)),
        ensures
            is_product(parts(*old(self)), integer_parts(rhs), old(self).prec, *final(self)),
    {
        let other: Float = from_integer(&rhs);
        *self = self.mul_at_prec(&other, self.prec);
    }
}

impl<'a> MulAssign<&'a Integer> for Float {
    fn mul_assign(&mut self, rhs: &'a Integer)
        requires
            old(self).wf(),
            rhs.wf(),
            product_fits(parts(*old(self)), integer_parts(*rhs)),
        ensures
            is_product(parts(*old(self)), integer_parts(*rhs), old(self).prec, *final(self)),
    {
        let other: Float = from_integer(rhs);
        *self = self.mul_at_prec(&other, self.prec);
    }
}

impl MulAssign<u32> for Float {
    fn mul_assign(&mut self, rhs: u32)
        requires
            old(self).wf(),
            product_fits(parts(*old(self)), small_parts(rhs as int)),
        ensures
            is_product(parts(*old(self)), small_parts(rhs as int), old(self).prec, *final(self)),
    {
        let other: Float = from_small(rhs);
        *self = self.mul_at_prec(&other, self.prec);
    }
}

impl DivAssign<Float> for Float {
    fn div_assign(&mut self, rhs: Float)
        requires
            old(self).wf(),
            rhs.wf(),
            quotient_fits(parts(*old(self)), parts(rhs), old(self).prec),
        ensures
            is_quotient(parts(*old(self)), parts(rhs), old(self).prec, *final(self)),
    {
        *self = self.div_at_prec(&rhs, self.prec);
    }
}

impl<'a> DivAssign<&'a Float> for Float {
    fn div_assign(&mut self, rhs: &'a Float)
        requires
            old(self).wf(),
            rhs.wf(),
            quotient_fits(parts(*old(self)), parts(*rhs), old(self).prec),
        ensures
            is_quotient(parts(*old(self)), parts(*rhs), old(self).prec, *final(self)),
    {
        *self = self.div_at_prec(rhs, self.prec);
    }
}

impl DivAssign<Integer> for Float {
    fn div_assign(&mut self, rhs: Integer)
        requires
            old(self).wf(),
            rhs.wf(),
            quotient_fits(parts(*old(self)), integer_parts(rhs), old(self).prec),
        ensures
            is_quotient(parts(*old(self)), integer_parts(rhs), old(self).prec, *final(self)),
    {
        let other: Float = from_integer(&rhs);
        *self = self.div_at_prec(&other, self.prec);
    }
}

impl<'a> DivAssign<&'a Integer> for Float {
    fn div_assign(&mut self, rhs: &'a Integer)
        requires
            old(self).wf(),
            rhs.wf(),
            quotient_fits(parts(*old(self)), integer_parts(*rhs), old(self).prec),
        ensures
            is_quotient(parts(*old(self)), integer_parts(*rhs), old(self).prec, *final(self)),
    {
        let other: Float = from_integer(rhs);
        *self = self.div_at_prec(&other, self.prec);
    }
}

impl DivAssign<u32> for Float {
    fn div_assign(&mut self, rhs: u32)
        requires
            old(self).wf(),
            quotient_fits(parts(*old(self)), small_parts(rhs as int), old(self).prec),
        ensures
            is_quotient(parts(*old(self)), small_parts(rhs as int), old(self).prec, *final(self)),
    {
        let other: Float = from_small(rhs);
        *self = self.div_at_prec(&other, self.prec);
    }
}

/// Alignment keeps the value of an operand.
proof fn lemma_parts_aligned(a: Parts, e: int)
    requires
        e <= a.exp,
    ensures
        (a.aligned(e) as real) * reals::rpow2(e) == a.val(),
{
    let k: nat = (a.exp - e) as nat;
    reals::lemma_int_product(a.mantissa, pow2(k) as int);
    reals::lemma_rpow2_nat(k);
    reals::lemma_rpow2_add(k as int, e);
    let m = a.mantissa as real;
    let p = pow2(k) as real;
    let w = reals::rpow2(e);
    assert((m * p) * w == m * (p * w)) by (nonlinear_arith);
    let t = (a.mantissa * pow2(k)) as real;
    assert((-t) * w == -(t * w)) by (nonlinear_arith);
}

/// A sum is that of the values, off by at most `2^-prec` of it.
pub proof fn law_sum(a: Parts, b: Parts, prec: u64, r: Float)
    requires
        a.mantissa >= 0,
        b.mantissa >= 0,
        is_sum(a, b, prec, r),
    ensures
        r.prec == prec,
        reals::rabs(r.val() - (a.val() + b.val())) <= reals::rabs(a.val() + b.val())
            * reals::rpow2(-prec),
{
    assert(0real * reals::rpow2(a.exp) == 0real) by (nonlinear_arith);
    assert(0real * reals::rpow2(b.exp) == 0real) by (nonlinear_arith);
    if a.mantissa == 0 {
        float::lemma_rounded_near(r, prec as nat, b.sign, b.mantissa, b.exp);
        assert(a.val() + b.val() == b.val());
    } else if b.mantissa == 0 {
        float::lemma_rounded_near(r, prec as nat, a.sign, a.mantissa, a.exp);
        assert(a.val() + b.val() == a.val());
    } else {
        let e = float::imin(a.exp, b.exp);
        let (m, n) = (a.aligned(e), b.aligned(e));
        let sum = m + n;
        lemma_parts_aligned(a, e);
        lemma_parts_aligned(b, e);
        let (x, y) = (m as real, n as real);
        let w = reals::rpow2(e);
        assert((x + y) * w == x * w + y * w) by (nonlinear_arith);
        assert((-(x + y)) * w == -((x + y) * w)) by (nonlinear_arith);
        float::lemma_rounded_near(r, prec as nat, sum < 0, integer::abs(sum), e);
        assert(float::scaled(sum < 0, integer::abs(sum), e) == a.val() + b.val());
    }
}

/// A difference is that of the values, off by at most `2^-prec` of it.
pub proof fn law_difference(a: Parts, b: Parts, prec: u64, r: Float)
    requires
        a.mantissa >= 0,
        b.mantissa >= 0,
        is_difference(a, b, prec, r),
    ensures
        r.prec == prec,
        reals::rabs(r.val() - (a.val() - b.val())) <= reals::rabs(a.val() - b.val())
            * reals::rpow2(-prec),
{
    law_sum(a, b.negated(), prec, r);
    assert(b.negated().val() == -b.val());
}

/// A product is that of the values, off by at most `2^-prec` of it.
pub proof fn law_product_value(a: Parts, b: Parts, prec: u64, r: Float)
    requires
        a.mantissa >= 0,
        b.mantissa >= 0,
        is_product(a, b, prec, r),
    ensures
        r.prec == prec,
        reals::rabs(r.val() - a.val() * b.val()) <= reals::rabs(a.val() * b.val()) * reals::rpow2(
            -prec,
        ),
{
    let m = a.mantissa * b.mantissa;
    assert(m >= 0) by (nonlinear_arith)
        requires
            m == a.mantissa * b.mantissa,
            a.mantissa >= 0,
            b.mantissa >= 0,
    ;
    float::lemma_rounded_near(r, prec as nat, a.sign != b.sign, m, a.exp + b.exp);
    float::lemma_scaled_product(a.sign, a.mantissa, a.exp, b.sign, b.mantissa, b.exp);
}

/// A quotient times the divisor is the dividend, off by at most `2^(1 - prec)` of
/// it.
pub proof fn law_quotient(a: Parts, b: Parts, prec: u64, r: Float)
    requires
        is_quotient(a, b, prec, r),
    ensures
        r.wf(),
        r.prec == prec,
        reals::rabs(r.val() * b.val() - a.val()) <= reals::rabs(a.val()) * reals::rpow2(1 - prec),
{
}

/// The operands of the arithmetic stand for their values.
pub proof fn law_parts(f: Float, n: Integer, k: int)
    requires
        k >= 0,
    ensures
        parts(f).val() == f.val(),
        integer_parts(n).val() == n@ as real,
        small_parts(k).val() == k as real,
{
    reals::lemma_rpow2_step(0);
    let x = integer::abs(n@) as real;
    assert(x * 1real == x) by (nonlinear_arith);
    let y = k as real;
    assert(y * 1real == y) by (nonlinear_arith);
}

/// Where the precisions of two operands differ, the wider one is taken.
pub proof fn law_wider(a: Float, b: Float)
    ensures
        wider(a, b) >= a.prec && wider(a, b) >= b.prec,
        wider(a, b) == a.prec || wider(a, b) == b.prec,
{
}

/// Floating-point numbers are equal where both are zero, or where sign, mantissa
/// and exponent are; then their values are.
pub proof fn law_equal_floats(a: Float, b: Float)
    requires
        a.wf(),
        b.wf(),
    ensures
        vstd::std_specs::cmp::PartialEqSpec::eq_spec(&a, &b) <==> a.sign == b.sign && a.mantissa@
            == b.mantissa@ && a.exp == b.exp,
        vstd::std_specs::cmp::PartialEqSpec::eq_spec(&a, &b) ==> a.val() == b.val(),
{
    integer::law_integer(a.mantissa);
    integer::law_integer(b.mantissa);
    integer::law_equal(a.mantissa, b.mantissa);
}

} // verus!
