//! The arithmetic operators of integers.
//!
//! Every operator takes its operands by value or by reference, and one of them
//! may be a machine integer.
use crate::integer;
use crate::integer::{
    add_signed, div_signed, mul_signed, neg_signed, rem_signed, shl_signed, sub_signed, Integer,
};
use crate::limbs;
use crate::magnitude;
use crate::magnitude::cmp_mag;
use core::cmp::Ordering;
use core::ops::{Add, AddAssign, Div, Mul, MulAssign, Neg, Rem, ShlAssign, Sub, SubAssign};
use vstd::arithmetic::power::*;
use vstd::arithmetic::power2::*;
use vstd::prelude::*;
use vstd::std_specs::cmp::PartialOrdSpecImpl;
use vstd::std_specs::ops::{
    AddSpecImpl, DivSpecImpl, MulSpecImpl, NegSpecImpl, RemSpecImpl, SubSpecImpl,
};

verus! {

/// Whether the sum or difference of two integers fits this machine.
pub open spec fn sum_fits(a: Integer, b: Integer) -> bool {
    a.wf() && b.wf() && a.size() < limbs::limb_limit() && b.size() < limbs::limb_limit()
}

/// Whether the product of two integers fits this machine.
pub open spec fn product_fits(a: Integer, b: Integer) -> bool {
    a.wf() && b.wf() && a.size() + b.size() <= limbs::limb_limit()
}

/// Whether `a` can be divided by `b`.
pub open spec fn quotient_exists(a: Integer, b: Integer) -> bool {
    a.wf() && b.wf() && b@ != 0
}

/// Raising to a power.
pub trait Pow<Rhs>: Sized {
    type Output;

    /// Whether the power can be computed.
    spec fn pow_fits(self, rhs: Rhs) -> bool;

    /// Whether `r` is the power.
    spec fn is_power(self, rhs: Rhs, r: Self::Output) -> bool;

    /// `self` to the power `rhs`.
    fn pow(self, rhs: Rhs) -> (r: Self::Output)
        requires
            self.pow_fits(rhs),
        ensures
            self.is_power(rhs, r),
    ;
}

/// Raising to a power in place.
pub trait PowAssign<Rhs>: Sized {
    /// Whether the power can be computed.
    spec fn pow_assign_fits(&self, rhs: Rhs) -> bool;

    /// Whether `r` is the power.
    spec fn is_assigned_power(&self, rhs: Rhs, r: Self) -> bool;

    /// Replace `self` by its power.
    fn pow_assign(&mut self, rhs: Rhs)
        requires
            old(self).pow_assign_fits(rhs),
        ensures
            old(self).is_assigned_power(rhs, *final(self)),
    ;
}

/// Assignment from a value or from a reference to one.
pub trait Assign<Src = Self>: Sized {
    /// Whether the value of `src` can be taken over.
    spec fn assignable(&self, src: Src) -> bool;

    /// Whether `r` has the value of `src`.
    spec fn is_assigned(&self, src: Src, r: Self) -> bool;

    /// Replace `self` by `src`.
    fn assign(&mut self, src: Src)
        requires
            old(self).assignable(src),
        ensures
            old(self).is_assigned(src, *final(self)),
    ;
}

impl Assign<Integer> for Integer {
    open spec fn assignable(&self, src: Integer) -> bool {
        true
    }

    open spec fn is_assigned(&self, src: Integer, r: Integer) -> bool {
        r == src
    }

    fn assign(&mut self, src: Integer) {
        *self = src;
    }
}

impl<'a> Assign<&'a Integer> for Integer {
    open spec fn assignable(&self, src: &'a Integer) -> bool {
        true
    }

    open spec fn is_assigned(&self, src: &'a Integer, r: Integer) -> bool {
        r.limbs@ == src.limbs@ && r.negative == src.negative && r@ == src@
    }

    fn assign(&mut self, src: &'a Integer) {
        *self = Clone::clone(src);
    }
}

impl Pow<u32> for Integer {
    type Output = Integer;

    open spec fn pow_fits(self, rhs: u32) -> bool {
        self.wf() && self.size() * rhs + 2 <= limbs::limb_limit()
    }

    open spec fn is_power(self, rhs: u32, r: Integer) -> bool {
        r.wf() && r@ == pow(self@, rhs as nat)
    }

    fn pow(self, rhs: u32) -> (r: Integer) {
        self.pow_u32(rhs)
    }
}

impl<'a> Pow<u32> for &'a Integer {
    type Output = Integer;

    open spec fn pow_fits(self, rhs: u32) -> bool {
        self.wf() && self.size() * rhs + 2 <= limbs::limb_limit()
    }

    open spec fn is_power(self, rhs: u32, r: Integer) -> bool {
        r.wf() && r@ == pow(self@, rhs as nat)
    }

    fn pow(self, rhs: u32) -> (r: Integer) {
        self.pow_u32(rhs)
    }
}

impl PartialOrd for Integer {
    fn partial_cmp(&self, other: &Self) -> (r: Option<Ordering>)
        ensures
            self.wf() && other.wf() ==> r == Some(magnitude::order(self@, other@)),
    {
        proof {
            if self.wf() && other.wf() {
                integer::lemma_zero(*self);
                integer::lemma_zero(*other);
            }
        }
        let r: Ordering = if self.negative {
            if other.negative {
                cmp_mag(&other.limbs, &self.limbs)
            } else {
                Ordering::Less
            }
        } else if other.negative {
            Ordering::Greater
        } else {
            cmp_mag(&self.limbs, &other.limbs)
        };
        Some(r)
    }
}

impl PartialOrdSpecImpl for Integer {
    open spec fn obeys_partial_cmp_spec() -> bool {
        false
    }

    open spec fn partial_cmp_spec(&self, other: &Self) -> Option<Ordering> {
        arbitrary()
    }
}

impl Neg for Integer {
    type Output = Integer;

    fn neg(self) -> (r: Integer)
        ensures
            r.wf(),
            r@ == -self@,
    {
        neg_signed(&self)
    }
}

impl NegSpecImpl for Integer {
    open spec fn obeys_neg_spec() -> bool {
        false
    }

    open spec fn neg_req(self) -> bool {
        self.wf()
    }

    open spec fn neg_spec(self) -> Integer {
        arbitrary()
    }
}

impl<'a> Neg for &'a Integer {
    type Output = Integer;

    fn neg(self) -> (r: Integer)
        ensures
            r.wf(),
            r@ == -self@,
    {
        neg_signed(self)
    }
}

impl<'a> NegSpecImpl for &'a Integer {
    open spec fn obeys_neg_spec() -> bool {
        false
    }

    open spec fn neg_req(self) -> bool {
        self.wf()
    }

    open spec fn neg_spec(self) -> Integer {
        arbitrary()
    }
}

impl Add<Integer> for Integer {
    type Output = Integer;

    fn add(self, rhs: Integer) -> (r: Integer)
        ensures
            r.wf(),
            r@ == self@ + rhs@,
    {
        add_signed(&self, &rhs)
    }
}

impl AddSpecImpl<Integer> for Integer {
    open spec fn obeys_add_spec() -> bool {
        false
    }

    open spec fn add_req(self, rhs: Integer) -> bool {
        sum_fits(self, rhs)
    }

    open spec fn add_spec(self, rhs: Integer) -> Integer {
        arbitrary()
    }
}

impl<'a> Add<&'a Integer> for Integer {
    type Output = Integer;

    fn add(self, rhs: &'a Integer) -> (r: Integer)
        ensures
            r.wf(),
            r@ == self@ + rhs@,
    {
        add_signed(&self, rhs)
    }
}

impl<'a> AddSpecImpl<&'a Integer> for Integer {
    open spec fn obeys_add_spec() -> bool {
        false
    }

    open spec fn add_req(self, rhs: &'a Integer) -> bool {
        sum_fits(self, *rhs)
    }

    open spec fn add_spec(self, rhs: &'a Integer) -> Integer {
        arbitrary()
    }
}

impl<'a> Add<Integer> for &'a Integer {
    type Output = Integer;

    fn add(self, rhs: Integer) -> (r: Integer)
        ensures
            r.wf(),
            r@ == self@ + rhs@,
    {
        add_signed(self, &rhs)
    }
}

impl<'a> AddSpecImpl<Integer> for &'a Integer {
    open spec fn obeys_add_spec() -> bool {
        false
    }

    open spec fn add_req(self, rhs: Integer) -> bool {
        sum_fits(*self, rhs)
    }

    open spec fn add_spec(self, rhs: Integer) -> Integer {
        arbitrary()
    }
}

impl<'a, 'b> Add<&'b Integer> for &'a Integer {
    type Output = Integer;

    fn add(self, rhs: &'b Integer) -> (r: Integer)
        ensures
            r.wf(),
            r@ == self@ + rhs@,
    {
        add_signed(self, rhs)
    }
}

impl<'a, 'b> AddSpecImpl<&'b Integer> for &'a Integer {
    open spec fn obeys_add_spec() -> bool {
        false
    }

    open spec fn add_req(self, rhs: &'b Integer) -> bool {
        sum_fits(*self, *rhs)
    }

    open spec fn add_spec(self, rhs: &'b Integer) -> Integer {
        arbitrary()
    }
}

impl Add<u32> for Integer {
    type Output = Integer;

    fn add(self, rhs: u32) -> (r: Integer)
        ensures
            r.wf(),
            r@ == self@ + rhs,
    {
        proof {
            limbs::lemma_limb_limit();
        }
        let other: Integer = Integer::from(rhs);
        add_signed(&self, &other)
    }
}

impl AddSpecImpl<u32> for Integer {
    open spec fn obeys_add_spec() -> bool {
        false
    }

    open spec fn add_req(self, rhs: u32) -> bool {
        self.wf() && self.size() < limbs::limb_limit()
    }

    open spec fn add_spec(self, rhs: u32) -> Integer {
        arbitrary()
    }
}

impl<'a> Add<u32> for &'a Integer {
    type Output = Integer;

    fn add(self, rhs: u32) -> (r: Integer)
        ensures
            r.wf(),
            r@ == self@ + rhs,
    {
        proof {
            limbs::lemma_limb_limit();
        }
        let other: Integer = Integer::from(rhs);
        add_signed(self, &other)
    }
}

impl<'a> AddSpecImpl<u32> for &'a Integer {
    open spec fn obeys_add_spec() -> bool {
        false
    }

    open spec fn add_req(self, rhs: u32) -> bool {
        self.wf() && self.size() < limbs::limb_limit()
    }

    open spec fn add_spec(self, rhs: u32) -> Integer {
        arbitrary()
    }
}

impl Add<Integer> for u32 {
    type Output = Integer;

    fn add(self, rhs: Integer) -> (r: Integer)
        ensures
            r.wf(),
            r@ == self + rhs@,
    {
        proof {
            limbs::lemma_limb_limit();
        }
        let other: Integer = Integer::from(self);
        add_signed(&other, &rhs)
    }
}

impl AddSpecImpl<Integer> for u32 {
    open spec fn obeys_add_spec() -> bool {
        false
    }

    open spec fn add_req(self, rhs: Integer) -> bool {
        rhs.wf() && rhs.size() < limbs::limb_limit()
    }

    open spec fn add_spec(self, rhs: Integer) -> Integer {
        arbitrary()
    }
}

impl<'a> Add<&'a Integer> for u32 {
    type Output = Integer;

    fn add(self, rhs: &'a Integer) -> (r: Integer)
        ensures
            r.wf(),
            r@ == self + rhs@,
    {
        proof {
            limbs::lemma_limb_limit();
        }
        let other: Integer = Integer::from(self);
        add_signed(&other, rhs)
    }
}

impl<'a> AddSpecImpl<&'a Integer> for u32 {
    open spec fn obeys_add_spec() -> bool {
        false
    }

    open spec fn add_req(self, rhs: &'a Integer) -> bool {
        rhs.wf() && rhs.size() < limbs::limb_limit()
    }

    open spec fn add_spec(self, rhs: &'a Integer) -> Integer {
        arbitrary()
    }
}

impl Add<u64> for Integer {
    type Output = Integer;

    fn add(self, rhs: u64) -> (r: Integer)
        ensures
            r.wf(),
            r@ == self@ + rhs,
    {
        proof {
            limbs::lemma_limb_limit();
        }
        let other: Integer = Integer::from(rhs);
        add_signed(&self, &other)
    }
}

impl AddSpecImpl<u64> for Integer {
    open spec fn obeys_add_spec() -> bool {
        false
    }

    open spec fn add_req(self, rhs: u64) -> bool {
        self.wf() && self.size() < limbs::limb_limit()
    }

    open spec fn add_spec(self, rhs: u64) -> Integer {
        arbitrary()
    }
}

impl<'a> Add<u64> for &'a Integer {
    type Output = Integer;

    fn add(self, rhs: u64) -> (r: Integer)
        ensures
            r.wf(),
            r@ == self@ + rhs,
    {
        proof {
            limbs::lemma_limb_limit();
        }
        let other: Integer = Integer::from(rhs);
        add_signed(self, &other)
    }
}

impl<'a> AddSpecImpl<u64> for &'a Integer {
    open spec fn obeys_add_spec() -> bool {
        false
    }

    open spec fn add_req(self, rhs: u64) -> bool {
        self.wf() && self.size() < limbs::limb_limit()
    }

    open spec fn add_spec(self, rhs: u64) -> Integer {
        arbitrary()
    }
}

impl Add<Integer> for u64 {
    type Output = Integer;

    fn add(self, rhs: Integer) -> (r: Integer)
        ensures
            r.wf(),
            r@ == self + rhs@,
    {
        proof {
            limbs::lemma_limb_limit();
        }
        let other: Integer = Integer::from(self);
        add_signed(&other, &rhs)
    }
}

impl AddSpecImpl<Integer> for u64 {
    open spec fn obeys_add_spec() -> bool {
        false
    }

    open spec fn add_req(self, rhs: Integer) -> bool {
        rhs.wf() && rhs.size() < limbs::limb_limit()
    }

    open spec fn add_spec(self, rhs: Integer) -> Integer {
        arbitrary()
    }
}

impl<'a> Add<&'a Integer> for u64 {
    type Output = Integer;

    fn add(self, rhs: &'a Integer) -> (r: Integer)
        ensures
            r.wf(),
            r@ == self + rhs@,
    {
        proof {
            limbs::lemma_limb_limit();
        }
        let other: Integer = Integer::from(self);
        add_signed(&other, rhs)
    }
}

impl<'a> AddSpecImpl<&'a Integer> for u64 {
    open spec fn obeys_add_spec() -> bool {
        false
    }

    open spec fn add_req(self, rhs: &'a Integer) -> bool {
        rhs.wf() && rhs.size() < limbs::limb_limit()
    }

    open spec fn add_spec(self, rhs: &'a Integer) -> Integer {
        arbitrary()
    }
}

impl Sub<Integer> for Integer {
    type Output = Integer;

    fn sub(self, rhs: Integer) -> (r: Integer)
        ensures
            r.wf(),
            r@ == self@ - rhs@,
    {
        sub_signed(&self, &rhs)
    }
}

impl SubSpecImpl<Integer> for Integer {
    open spec fn obeys_sub_spec() -> bool {
        false
    }

    open spec fn sub_req(self, rhs: Integer) -> bool {
        sum_fits(self, rhs)
    }

    open spec fn sub_spec(self, rhs: Integer) -> Integer {
        arbitrary()
    }
}

impl<'a> Sub<&'a Integer> for Integer {
    type Output = Integer;

    fn sub(self, rhs: &'a Integer) -> (r: Integer)
        ensures
            r.wf(),
            r@ == self@ - rhs@,
    {
        sub_signed(&self, rhs)
    }
}

impl<'a> SubSpecImpl<&'a Integer> for Integer {
    open spec fn obeys_sub_spec() -> bool {
        false
    }

    open spec fn sub_req(self, rhs: &'a Integer) -> bool {
        sum_fits(self, *rhs)
    }

    open spec fn sub_spec(self, rhs: &'a Integer) -> Integer {
        arbitrary()
    }
}

impl<'a> Sub<Integer> for &'a Integer {
    type Output = Integer;

    fn sub(self, rhs: Integer) -> (r: Integer)
        ensures
            r.wf(),
            r@ == self@ - rhs@,
    {
        sub_signed(self, &rhs)
    }
}

impl<'a> SubSpecImpl<Integer> for &'a Integer {
    open spec fn obeys_sub_spec() -> bool {
        false
    }

    open spec fn sub_req(self, rhs: Integer) -> bool {
        sum_fits(*self, rhs)
    }

    open spec fn sub_spec(self, rhs: Integer) -> Integer {
        arbitrary()
    }
}

impl<'a, 'b> Sub<&'b Integer> for &'a Integer {
    type Output = Integer;

    fn sub(self, rhs: &'b Integer) -> (r: Integer)
        ensures
            r.wf(),
            r@ == self@ - rhs@,
    {
        sub_signed(self, rhs)
    }
}

impl<'a, 'b> SubSpecImpl<&'b Integer> for &'a Integer {
    open spec fn obeys_sub_spec() -> bool {
        false
    }

    open spec fn sub_req(self, rhs: &'b Integer) -> bool {
        sum_fits(*self, *rhs)
    }

    open spec fn sub_spec(self, rhs: &'b Integer) -> Integer {
        arbitrary()
    }
}

impl Sub<u32> for Integer {
    type Output = Integer;

    fn sub(self, rhs: u32) -> (r: Integer)
        ensures
            r.wf(),
            r@ == self@ - rhs,
    {
        proof {
            limbs::lemma_limb_limit();
        }
        let other: Integer = Integer::from(rhs);
        sub_signed(&self, &other)
    }
}

impl SubSpecImpl<u32> for Integer {
    open spec fn obeys_sub_spec() -> bool {
        false
    }

    open spec fn sub_req(self, rhs: u32) -> bool {
        self.wf() && self.size() < limbs::limb_limit()
    }

    open spec fn sub_spec(self, rhs: u32) -> Integer {
        arbitrary()
    }
}

impl<'a> Sub<u32> for &'a Integer {
    type Output = Integer;

    fn sub(self, rhs: u32) -> (r: Integer)
        ensures
            r.wf(),
            r@ == self@ - rhs,
    {
        proof {
            limbs::lemma_limb_limit();
        }
        let other: Integer = Integer::from(rhs);
        sub_signed(self, &other)
    }
}

impl<'a> SubSpecImpl<u32> for &'a Integer {
    open spec fn obeys_sub_spec() -> bool {
        false
    }

    open spec fn sub_req(self, rhs: u32) -> bool {
        self.wf() && self.size() < limbs::limb_limit()
    }

    open spec fn sub_spec(self, rhs: u32) -> Integer {
        arbitrary()
    }
}

impl Sub<Integer> for u32 {
    type Output = Integer;

    fn sub(self, rhs: Integer) -> (r: Integer)
        ensures
            r.wf(),
            r@ == self - rhs@,
    {
        proof {
            limbs::lemma_limb_limit();
        }
        let other: Integer = Integer::from(self);
        sub_signed(&other, &rhs)
    }
}

impl SubSpecImpl<Integer> for u32 {
    open spec fn obeys_sub_spec() -> bool {
        false
    }

    open spec fn sub_req(self, rhs: Integer) -> bool {
        rhs.wf() && rhs.size() < limbs::limb_limit()
    }

    open spec fn sub_spec(self, rhs: Integer) -> Integer {
        arbitrary()
    }
}

impl<'a> Sub<&'a Integer> for u32 {
    type Output = Integer;

    fn sub(self, rhs: &'a Integer) -> (r: Integer)
        ensures
            r.wf(),
            r@ == self - rhs@,
    {
        proof {
            limbs::lemma_limb_limit();
        }
        let other: Integer = Integer::from(self);
        sub_signed(&other, rhs)
    }
}

impl<'a> SubSpecImpl<&'a Integer> for u32 {
    open spec fn obeys_sub_spec() -> bool {
        false
    }

    open spec fn sub_req(self, rhs: &'a Integer) -> bool {
        rhs.wf() && rhs.size() < limbs::limb_limit()
    }

    open spec fn sub_spec(self, rhs: &'a Integer) -> Integer {
        arbitrary()
    }
}

impl Sub<u64> for Integer {
    type Output = Integer;

    fn sub(self, rhs: u64) -> (r: Integer)
        ensures
            r.wf(),
            r@ == self@ - rhs,
    {
        proof {
            limbs::lemma_limb_limit();
        }
        let other: Integer = Integer::from(rhs);
        sub_signed(&self, &other)
    }
}

impl SubSpecImpl<u64> for Integer {
    open spec fn obeys_sub_spec() -> bool {
        false
    }

    open spec fn sub_req(self, rhs: u64) -> bool {
        self.wf() && self.size() < limbs::limb_limit()
    }

    open spec fn sub_spec(self, rhs: u64) -> Integer {
        arbitrary()
    }
}

impl<'a> Sub<u64> for &'a Integer {
    type Output = Integer;

    fn sub(self, rhs: u64) -> (r: Integer)
        ensures
            r.wf(),
            r@ == self@ - rhs,
    {
        proof {
            limbs::lemma_limb_limit();
        }
        let other: Integer = Integer::from(rhs);
        sub_signed(self, &other)
    }
}

impl<'a> SubSpecImpl<u64> for &'a Integer {
    open spec fn obeys_sub_spec() -> bool {
        false
    }

    open spec fn sub_req(self, rhs: u64) -> bool {
        self.wf() && self.size() < limbs::limb_limit()
    }

    open spec fn sub_spec(self, rhs: u64) -> Integer {
        arbitrary()
    }
}

impl Sub<Integer> for u64 {
    type Output = Integer;

    fn sub(self, rhs: Integer) -> (r: Integer)
        ensures
            r.wf(),
            r@ == self - rhs@,
    {
        proof {
            limbs::lemma_limb_limit();
        }
        let other: Integer = Integer::from(self);
        sub_signed(&other, &rhs)
    }
}

impl SubSpecImpl<Integer> for u64 {
    open spec fn obeys_sub_spec() -> bool {
        false
    }

    open spec fn sub_req(self, rhs: Integer) -> bool {
        rhs.wf() && rhs.size() < limbs::limb_limit()
    }

    open spec fn sub_spec(self, rhs: Integer) -> Integer {
        arbitrary()
    }
}

impl<'a> Sub<&'a Integer> for u64 {
    type Output = Integer;

    fn sub(self, rhs: &'a Integer) -> (r: Integer)
        ensures
            r.wf(),
            r@ == self - rhs@,
    {
        proof {
            limbs::lemma_limb_limit();
        }
        let other: Integer = Integer::from(self);
        sub_signed(&other, rhs)
    }
}

impl<'a> SubSpecImpl<&'a Integer> for u64 {
    open spec fn obeys_sub_spec() -> bool {
        false
    }

    open spec fn sub_req(self, rhs: &'a Integer) -> bool {
        rhs.wf() && rhs.size() < limbs::limb_limit()
    }

    open spec fn sub_spec(self, rhs: &'a Integer) -> Integer {
        arbitrary()
    }
}

impl Mul<Integer> for Integer {
    type Output = Integer;

    fn mul(self, rhs: Integer) -> (r: Integer)
        ensures
            r.wf(),
            r@ == self@ * rhs@,
    {
        mul_signed(&self, &rhs)
    }
}

impl MulSpecImpl<Integer> for Integer {
    open spec fn obeys_mul_spec() -> bool {
        false
    }

    open spec fn mul_req(self, rhs: Integer) -> bool {
        product_fits(self, rhs)
    }

    open spec fn mul_spec(self, rhs: Integer) -> Integer {
        arbitrary()
    }
}

impl<'a> Mul<&'a Integer> for Integer {
    type Output = Integer;

    fn mul(self, rhs: &'a Integer) -> (r: Integer)
        ensures
            r.wf(),
            r@ == self@ * rhs@,
    {
        mul_signed(&self, rhs)
    }
}

impl<'a> MulSpecImpl<&'a Integer> for Integer {
    open spec fn obeys_mul_spec() -> bool {
        false
    }

    open spec fn mul_req(self, rhs: &'a Integer) -> bool {
        product_fits(self, *rhs)
    }

    open spec fn mul_spec(self, rhs: &'a Integer) -> Integer {
        arbitrary()
    }
}

impl<'a> Mul<Integer> for &'a Integer {
    type Output = Integer;

    fn mul(self, rhs: Integer) -> (r: Integer)
        ensures
            r.wf(),
            r@ == self@ * rhs@,
    {
        mul_signed(self, &rhs)
    }
}

impl<'a> MulSpecImpl<Integer> for &'a Integer {
    open spec fn obeys_mul_spec() -> bool {
        false
    }

    open spec fn mul_req(self, rhs: Integer) -> bool {
        product_fits(*self, rhs)
    }

    open spec fn mul_spec(self, rhs: Integer) -> Integer {
        arbitrary()
    }
}

impl<'a, 'b> Mul<&'b Integer> for &'a Integer {
    type Output = Integer;

    fn mul(self, rhs: &'b Integer) -> (r: Integer)
        ensures
            r.wf(),
            r@ == self@ * rhs@,
    {
        mul_signed(self, rhs)
    }
}

impl<'a, 'b> MulSpecImpl<&'b Integer> for &'a Integer {
    open spec fn obeys_mul_spec() -> bool {
        false
    }

    open spec fn mul_req(self, rhs: &'b Integer) -> bool {
        product_fits(*self, *rhs)
    }

    open spec fn mul_spec(self, rhs: &'b Integer) -> Integer {
        arbitrary()
    }
}

impl Mul<u32> for Integer {
    type Output = Integer;

    fn mul(self, rhs: u32) -> (r: Integer)
        ensures
            r.wf(),
            r@ == self@ * rhs,
    {
        proof {
            limbs::lemma_limb_limit();
        }
        let other: Integer = Integer::from(rhs);
        mul_signed(&self, &other)
    }
}

impl MulSpecImpl<u32> for Integer {
    open spec fn obeys_mul_spec() -> bool {
        false
    }

    open spec fn mul_req(self, rhs: u32) -> bool {
        self.wf() && self.size() < limbs::limb_limit()
    }

    open spec fn mul_spec(self, rhs: u32) -> Integer {
        arbitrary()
    }
}

impl<'a> Mul<u32> for &'a Integer {
    type Output = Integer;

    fn mul(self, rhs: u32) -> (r: Integer)
        ensures
            r.wf(),
            r@ == self@ * rhs,
    {
        proof {
            limbs::lemma_limb_limit();
        }
        let other: Integer = Integer::from(rhs);
        mul_signed(self, &other)
    }
}

impl<'a> MulSpecImpl<u32> for &'a Integer {
    open spec fn obeys_mul_spec() -> bool {
        false
    }

    open spec fn mul_req(self, rhs: u32) -> bool {
        self.wf() && self.size() < limbs::limb_limit()
    }

    open spec fn mul_spec(self, rhs: u32) -> Integer {
        arbitrary()
    }
}

impl Mul<Integer> for u32 {
    type Output = Integer;

    fn mul(self, rhs: Integer) -> (r: Integer)
        ensures
            r.wf(),
            r@ == self * rhs@,
    {
        proof {
            limbs::lemma_limb_limit();
        }
        let other: Integer = Integer::from(self);
        mul_signed(&other, &rhs)
    }
}

impl MulSpecImpl<Integer> for u32 {
    open spec fn obeys_mul_spec() -> bool {
        false
    }

    open spec fn mul_req(self, rhs: Integer) -> bool {
        rhs.wf() && rhs.size() < limbs::limb_limit()
    }

    open spec fn mul_spec(self, rhs: Integer) -> Integer {
        arbitrary()
    }
}

impl<'a> Mul<&'a Integer> for u32 {
    type Output = Integer;

    fn mul(self, rhs: &'a Integer) -> (r: Integer)
        ensures
            r.wf(),
            r@ == self * rhs@,
    {
        proof {
            limbs::lemma_limb_limit();
        }
        let other: Integer = Integer::from(self);
        mul_signed(&other, rhs)
    }
}

impl<'a> MulSpecImpl<&'a Integer> for u32 {
    open spec fn obeys_mul_spec() -> bool {
        false
    }

    open spec fn mul_req(self, rhs: &'a Integer) -> bool {
        rhs.wf() && rhs.size() < limbs::limb_limit()
    }

    open spec fn mul_spec(self, rhs: &'a Integer) -> Integer {
        arbitrary()
    }
}

impl Mul<u64> for Integer {
    type Output = Integer;

    fn mul(self, rhs: u64) -> (r: Integer)
        ensures
            r.wf(),
            r@ == self@ * rhs,
    {
        proof {
            limbs::lemma_limb_limit();
        }
        let other: Integer = Integer::from(rhs);
        mul_signed(&self, &other)
    }
}

impl MulSpecImpl<u64> for Integer {
    open spec fn obeys_mul_spec() -> bool {
        false
    }

    open spec fn mul_req(self, rhs: u64) -> bool {
        self.wf() && self.size() < limbs::limb_limit()
    }

    open spec fn mul_spec(self, rhs: u64) -> Integer {
        arbitrary()
    }
}

impl<'a> Mul<u64> for &'a Integer {
    type Output = Integer;

    fn mul(self, rhs: u64) -> (r: Integer)
        ensures
            r.wf(),
            r@ == self@ * rhs,
    {
        proof {
            limbs::lemma_limb_limit();
        }
        let other: Integer = Integer::from(rhs);
        mul_signed(self, &other)
    }
}

impl<'a> MulSpecImpl<u64> for &'a Integer {
    open spec fn obeys_mul_spec() -> bool {
        false
    }

    open spec fn mul_req(self, rhs: u64) -> bool {
        self.wf() && self.size() < limbs::limb_limit()
    }

    open spec fn mul_spec(self, rhs: u64) -> Integer {
        arbitrary()
    }
}

impl Mul<Integer> for u64 {
    type Output = Integer;

    fn mul(self, rhs: Integer) -> (r: Integer)
        ensures
            r.wf(),
            r@ == self * rhs@,
    {
        proof {
            limbs::lemma_limb_limit();
        }
        let other: Integer = Integer::from(self);
        mul_signed(&other, &rhs)
    }
}

impl MulSpecImpl<Integer> for u64 {
    open spec fn obeys_mul_spec() -> bool {
        false
    }

    open spec fn mul_req(self, rhs: Integer) -> bool {
        rhs.wf() && rhs.size() < limbs::limb_limit()
    }

    open spec fn mul_spec(self, rhs: Integer) -> Integer {
        arbitrary()
    }
}

impl<'a> Mul<&'a Integer> for u64 {
    type Output = Integer;

    fn mul(self, rhs: &'a Integer) -> (r: Integer)
        ensures
            r.wf(),
            r@ == self * rhs@,
    {
        proof {
            limbs::lemma_limb_limit();
        }
        let other: Integer = Integer::from(self);
        mul_signed(&other, rhs)
    }
}

impl<'a> MulSpecImpl<&'a Integer> for u64 {
    open spec fn obeys_mul_spec() -> bool {
        false
    }

    open spec fn mul_req(self, rhs: &'a Integer) -> bool {
        rhs.wf() && rhs.size() < limbs::limb_limit()
    }

    open spec fn mul_spec(self, rhs: &'a Integer) -> Integer {
        arbitrary()
    }
}

impl Div<Integer> for Integer {
    type Output = Integer;

    fn div(self, rhs: Integer) -> (r: Integer)
        ensures
            r.wf(),
            r@ == integer::quotient(self@, rhs@),
    {
        div_signed(&self, &rhs)
    }
}

impl DivSpecImpl<Integer> for Integer {
    open spec fn obeys_div_spec() -> bool {
        false
    }

    open spec fn div_req(self, rhs: Integer) -> bool {
        quotient_exists(self, rhs)
    }

    open spec fn div_spec(self, rhs: Integer) -> Integer {
        arbitrary()
    }
}

impl<'a> Div<&'a Integer> for Integer {
    type Output = Integer;

    fn div(self, rhs: &'a Integer) -> (r: Integer)
        ensures
            r.wf(),
            r@ == integer::quotient(self@, rhs@),
    {
        div_signed(&self, rhs)
    }
}

impl<'a> DivSpecImpl<&'a Integer> for Integer {
    open spec fn obeys_div_spec() -> bool {
        false
    }

    open spec fn div_req(self, rhs: &'a Integer) -> bool {
        quotient_exists(self, *rhs)
    }

    open spec fn div_spec(self, rhs: &'a Integer) -> Integer {
        arbitrary()
    }
}

impl<'a> Div<Integer> for &'a Integer {
    type Output = Integer;

    fn div(self, rhs: Integer) -> (r: Integer)
        ensures
            r.wf(),
            r@ == integer::quotient(self@, rhs@),
    {
        div_signed(self, &rhs)
    }
}

impl<'a> DivSpecImpl<Integer> for &'a Integer {
    open spec fn obeys_div_spec() -> bool {
        false
    }

    open spec fn div_req(self, rhs: Integer) -> bool {
        quotient_exists(*self, rhs)
    }

    open spec fn div_spec(self, rhs: Integer) -> Integer {
        arbitrary()
    }
}

impl<'a, 'b> Div<&'b Integer> for &'a Integer {
    type Output = Integer;

    fn div(self, rhs: &'b Integer) -> (r: Integer)
        ensures
            r.wf(),
            r@ == integer::quotient(self@, rhs@),
    {
        div_signed(self, rhs)
    }
}

impl<'a, 'b> DivSpecImpl<&'b Integer> for &'a Integer {
    open spec fn obeys_div_spec() -> bool {
        false
    }

    open spec fn div_req(self, rhs: &'b Integer) -> bool {
        quotient_exists(*self, *rhs)
    }

    open spec fn div_spec(self, rhs: &'b Integer) -> Integer {
        arbitrary()
    }
}

impl Div<u32> for Integer {
    type Output = Integer;

    fn div(self, rhs: u32) -> (r: Integer)
        ensures
            r.wf(),
            r@ == integer::quotient(self@, rhs as int),
    {
        let other: Integer = Integer::from(rhs);
        div_signed(&self, &other)
    }
}

impl DivSpecImpl<u32> for Integer {
    open spec fn obeys_div_spec() -> bool {
        false
    }

    open spec fn div_req(self, rhs: u32) -> bool {
        self.wf() && rhs != 0
    }

    open spec fn div_spec(self, rhs: u32) -> Integer {
        arbitrary()
    }
}

impl<'a> Div<u32> for &'a Integer {
    type Output = Integer;

    fn div(self, rhs: u32) -> (r: Integer)
        ensures
            r.wf(),
            r@ == integer::quotient(self@, rhs as int),
    {
        let other: Integer = Integer::from(rhs);
        div_signed(self, &other)
    }
}

impl<'a> DivSpecImpl<u32> for &'a Integer {
    open spec fn obeys_div_spec() -> bool {
        false
    }

    open spec fn div_req(self, rhs: u32) -> bool {
        self.wf() && rhs != 0
    }

    open spec fn div_spec(self, rhs: u32) -> Integer {
        arbitrary()
    }
}

impl Div<Integer> for u32 {
    type Output = Integer;

    fn div(self, rhs: Integer) -> (r: Integer)
        ensures
            r.wf(),
            r@ == integer::quotient(self as int, rhs@),
    {
        let other: Integer = Integer::from(self);
        div_signed(&other, &rhs)
    }
}

impl DivSpecImpl<Integer> for u32 {
    open spec fn obeys_div_spec() -> bool {
        false
    }

    open spec fn div_req(self, rhs: Integer) -> bool {
        rhs.wf() && rhs@ != 0
    }

    open spec fn div_spec(self, rhs: Integer) -> Integer {
        arbitrary()
    }
}

impl<'a> Div<&'a Integer> for u32 {
    type Output = Integer;

    fn div(self, rhs: &'a Integer) -> (r: Integer)
        ensures
            r.wf(),
            r@ == integer::quotient(self as int, rhs@),
    {
        let other: Integer = Integer::from(self);
        div_signed(&other, rhs)
    }
}

impl<'a> DivSpecImpl<&'a Integer> for u32 {
    open spec fn obeys_div_spec() -> bool {
        false
    }

    open spec fn div_req(self, rhs: &'a Integer) -> bool {
        rhs.wf() && rhs@ != 0
    }

    open spec fn div_spec(self, rhs: &'a Integer) -> Integer {
        arbitrary()
    }
}

impl Div<u64> for Integer {
    type Output = Integer;

    fn div(self, rhs: u64) -> (r: Integer)
        ensures
            r.wf(),
            r@ == integer::quotient(self@, rhs as int),
    {
        let other: Integer = Integer::from(rhs);
        div_signed(&self, &other)
    }
}

impl DivSpecImpl<u64> for Integer {
    open spec fn obeys_div_spec() -> bool {
        false
    }

    open spec fn div_req(self, rhs: u64) -> bool {
        self.wf() && rhs != 0
    }

    open spec fn div_spec(self, rhs: u64) -> Integer {
        arbitrary()
    }
}

impl<'a> Div<u64> for &'a Integer {
    type Output = Integer;

    fn div(self, rhs: u64) -> (r: Integer)
        ensures
            r.wf(),
            r@ == integer::quotient(self@, rhs as int),
    {
        let other: Integer = Integer::from(rhs);
        div_signed(self, &other)
    }
}

impl<'a> DivSpecImpl<u64> for &'a Integer {
    open spec fn obeys_div_spec() -> bool {
        false
    }

    open spec fn div_req(self, rhs: u64) -> bool {
        self.wf() && rhs != 0
    }

    open spec fn div_spec(self, rhs: u64) -> Integer {
        arbitrary()
    }
}

impl Div<Integer> for u64 {
    type Output = Integer;

    fn div(self, rhs: Integer) -> (r: Integer)
        ensures
            r.wf(),
            r@ == integer::quotient(self as int, rhs@),
    {
        let other: Integer = Integer::from(self);
        div_signed(&other, &rhs)
    }
}

impl DivSpecImpl<Integer> for u64 {
    open spec fn obeys_div_spec() -> bool {
        false
    }

    open spec fn div_req(self, rhs: Integer) -> bool {
        rhs.wf() && rhs@ != 0
    }

    open spec fn div_spec(self, rhs: Integer) -> Integer {
        arbitrary()
    }
}

impl<'a> Div<&'a Integer> for u64 {
    type Output = Integer;

    fn div(self, rhs: &'a Integer) -> (r: Integer)
        ensures
            r.wf(),
            r@ == integer::quotient(self as int, rhs@),
    {
        let other: Integer = Integer::from(self);
        div_signed(&other, rhs)
    }
}

impl<'a> DivSpecImpl<&'a Integer> for u64 {
    open spec fn obeys_div_spec() -> bool {
        false
    }

    open spec fn div_req(self, rhs: &'a Integer) -> bool {
        rhs.wf() && rhs@ != 0
    }

    open spec fn div_spec(self, rhs: &'a Integer) -> Integer {
        arbitrary()
    }
}

impl Rem<Integer> for Integer {
    type Output = Integer;

    fn rem(self, rhs: Integer) -> (r: Integer)
        ensures
            r.wf(),
            r@ == integer::remainder(self@, rhs@),
    {
        rem_signed(&self, &rhs)
    }
}

impl RemSpecImpl<Integer> for Integer {
    open spec fn obeys_rem_spec() -> bool {
        false
    }

    open spec fn rem_req(self, rhs: Integer) -> bool {
        quotient_exists(self, rhs)
    }

    open spec fn rem_spec(self, rhs: Integer) -> Integer {
        arbitrary()
    }
}

impl<'a> Rem<&'a Integer> for Integer {
    type Output = Integer;

    fn rem(self, rhs: &'a Integer) -> (r: Integer)
        ensures
            r.wf(),
            r@ == integer::remainder(self@, rhs@),
    {
        rem_signed(&self, rhs)
    }
}

impl<'a> RemSpecImpl<&'a Integer> for Integer {
    open spec fn obeys_rem_spec() -> bool {
        false
    }

    open spec fn rem_req(self, rhs: &'a Integer) -> bool {
        quotient_exists(self, *rhs)
    }

    open spec fn rem_spec(self, rhs: &'a Integer) -> Integer {
        arbitrary()
    }
}

impl<'a> Rem<Integer> for &'a Integer {
    type Output = Integer;

    fn rem(self, rhs: Integer) -> (r: Integer)
        ensures
            r.wf(),
            r@ == integer::remainder(self@, rhs@),
    {
        rem_signed(self, &rhs)
    }
}

impl<'a> RemSpecImpl<Integer> for &'a Integer {
    open spec fn obeys_rem_spec() -> bool {
        false
    }

    open spec fn rem_req(self, rhs: Integer) -> bool {
        quotient_exists(*self, rhs)
    }

    open spec fn rem_spec(self, rhs: Integer) -> Integer {
        arbitrary()
    }
}

impl<'a, 'b> Rem<&'b Integer> for &'a Integer {
    type Output = Integer;

    fn rem(self, rhs: &'b Integer) -> (r: Integer)
        ensures
            r.wf(),
            r@ == integer::remainder(self@, rhs@),
    {
        rem_signed(self, rhs)
    }
}

impl<'a, 'b> RemSpecImpl<&'b Integer> for &'a Integer {
    open spec fn obeys_rem_spec() -> bool {
        false
    }

    open spec fn rem_req(self, rhs: &'b Integer) -> bool {
        quotient_exists(*self, *rhs)
    }

    open spec fn rem_spec(self, rhs: &'b Integer) -> Integer {
        arbitrary()
    }
}

impl Rem<u32> for Integer {
    type Output = Integer;

    fn rem(self, rhs: u32) -> (r: Integer)
        ensures
            r.wf(),
            r@ == integer::remainder(self@, rhs as int),
    {
        let other: Integer = Integer::from(rhs);
        rem_signed(&self, &other)
    }
}

impl RemSpecImpl<u32> for Integer {
    open spec fn obeys_rem_spec() -> bool {
        false
    }

    open spec fn rem_req(self, rhs: u32) -> bool {
        self.wf() && rhs != 0
    }

    open spec fn rem_spec(self, rhs: u32) -> Integer {
        arbitrary()
    }
}

impl<'a> Rem<u32> for &'a Integer {
    type Output = Integer;

    fn rem(self, rhs: u32) -> (r: Integer)
        ensures
            r.wf(),
            r@ == integer::remainder(self@, rhs as int),
    {
        let other: Integer = Integer::from(rhs);
        rem_signed(self, &other)
    }
}

impl<'a> RemSpecImpl<u32> for &'a Integer {
    open spec fn obeys_rem_spec() -> bool {
        false
    }

    open spec fn rem_req(self, rhs: u32) -> bool {
        self.wf() && rhs != 0
    }

    open spec fn rem_spec(self, rhs: u32) -> Integer {
        arbitrary()
    }
}

impl Rem<Integer> for u32 {
    type Output = Integer;

    fn rem(self, rhs: Integer) -> (r: Integer)
        ensures
            r.wf(),
            r@ == integer::remainder(self as int, rhs@),
    {
        let other: Integer = Integer::from(self);
        rem_signed(&other, &rhs)
    }
}

impl RemSpecImpl<Integer> for u32 {
    open spec fn obeys_rem_spec() -> bool {
        false
    }

    open spec fn rem_req(self, rhs: Integer) -> bool {
        rhs.wf() && rhs@ != 0
    }

    open spec fn rem_spec(self, rhs: Integer) -> Integer {
        arbitrary()
    }
}

impl<'a> Rem<&'a Integer> for u32 {
    type Output = Integer;

    fn rem(self, rhs: &'a Integer) -> (r: Integer)
        ensures
            r.wf(),
            r@ == integer::remainder(self as int, rhs@),
    {
        let other: Integer = Integer::from(self);
        rem_signed(&other, rhs)
    }
}

impl<'a> RemSpecImpl<&'a Integer> for u32 {
    open spec fn obeys_rem_spec() -> bool {
        false
    }

    open spec fn rem_req(self, rhs: &'a Integer) -> bool {
        rhs.wf() && rhs@ != 0
    }

    open spec fn rem_spec(self, rhs: &'a Integer) -> Integer {
        arbitrary()
    }
}

impl Rem<u64> for Integer {
    type Output = Integer;

    fn rem(self, rhs: u64) -> (r: Integer)
        ensures
            r.wf(),
            r@ == integer::remainder(self@, rhs as int),
    {
        let other: Integer = Integer::from(rhs);
        rem_signed(&self, &other)
    }
}

impl RemSpecImpl<u64> for Integer {
    open spec fn obeys_rem_spec() -> bool {
        false
    }

    open spec fn rem_req(self, rhs: u64) -> bool {
        self.wf() && rhs != 0
    }

    open spec fn rem_spec(self, rhs: u64) -> Integer {
        arbitrary()
    }
}

impl<'a> Rem<u64> for &'a Integer {
    type Output = Integer;

    fn rem(self, rhs: u64) -> (r: Integer)
        ensures
            r.wf(),
            r@ == integer::remainder(self@, rhs as int),
    {
        let other: Integer = Integer::from(rhs);
        rem_signed(self, &other)
    }
}

impl<'a> RemSpecImpl<u64> for &'a Integer {
    open spec fn obeys_rem_spec() -> bool {
        false
    }

    open spec fn rem_req(self, rhs: u64) -> bool {
        self.wf() && rhs != 0
    }

    open spec fn rem_spec(self, rhs: u64) -> Integer {
        arbitrary()
    }
}

impl Rem<Integer> for u64 {
    type Output = Integer;

    fn rem(self, rhs: Integer) -> (r: Integer)
        ensures
            r.wf(),
            r@ == integer::remainder(self as int, rhs@),
    {
        let other: Integer = Integer::from(self);
        rem_signed(&other, &rhs)
    }
}

impl RemSpecImpl<Integer> for u64 {
    open spec fn obeys_rem_spec() -> bool {
        false
    }

    open spec fn rem_req(self, rhs: Integer) -> bool {
        rhs.wf() && rhs@ != 0
    }

    open spec fn rem_spec(self, rhs: Integer) -> Integer {
        arbitrary()
    }
}

impl<'a> Rem<&'a Integer> for u64 {
    type Output = Integer;

    fn rem(self, rhs: &'a Integer) -> (r: Integer)
        ensures
            r.wf(),
            r@ == integer::remainder(self as int, rhs@),
    {
        let other: Integer = Integer::from(self);
        rem_signed(&other, rhs)
    }
}

impl<'a> RemSpecImpl<&'a Integer> for u64 {
    open spec fn obeys_rem_spec() -> bool {
        false
    }

    open spec fn rem_req(self, rhs: &'a Integer) -> bool {
        rhs.wf() && rhs@ != 0
    }

    open spec fn rem_spec(self, rhs: &'a Integer) -> Integer {
        arbitrary()
    }
}

impl AddAssign<Integer> for Integer {
    fn add_assign(&mut self, rhs: Integer)
        requires
            sum_fits(*old(self), rhs),
        ensures
            final(self).wf(),
            final(self)@ == old(self)@ + rhs@,
    {
        *self = add_signed(self, &rhs);
    }
}

impl<'a> AddAssign<&'a Integer> for Integer {
    fn add_assign(&mut self, rhs: &'a Integer)
        requires
            sum_fits(*old(self), *rhs),
        ensures
            final(self).wf(),
            final(self)@ == old(self)@ + rhs@,
    {
        *self = add_signed(self, rhs);
    }
}

impl AddAssign<u32> for Integer {
    fn add_assign(&mut self, rhs: u32)
        requires
            old(self).wf(),
            old(self).size() < limbs::limb_limit(),
        ensures
            final(self).wf(),
            final(self)@ == old(self)@ + rhs,
    {
        proof {
            limbs::lemma_limb_limit();
        }
        let other: Integer = Integer::from(rhs);
        *self = add_signed(self, &other);
    }
}

impl SubAssign<Integer> for Integer {
    fn sub_assign(&mut self, rhs: Integer)
        requires
            sum_fits(*old(self), rhs),
        ensures
            final(self).wf(),
            final(self)@ == old(self)@ - rhs@,
    {
        *self = sub_signed(self, &rhs);
    }
}

impl<'a> SubAssign<&'a Integer> for Integer {
    fn sub_assign(&mut self, rhs: &'a Integer)
        requires
            sum_fits(*old(self), *rhs),
        ensures
            final(self).wf(),
            final(self)@ == old(self)@ - rhs@,
    {
        *self = sub_signed(self, rhs);
    }
}

impl SubAssign<u32> for Integer {
    fn sub_assign(&mut self, rhs: u32)
        requires
            old(self).wf(),
            old(self).size() < limbs::limb_limit(),
        ensures
            final(self).wf(),
            final(self)@ == old(self)@ - rhs,
    {
        proof {
            limbs::lemma_limb_limit();
        }
        let other: Integer = Integer::from(rhs);
        *self = sub_signed(self, &other);
    }
}

impl MulAssign<Integer> for Integer {
    fn mul_assign(&mut self, rhs: Integer)
        requires
            product_fits(*old(self), rhs),
        ensures
            final(self).wf(),
            final(self)@ == old(self)@ * rhs@,
    {
        *self = mul_signed(self, &rhs);
    }
}

impl<'a> MulAssign<&'a Integer> for Integer {
    fn mul_assign(&mut self, rhs: &'a Integer)
        requires
            product_fits(*old(self), *rhs),
        ensures
            final(self).wf(),
            final(self)@ == old(self)@ * rhs@,
    {
        *self = mul_signed(self, rhs);
    }
}

impl MulAssign<u32> for Integer {
    fn mul_assign(&mut self, rhs: u32)
        requires
            old(self).wf(),
            old(self).size() < limbs::limb_limit(),
        ensures
            final(self).wf(),
            final(self)@ == old(self)@ * rhs,
    {
        proof {
            limbs::lemma_limb_limit();
        }
        let other: Integer = Integer::from(rhs);
        *self = mul_signed(self, &other);
    }
}

impl ShlAssign<u32> for Integer {
    fn shl_assign(&mut self, n: u32)
        requires
            old(self).wf(),
            old(self).size() + n / 64 + 1 <= limbs::limb_limit(),
        ensures
            final(self).wf(),
            final(self)@ == old(self)@ * pow2(n as nat),
    {
        *self = shl_signed(self, n);
    }
}

impl ShlAssign<i32> for Integer {
    fn shl_assign(&mut self, n: i32)
        requires
            n >= 0,
            old(self).wf(),
            old(self).size() + n / 64 + 1 <= limbs::limb_limit(),
        ensures
            final(self).wf(),
            final(self)@ == old(self)@ * pow2(n as nat),
    {
        *self = shl_signed(self, n as u32);
    }
}

} // verus!
