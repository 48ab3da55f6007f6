//! Conversions to floating-point numbers that choose the precision: 64 bits,
//! or as many as an integer has.
use crate::bitlen;
use crate::float::Float;
use crate::integer;
use crate::integer::Integer;
use crate::limbs;
use vstd::arithmetic::power2::*;
use vstd::prelude::*;

verus! {

/// `f` is the integer `v` itself, with `prec` bits of precision.
pub open spec fn is_integer_float(f: Float, v: int, prec: int) -> bool {
    &&& f.wf()
    &&& f.prec == prec
    &&& f.sign == (v < 0)
    &&& f.mantissa@ == integer::abs(v)
    &&& f.exp == 0
}

/// The bits that an integer is given: at least 64.
pub open spec fn bits_for(v: int) -> int {
    let bits = bitlen::bit_len(integer::abs(v));
    if bits > 64 {
        bits as int
    } else {
        64
    }
}

impl From<u64> for Float {
    fn from(v: u64) -> (r: Self)
        ensures
            is_integer_float(r, v as int, 64),
    {
        proof {
            lemma2_to64();
            bitlen::lemma_bit_len_at_most(v as int, 64);
        }
        Float { prec: 64, sign: false, mantissa: Integer::from(v), exp: 0 }
    }
}

impl vstd::std_specs::convert::FromSpecImpl<u64> for Float {
    open spec fn obeys_from_spec() -> bool {
        false
    }

    open spec fn from_spec(v: u64) -> Self {
        arbitrary()
    }
}

impl From<u32> for Float {
    fn from(v: u32) -> (r: Self)
        ensures
            is_integer_float(r, v as int, 64),
    {
        Float::from(v as u64)
    }
}

impl vstd::std_specs::convert::FromSpecImpl<u32> for Float {
    open spec fn obeys_from_spec() -> bool {
        false
    }

    open spec fn from_spec(v: u32) -> Self {
        arbitrary()
    }
}

impl From<i64> for Float {
    fn from(v: i64) -> (r: Self)
        ensures
            is_integer_float(r, v as int, 64),
    {
        let magnitude: u64 = if v < 0 { (-(v as i128)) as u64 } else { v as u64 };
        let mut f: Float = Float::from(magnitude);
        f.sign = v < 0;
        f
    }
}

impl vstd::std_specs::convert::FromSpecImpl<i64> for Float {
    open spec fn obeys_from_spec() -> bool {
        false
    }

    open spec fn from_spec(v: i64) -> Self {
        arbitrary()
    }
}

impl From<i32> for Float {
    fn from(v: i32) -> (r: Self)
        ensures
            is_integer_float(r, v as int, 64),
    {
        Float::from(v as i64)
    }
}

impl vstd::std_specs::convert::FromSpecImpl<i32> for Float {
    open spec fn obeys_from_spec() -> bool {
        false
    }

    open spec fn from_spec(v: i32) -> Self {
        arbitrary()
    }
}

impl From<Integer> for Float {
    fn from(v: Integer) -> (r: Self)
        ensures
            v.wf() ==> is_integer_float(r, v@, bits_for(v@)),
    {
        let bits: u64 = v.bits();
        let prec: u64 = if bits > 64 { bits } else { 64 };
        let sign: bool = v.negative;
        let limbs: Vec<u64> = v.limbs;
        proof {
            if v.wf() {
                integer::lemma_zero(v);
                limbs::lemma_limb_limit();
            }
        }
        Float { prec, sign, mantissa: Integer { limbs, negative: false }, exp: 0 }
    }
}

impl vstd::std_specs::convert::FromSpecImpl<Integer> for Float {
    open spec fn obeys_from_spec() -> bool {
        false
    }

    open spec fn from_spec(v: Integer) -> Self {
        arbitrary()
    }
}

impl<'a> From<&'a Integer> for Float {
    fn from(v: &'a Integer) -> (r: Self)
        ensures
            v.wf() ==> is_integer_float(r, v@, bits_for(v@)),
    {
        let copy: Integer = Clone::clone(v);
        Float::from(copy)
    }
}

impl<'a> vstd::std_specs::convert::FromSpecImpl<&'a Integer> for Float {
    open spec fn obeys_from_spec() -> bool {
        false
    }

    open spec fn from_spec(v: &'a Integer) -> Self {
        arbitrary()
    }
}

impl<'a> From<&'a Float> for Float {
    fn from(v: &'a Float) -> (r: Self)
        ensures
            r.prec == v.prec,
            r.sign == v.sign,
            r.mantissa.limbs@ == v.mantissa.limbs@,
            r.mantissa.negative == v.mantissa.negative,
            r.exp == v.exp,
            r.val() == v.val(),
            v.wf() ==> r.wf(),
    {
        Clone::clone(v)
    }
}

impl<'a> vstd::std_specs::convert::FromSpecImpl<&'a Float> for Float {
    open spec fn obeys_from_spec() -> bool {
        false
    }

    open spec fn from_spec(v: &'a Float) -> Self {
        arbitrary()
    }
}

/// An integer takes as many bits as it has, but 64 at least, and keeps its value.
pub proof fn law_integer_float(f: Float, v: int, prec: int)
    requires
        is_integer_float(f, v, prec),
    ensures
        f.prec == prec,
        f.sign <==> v < 0,
        f.mantissa@ == v || f.mantissa@ == -v,
        f.mantissa@ >= 0,
        f.exp == 0,
        bits_for(v) >= 64,
        bits_for(v) >= bitlen::bit_len(f.mantissa@),
        bits_for(v) == 64 || bits_for(v) == bitlen::bit_len(f.mantissa@),
{
}

} // verus!
