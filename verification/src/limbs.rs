//! The value of a little-endian digit sequence, and the facts about it that
//! every limb algorithm of the crate rests on.
use vstd::arithmetic::div_mod::*;
use vstd::arithmetic::mul::*;
use vstd::arithmetic::power2::*;
use vstd::arithmetic::power::*;
use vstd::prelude::*;

verus! {

/// The limb base, `2^64`.
pub const LIMB_BASE: u128 = 0x1_0000_0000_0000_0000;

/// Largest number of limbs a magnitude may hold.  A vector of this many limbs
/// occupies `2^55` bytes, or `2^30` where pointers have 32 bits: neither fits
/// a machine's address space next to anything else.
pub open spec fn limb_limit() -> int {
    if usize::MAX <= 0xffff_ffff {
        0x0800_0000
    } else {
        0x0010_0000_0000_0000
    }
}

pub proof fn lemma_limb_limit()
    ensures
        0x0800_0000 <= limb_limit() <= 0x0010_0000_0000_0000,
        16 * limb_limit() <= usize::MAX,
        64 * limb_limit() <= 0x0400_0000_0000_0000,
{
}

/// The largest number of limbs on this machine.
pub fn max_limbs() -> (r: u64)
    ensures
        r == limb_limit(),
{
    if usize::MAX as u64 <= 0xffff_ffffu64 {
        0x0800_0000
    } else {
        0x0010_0000_0000_0000
    }
}

/// The limb base as a mathematical integer.
pub open spec fn base() -> int {
    0x1_0000_0000_0000_0000
}

/// Value of the digits `s`, least significant first, in base `b`.
pub open spec fn digits_value(s: Seq<u64>, b: int) -> int
    decreases s.len(),
{
    if s.len() == 0 {
        0
    } else {
        digits_value(s.drop_last(), b) + s.last() * pow(b, (s.len() - 1) as nat)
    }
}

/// Value of a limb sequence, least significant limb first.
pub open spec fn value(s: Seq<u64>) -> int {
    digits_value(s, base())
}

/// `2^(64 * k)`, the weight of limb `k`.
pub open spec fn weight(k: nat) -> int {
    pow(base(), k)
}

/// No most-significant zero limb.
pub open spec fn normalized(s: Seq<u64>) -> bool {
    s.len() > 0 ==> s.last() != 0
}

/// `out` is the product of `a` and `b`, without a most-significant zero limb.
pub open spec fn is_product(out: Seq<u64>, a: Seq<u64>, b: Seq<u64>) -> bool {
    &&& value(out) == value(a) * value(b)
    &&& normalized(out)
}

/// Every digit is below `b`.
pub open spec fn digits_below(s: Seq<u64>, b: int) -> bool {
    forall|i: int| 0 <= i < s.len() ==> (#[trigger] s[i]) < b
}

pub proof fn lemma_value_push(s: Seq<u64>, x: u64, b: int)
    ensures
        digits_value(s.push(x), b) == digits_value(s, b) + x * pow(b, s.len()),
{
    assert(s.push(x).drop_last() =~= s);
}

pub proof fn lemma_value_concat(s: Seq<u64>, t: Seq<u64>, b: int)
    ensures
        digits_value(s + t, b) == digits_value(s, b) + pow(b, s.len()) * digits_value(t, b),
    decreases t.len(),
{
    if t.len() == 0 {
        assert(s + t =~= s);
        assert(pow(b, s.len()) * 0 == 0);
    } else {
        lemma_value_concat(s, t.drop_last(), b);
        assert((s + t).drop_last() =~= s + t.drop_last());
        let n: nat = s.len();
        let k: nat = (t.len() - 1) as nat;
        lemma_pow_adds(b, n, k);
        let p = pow(b, n);
        let q = pow(b, k);
        let d = digits_value(t.drop_last(), b);
        let x = t.last() as int;
        assert(x * (p * q) + p * d == p * (d + x * q)) by (nonlinear_arith);
    }
}

pub proof fn lemma_value_split(s: Seq<u64>, k: int, b: int)
    requires
        0 <= k <= s.len(),
    ensures
        digits_value(s, b) == digits_value(s.take(k), b) + pow(b, k as nat) * digits_value(
            s.skip(k),
            b,
        ),
{
    lemma_value_concat(s.take(k), s.skip(k), b);
    assert(s.take(k) + s.skip(k) =~= s);
}

pub proof fn lemma_value_take_next(s: Seq<u64>, k: int, b: int)
    requires
        0 <= k < s.len(),
    ensures
        digits_value(s.take(k + 1), b) == digits_value(s.take(k), b) + s[k] * pow(b, k as nat),
{
    assert(s.take(k + 1).drop_last() =~= s.take(k));
}

pub proof fn lemma_value_skip_next(s: Seq<u64>, k: int, b: int)
    requires
        0 <= k < s.len(),
    ensures
        digits_value(s.skip(k), b) == s[k] + b * digits_value(s.skip(k + 1), b),
{
    let t = s.skip(k);
    lemma_value_split(t, 1, b);
    assert(t.skip(1) =~= s.skip(k + 1));
    lemma_value_take_next(t, 0, b);
    assert(t.take(0) =~= Seq::<u64>::empty());
    lemma_pow0(b);
    lemma_pow1(b);
    assert(t[0] == s[k]);
}

pub proof fn lemma_value_bound(s: Seq<u64>, b: int)
    requires
        b >= 1,
        digits_below(s, b),
    ensures
        0 <= digits_value(s, b) < pow(b, s.len()),
    decreases s.len(),
{
    if s.len() == 0 {
        lemma_pow0(b);
    } else {
        let t = s.drop_last();
        assert(digits_below(t, b)) by {
            assert forall|i: int| 0 <= i < t.len() implies (#[trigger] t[i]) < b by {
                assert(t[i] == s[i]);
            }
        }
        lemma_value_bound(t, b);
        let n: nat = (s.len() - 1) as nat;
        lemma_pow_adds(b, n, 1);
        lemma_pow1(b);
        let p = pow(b, n);
        let x = s.last() as int;
        assert(s[s.len() - 1] < b);
        assert(0 <= x * p && x * p + p <= p * b) by (nonlinear_arith)
            requires
                0 <= x < b,
                p >= 0,
        ;
    }
}

pub proof fn lemma_limbs_bound(s: Seq<u64>)
    ensures
        0 <= value(s) < weight(s.len()),
{
    assert(digits_below(s, base()));
    lemma_value_bound(s, base());
}

pub proof fn lemma_weight_positive(k: nat)
    ensures
        weight(k) >= 1,
{
    lemma_pow_positive(base(), k);
}

pub proof fn lemma_weight_step(k: nat)
    ensures
        weight(k + 1) == base() * weight(k),
        weight(0) == 1,
        weight(1) == base(),
{
    reveal(pow);
    lemma_pow0(base());
    lemma_pow1(base());
    lemma_pow_adds(base(), 1, k);
}

pub proof fn lemma_weight_adds(j: nat, k: nat)
    ensures
        weight(j + k) == weight(j) * weight(k),
{
    lemma_pow_adds(base(), j, k);
}

pub proof fn lemma_weight_monotone(j: nat, k: nat)
    requires
        j <= k,
    ensures
        weight(j) <= weight(k),
{
    lemma_pow_increases(base() as nat, j, k);
}

pub proof fn lemma_value_zeros(s: Seq<u64>, b: int)
    requires
        forall|i: int| 0 <= i < s.len() ==> (#[trigger] s[i]) == 0,
    ensures
        digits_value(s, b) == 0,
    decreases s.len(),
{
    if s.len() > 0 {
        let t = s.drop_last();
        assert forall|i: int| 0 <= i < t.len() implies (#[trigger] t[i]) == 0 by {
            assert(t[i] == s[i]);
        }
        lemma_value_zeros(t, b);
        assert(s[s.len() - 1] == 0);
        assert(0 * pow(b, (s.len() - 1) as nat) == 0);
    }
}

pub proof fn lemma_value_update(s: Seq<u64>, k: int, x: u64, b: int)
    requires
        0 <= k < s.len(),
    ensures
        digits_value(s.update(k, x), b) == digits_value(s, b) + (x - s[k]) * pow(b, k as nat),
    decreases s.len(),
{
    let t = s.update(k, x);
    let n = s.len() - 1;
    if k == n {
        assert(t.drop_last() =~= s.drop_last());
        let p = pow(b, n as nat);
        let y = s[k] as int;
        let xi = x as int;
        assert(xi * p == y * p + (xi - y) * p) by (nonlinear_arith);
    } else {
        assert(t.drop_last() =~= s.drop_last().update(k, x));
        lemma_value_update(s.drop_last(), k, x, b);
        assert(t.last() == s.last());
    }
}

/// A normalized sequence is at least as large as the weight of its top limb.
pub proof fn lemma_value_lower(s: Seq<u64>)
    requires
        s.len() > 0,
        s.last() != 0,
    ensures
        value(s) >= weight((s.len() - 1) as nat),
        value(s) >= 1,
{
    lemma_limbs_bound(s.drop_last());
    lemma_weight_positive((s.len() - 1) as nat);
    let p = weight((s.len() - 1) as nat);
    let x = s.last() as int;
    assert(x * p >= p) by (nonlinear_arith)
        requires
            x >= 1,
            p >= 1,
    ;
}

/// Digit sequences of one length with one value are equal.
pub proof fn lemma_value_injective(s: Seq<u64>, t: Seq<u64>, b: int)
    requires
        b >= 1,
        s.len() == t.len(),
        digits_below(s, b),
        digits_below(t, b),
        digits_value(s, b) == digits_value(t, b),
    ensures
        s == t,
    decreases s.len(),
{
    if s.len() > 0 {
        let n: nat = (s.len() - 1) as nat;
        let s1 = s.drop_last();
        let t1 = t.drop_last();
        assert(digits_below(s1, b)) by {
            assert forall|i: int| 0 <= i < s1.len() implies (#[trigger] s1[i]) < b by {
                assert(s1[i] == s[i]);
            }
        }
        assert(digits_below(t1, b)) by {
            assert forall|i: int| 0 <= i < t1.len() implies (#[trigger] t1[i]) < b by {
                assert(t1[i] == t[i]);
            }
        }
        lemma_value_bound(s1, b);
        lemma_value_bound(t1, b);
        let p = pow(b, n);
        let u = digits_value(s1, b);
        let v = digits_value(t1, b);
        let x = s.last() as int;
        let y = t.last() as int;
        assert(x == y) by (nonlinear_arith)
            requires
                u + x * p == v + y * p,
                0 <= u < p,
                0 <= v < p,
        ;
        lemma_value_injective(s1, t1, b);
        assert(s =~= s1.push(s.last()));
        assert(t =~= t1.push(t.last()));
    } else {
        assert(s =~= t);
    }
}

/// Normalized limb sequences with one value are equal.
pub proof fn lemma_normalized_unique(s: Seq<u64>, t: Seq<u64>)
    requires
        normalized(s),
        normalized(t),
        value(s) == value(t),
    ensures
        s == t,
{
    lemma_limbs_bound(s);
    lemma_limbs_bound(t);
    if s.len() < t.len() {
        lemma_value_lower(t);
        lemma_weight_monotone(s.len(), (t.len() - 1) as nat);
    } else if t.len() < s.len() {
        lemma_value_lower(s);
        lemma_weight_monotone(t.len(), (s.len() - 1) as nat);
    }
    assert(digits_below(s, base()));
    assert(digits_below(t, base()));
    lemma_value_injective(s, t, base());
}

/// The weight of limb `k` as a power of two.
pub proof fn lemma_weight_pow2(k: nat)
    ensures
        weight(k) == pow2(64 * k),
    decreases k,
{
    if k == 0 {
        lemma_pow0(base());
        lemma2_to64();
    } else {
        lemma_weight_pow2((k - 1) as nat);
        lemma_weight_step((k - 1) as nat);
        lemma_pow2_adds(64, 64 * (k - 1) as nat);
        lemma2_to64();
    }
}

/// Low limb of a double limb.
pub fn low_limb(x: u128) -> (r: u64)
    ensures
        r as int == x as int % base(),
{
    let r: u64 = x as u64;
    assert(r as u128 == x % 0x1_0000_0000_0000_0000u128) by (bit_vector)
        requires
            r == x as u64,
    ;
    r
}

/// High limb of a double limb.
pub fn high_limb(x: u128) -> (r: u64)
    ensures
        r as int == x as int / base(),
{
    let h: u128 = x >> 64u128;
    assert(h == x / 0x1_0000_0000_0000_0000u128 && h < 0x1_0000_0000_0000_0000u128) by (bit_vector)
        requires
            h == x >> 64u128,
    ;
    h as u64
}

/// The double limb with the given halves.
pub fn join_limbs(high: u64, low: u64) -> (r: u128)
    ensures
        r as int == high as int * base() + low as int,
{
    let h: u128 = high as u128;
    let l: u128 = low as u128;
    let r: u128 = (h << 64u128) | l;
    assert(r == h * 0x1_0000_0000_0000_0000u128 + l) by (bit_vector)
        requires
            r == (h << 64u128) | l,
            h < 0x1_0000_0000_0000_0000u128,
            l < 0x1_0000_0000_0000_0000u128,
    ;
    r
}

/// A product of two limbs plus two limbs fits a double limb.
pub proof fn lemma_mul_add_fits(a: u64, b: u64, c: u64, d: u64)
    ensures
        a * b + c + d <= 0xffff_ffff_ffff_ffff_ffff_ffff_ffff_ffff,
        a * b <= 0xffff_ffff_ffff_ffff_ffff_ffff_ffff_ffff,
{
    assert(a * b <= 0xffff_ffff_ffff_ffff * 0xffff_ffff_ffff_ffff) by (nonlinear_arith)
        requires
            0 <= a <= 0xffff_ffff_ffff_ffff,
            0 <= b <= 0xffff_ffff_ffff_ffff,
    ;
}

/// The full product of two limbs.
pub fn mul_wide(a: u64, b: u64) -> (r: u128)
    ensures
        r == a * b,
{
    proof {
        lemma_mul_add_fits(a, b, 0, 0);
    }
    a as u128 * b as u128
}

/// A vector with the limbs of `a`.
pub fn copy_limbs(a: &[u64]) -> (out: Vec<u64>)
    ensures
        out@ == a@,
{
    let mut out: Vec<u64> = Vec::new();
    out.extend_from_slice(a);
    assert(out@ =~= a@);
    out
}

/// Drop the most-significant zero limbs.
pub fn strip(v: &mut Vec<u64>)
    ensures
        normalized(final(v)@),
        value(final(v)@) == value(old(v)@),
        final(v)@.len() <= old(v)@.len(),
        final(v)@ == old(v)@.take(final(v)@.len() as int),
{
    let ghost before = v@;
    assert(before.take(before.len() as int) =~= before);
    while v.len() > 0 && v[v.len() - 1] == 0
        invariant
            v@.len() <= before.len(),
            v@ == before.take(v@.len() as int),
            value(v@) == value(before),
        decreases v@.len(),
    {
        let ghost cur = v@;
        v.pop();
        proof {
            assert(v@ =~= cur.drop_last());
            assert(0 * weight((cur.len() - 1) as nat) == 0);
            assert(v@ =~= before.take(v@.len() as int));
        }
    }
}

/// There is one product: whatever the method and the order of the factors, the
/// limbs are the same, and there are none where a factor has none.
pub proof fn law_one_product(a: Seq<u64>, b: Seq<u64>, x: Seq<u64>, y: Seq<u64>)
    requires
        is_product(x, a, b),
        is_product(y, a, b) || is_product(y, b, a),
    ensures
        x == y,
        a.len() == 0 || b.len() == 0 ==> x.len() == 0,
{
    lemma_mul_is_commutative(value(a), value(b));
    lemma_normalized_unique(x, y);
    if a.len() == 0 || b.len() == 0 {
        lemma_mul_basics(value(a));
        lemma_mul_basics(value(b));
        lemma_normalized_unique(x, Seq::empty());
    }
}

/// Limbs are the digits of their value in base `2^64`, the least significant first.
pub proof fn law_limbs(s: Seq<u64>)
    ensures
        0 <= value(s) < pow(18_446_744_073_709_551_616, s.len()),
        forall|i: int|
            0 <= i < s.len() ==> (value(s) / pow(18_446_744_073_709_551_616, i as nat))
                % 18_446_744_073_709_551_616 == #[trigger] s[i],
        normalized(s) <==> s.len() == 0 || value(s) >= pow(
            18_446_744_073_709_551_616,
            (s.len() - 1) as nat,
        ),
    decreases s.len(),
{
    let b = base();
    lemma_limbs_bound(s);
    if s.len() > 0 {
        let k = (s.len() - 1) as nat;
        let t = s.drop_last();
        let w = pow(b, k);
        let v = value(t);
        let x = s.last() as int;
        law_limbs(t);
        lemma_pow_positive(b, k);
        assert(value(s) == v + x * w);
        assert((v + x * w) / w == x) by {
            lemma_fundamental_div_mod_converse(v + x * w, w, x, v);
        }
        assert(x == 0 ==> x * w == 0) by (nonlinear_arith);
        assert(x >= 1 ==> x * w >= w) by (nonlinear_arith)
            requires
                w > 0,
        ;
        assert forall|i: int| 0 <= i < s.len() implies (value(s) / pow(b, i as nat)) % b
            == #[trigger] s[i] by {
            if i < k {
                let p = pow(b, i as nat);
                let j = (k - i) as nat;
                lemma_pow_positive(b, i as nat);
                lemma_pow_adds(b, i as nat, j);
                lemma_pow_adds(b, 1, (j - 1) as nat);
                lemma_pow1(b);
                let c = pow(b, (j - 1) as nat);
                assert(x * w == (x * (b * c)) * p) by (nonlinear_arith)
                    requires
                        w == p * (b * c),
                ;
                lemma_hoist_over_denominator(v, x * (b * c), p as nat);
                assert(x * (b * c) == b * (x * c)) by (nonlinear_arith);
                lemma_mod_multiples_vanish(x * c, v / p, b);
                assert(s[i] == t[i]);
            } else {
                lemma_small_mod(x as nat, b as nat);
            }
        }
    } else {
        lemma_pow0(b);
    }
}

/// Digits in any base are the coefficients of a polynomial in the base, the
/// constant one first.
pub proof fn law_polynomial(x: u64, s: Seq<u64>, b: int)
    ensures
        digits_value(Seq::<u64>::empty(), b) == 0,
        digits_value(seq![x] + s, b) == x + b * digits_value(s, b),
        base() == 18_446_744_073_709_551_616,
{
    lemma_value_concat(seq![x], s, b);
    lemma_pow1(b);
    lemma_pow0(b);
    let one = seq![x];
    assert(one.drop_last() =~= Seq::<u64>::empty());
    assert(digits_value(one.drop_last(), b) == 0);
    assert(one.last() == x);
    assert(digits_value(one, b) == x * pow(b, 0));
    assert(x * pow(b, 0) == x) by (nonlinear_arith)
        requires
            pow(b, 0) == 1,
    ;
}

/// The room for limbs: `2^52` of them where pointers have 64 bits, and `2^27` where
/// they have 32.
pub proof fn law_limb_limit()
    ensures
        usize::BITS == 64 ==> limb_limit() == 4_503_599_627_370_496,
        usize::BITS == 32 ==> limb_limit() == 134_217_728,
{
}

} // verus!
