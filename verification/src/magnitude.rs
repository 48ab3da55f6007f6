//! Comparison, addition, subtraction and shifts of limb magnitudes.
use crate::bitlen;
use crate::limbs;
use core::cmp::Ordering;
use vstd::arithmetic::div_mod::*;
use vstd::arithmetic::mul::*;
use vstd::arithmetic::power2::*;
use vstd::arithmetic::power::*;
use vstd::prelude::*;

verus! {

/// How two integers compare.
pub open spec fn order(x: int, y: int) -> Ordering {
    if x < y {
        Ordering::Less
    } else if x == y {
        Ordering::Equal
    } else {
        Ordering::Greater
    }
}

/// Length of the part below the topmost limb in which `a` and `b` differ, plus
/// that limb; zero where they agree throughout.
fn differing_len(a: &[u64], b: &[u64]) -> (k: usize)
    requires
        a@.len() == b@.len(),
    ensures
        k <= a@.len(),
        a@.skip(k as int) == b@.skip(k as int),
        k > 0 ==> a@[k - 1] != b@[k - 1],
{
    let mut k: usize = a.len();
    assert(a@.skip(k as int) =~= b@.skip(k as int));
    while k > 0 && a[k - 1] == b[k - 1]
        invariant
            k <= a@.len(),
            a@.len() == b@.len(),
            a@.skip(k as int) == b@.skip(k as int),
        decreases k,
    {
        let ghost prev = k as int;
        k = k - 1;
        assert(a@.skip(k as int) =~= seq![a@[k as int]] + a@.skip(prev));
        assert(b@.skip(k as int) =~= seq![b@[k as int]] + b@.skip(prev));
    }
    k
}

/// The topmost differing limb decides which of two equally long values is larger.
proof fn lemma_top_difference(a: Seq<u64>, b: Seq<u64>, k: usize)
    requires
        a.len() == b.len(),
        k <= a.len(),
        a.skip(k as int) == b.skip(k as int),
        k > 0 ==> a[k - 1] != b[k - 1],
    ensures
        k == 0 ==> limbs::value(a) == limbs::value(b),
        k > 0 && a[k - 1] < b[k - 1] ==> limbs::value(a) < limbs::value(b),
        k > 0 && a[k - 1] > b[k - 1] ==> limbs::value(a) > limbs::value(b),
{
    if k == 0 {
        assert(a.skip(0) =~= a);
        assert(b.skip(0) =~= b);
    } else {
        let j = k - 1;
        limbs::lemma_value_split(a, k as int, limbs::base());
        limbs::lemma_value_split(b, k as int, limbs::base());
        limbs::lemma_value_take_next(a, j, limbs::base());
        limbs::lemma_value_take_next(b, j, limbs::base());
        limbs::lemma_limbs_bound(a.take(j));
        limbs::lemma_limbs_bound(b.take(j));
        let p = limbs::weight(j as nat);
        let x = a[j] as int;
        let y = b[j] as int;
        let u = limbs::value(a.take(j));
        let v = limbs::value(b.take(j));
        if x < y {
            assert(u + x * p < v + y * p) by (nonlinear_arith)
                requires
                    0 <= u < p,
                    0 <= v,
                    x + 1 <= y,
            ;
        } else {
            assert(u + x * p > v + y * p) by (nonlinear_arith)
                requires
                    0 <= v < p,
                    0 <= u,
                    y + 1 <= x,
            ;
        }
    }
}

/// A longer normalized magnitude is larger.
proof fn lemma_longer_is_larger(a: Seq<u64>, b: Seq<u64>)
    requires
        limbs::normalized(b),
        a.len() < b.len(),
    ensures
        limbs::value(a) < limbs::value(b),
{
    limbs::lemma_limbs_bound(a);
    limbs::lemma_value_lower(b);
    limbs::lemma_weight_monotone(a.len(), (b.len() - 1) as nat);
}

/// Whether two limb sequences are equal.
pub fn same_limbs(a: &[u64], b: &[u64]) -> (r: bool)
    ensures
        r == (a@ == b@),
{
    if a.len() != b.len() {
        return false;
    }
    let k: usize = differing_len(a, b);
    proof {
        if k == 0 {
            assert(a@.skip(0) =~= a@);
            assert(b@.skip(0) =~= b@);
        }
    }
    k == 0
}

/// Compare two magnitudes, which are to be normalized.
pub fn cmp_mag(a: &[u64], b: &[u64]) -> (r: Ordering)
    ensures
        limbs::normalized(a@) && limbs::normalized(b@) ==> r == order(
            limbs::value(a@),
            limbs::value(b@),
        ),
{
    if a.len() < b.len() {
        proof {
            if limbs::normalized(b@) {
                lemma_longer_is_larger(a@, b@);
            }
        }
        return Ordering::Less;
    }
    if b.len() < a.len() {
        proof {
            if limbs::normalized(a@) {
                lemma_longer_is_larger(b@, a@);
            }
        }
        return Ordering::Greater;
    }
    let k: usize = differing_len(a, b);
    proof {
        lemma_top_difference(a@, b@, k);
    }
    if k == 0 {
        Ordering::Equal
    } else if a[k - 1] < b[k - 1] {
        Ordering::Less
    } else {
        Ordering::Greater
    }
}

/// Limb `i` of `s`, or zero past its end.
pub open spec fn limb_at(s: Seq<u64>, i: int) -> u64 {
    if 0 <= i < s.len() {
        s[i]
    } else {
        0
    }
}

/// Limb `i` of `a`, or zero past its end.
pub fn limb_or_zero(a: &[u64], i: usize) -> (r: u64)
    ensures
        r == limb_at(a@, i as int),
{
    if i < a.len() {
        a[i]
    } else {
        0
    }
}

/// The first `i` limbs of `s`, read as zero past its end.
spec fn padded_value(s: Seq<u64>, i: int) -> int {
    if i <= s.len() {
        limbs::value(s.take(i))
    } else {
        limbs::value(s)
    }
}

proof fn lemma_padded_next(s: Seq<u64>, i: int)
    requires
        0 <= i,
    ensures
        padded_value(s, i + 1) == padded_value(s, i) + limb_at(s, i) * limbs::weight(i as nat),
{
    if i < s.len() {
        limbs::lemma_value_take_next(s, i, limbs::base());
    } else {
        assert(s.take(s.len() as int) =~= s);
        assert(0 * limbs::weight(i as nat) == 0);
    }
}

proof fn lemma_padded_ends(s: Seq<u64>, n: int)
    requires
        n >= s.len(),
    ensures
        padded_value(s, 0) == 0,
        padded_value(s, n) == limbs::value(s),
{
    assert(s.take(0) =~= Seq::<u64>::empty());
    assert(s.take(s.len() as int) =~= s);
}

/// `a + b` on magnitudes, the first at least as long as the second.
fn add_long_short(a: &[u64], b: &[u64]) -> (out: Vec<u64>)
    requires
        a@.len() >= b@.len(),
        a@.len() < usize::MAX,
    ensures
        limbs::value(out@) == limbs::value(a@) + limbs::value(b@),
        a@.len() <= out@.len() <= a@.len() + 1,
        out@.len() > a@.len() ==> out@.last() != 0,
{
    let mut out: Vec<u64> = Vec::new();
    let mut carry: u64 = 0;
    let mut i: usize = 0;
    proof {
        lemma_padded_ends(a@, a@.len() as int);
        lemma_padded_ends(b@, a@.len() as int);
    }
    while i < a.len()
        invariant
            i <= a@.len(),
            out@.len() == i,
            carry <= 1,
            limbs::value(out@) + carry * limbs::weight(i as nat) == padded_value(a@, i as int) + padded_value(
                b@,
                i as int,
            ),
        decreases a@.len() - i,
    {
        let ghost before = out@;
        let ghost carry0 = carry as int;
        let y: u64 = limb_or_zero(b, i);
        let sum: u128 = a[i] as u128 + y as u128 + carry as u128;
        let lo: u64 = limbs::low_limb(sum);
        out.push(lo);
        carry = limbs::high_limb(sum);
        proof {
            lemma_fundamental_div_mod(sum as int, limbs::base());
            limbs::lemma_value_push(before, lo, limbs::base());
            lemma_padded_next(a@, i as int);
            lemma_padded_next(b@, i as int);
            limbs::lemma_weight_step(i as nat);
            let p = limbs::weight(i as nat);
            let x = a@[i as int] as int;
            let yi = y as int;
            let l = lo as int;
            let c = carry as int;
            assert(l * p + c * (limbs::base() * p) == carry0 * p + x * p + yi * p) by (nonlinear_arith)
                requires
                    x + yi + carry0 == limbs::base() * c + l,
            ;
            assert(c <= 1) by (nonlinear_arith)
                requires
                    x + yi + carry0 == limbs::base() * c + l,
                    x < limbs::base(),
                    yi < limbs::base(),
                    carry0 <= 1,
                    l >= 0,
                    limbs::base() == 0x1_0000_0000_0000_0000,
            ;
        }
        i = i + 1;
    }
    if carry > 0 {
        proof {
            limbs::lemma_value_push(out@, carry, limbs::base());
        }
        out.push(carry);
    } else {
        assert(0 * limbs::weight(i as nat) == 0);
    }
    out
}

/// `a + b` on magnitudes.  The sum of normalized magnitudes is normalized.
pub fn add_mag(a: &[u64], b: &[u64]) -> (out: Vec<u64>)
    requires
        a@.len() < usize::MAX,
        b@.len() < usize::MAX,
    ensures
        limbs::value(out@) == limbs::value(a@) + limbs::value(b@),
        limbs::normalized(a@) && limbs::normalized(b@) ==> limbs::normalized(out@),
        out@.len() <= a@.len() + 1 || out@.len() <= b@.len() + 1,
{
    let swap: bool = a.len() < b.len();
    let out: Vec<u64> = if swap { add_long_short(b, a) } else { add_long_short(a, b) };
    proof {
        if limbs::normalized(a@) && limbs::normalized(b@) && out@.len() > 0 && out@.last() == 0 {
            let long = if swap { b@ } else { a@ };
            assert(out@.len() == long.len());
            limbs::lemma_limbs_bound(a@);
            limbs::lemma_limbs_bound(b@);
            limbs::lemma_value_lower(long);
            limbs::lemma_limbs_bound(out@.drop_last());
            assert(0 * limbs::weight((out@.len() - 1) as nat) == 0);
            assert(limbs::value(out@) < limbs::weight((long.len() - 1) as nat));
            assert(false);
        }
    }
    out
}

/// `a - b` on magnitudes with `a >= b`; the result is normalized.
pub fn sub_mag(a: &[u64], b: &[u64]) -> (out: Vec<u64>)
    requires
        limbs::value(b@) <= limbs::value(a@),
    ensures
        limbs::value(out@) == limbs::value(a@) - limbs::value(b@),
        limbs::normalized(out@),
        out@.len() <= a@.len(),
{
    let mut out: Vec<u64> = Vec::new();
    let mut borrow: u64 = 0;
    let mut i: usize = 0;
    proof {
        lemma_padded_ends(a@, a@.len() as int);
        assert(b@.take(0) =~= Seq::<u64>::empty());
    }
    while i < a.len()
        invariant
            i <= a@.len(),
            out@.len() == i,
            borrow <= 1,
            limbs::value(out@) - borrow * limbs::weight(i as nat) == padded_value(a@, i as int) - padded_value(
                b@,
                i as int,
            ),
        decreases a@.len() - i,
    {
        let ghost before = out@;
        let ghost borrow0 = borrow as int;
        let y: u64 = limb_or_zero(b, i);
        let diff: i128 = a[i] as i128 - y as i128 - borrow as i128;
        let digit: u64;
        if diff < 0 {
            digit = (diff + 0x1_0000_0000_0000_0000i128) as u64;
            borrow = 1;
        } else {
            digit = diff as u64;
            borrow = 0;
        }
        out.push(digit);
        proof {
            limbs::lemma_value_push(before, digit, limbs::base());
            lemma_padded_next(a@, i as int);
            lemma_padded_next(b@, i as int);
            limbs::lemma_weight_step(i as nat);
            let p = limbs::weight(i as nat);
            let x = a@[i as int] as int;
            let yi = y as int;
            let d = digit as int;
            let c = borrow as int;
            assert(d * p - c * (limbs::base() * p) == x * p - yi * p - borrow0 * p) by (nonlinear_arith)
                requires
                    x - yi - borrow0 == d - limbs::base() * c,
            ;
        }
        i = i + 1;
    }
    proof {
        let n = a@.len() as int;
        limbs::lemma_limbs_bound(out@);
        let tail = limbs::value(b@) - padded_value(b@, n);
        if n <= b@.len() {
            limbs::lemma_value_split(b@, n, limbs::base());
            limbs::lemma_limbs_bound(b@.skip(n));
            let h = limbs::value(b@.skip(n));
            let p = limbs::weight(n as nat);
            assert(tail == p * h);
            limbs::lemma_weight_positive(n as nat);
            assert(h >= 1 ==> p * h >= p) by (nonlinear_arith)
                requires
                    p >= 1,
            ;
            assert(p * 0 == 0);
        }
        let c = borrow as int;
        assert(c * limbs::weight(n as nat) == if c == 1 { limbs::weight(n as nat) } else { 0 });
    }
    limbs::strip(&mut out);
    out
}

/// In-place `dest += src << (64 * offset)`; `dest` grows where the sum needs it.
pub fn add_at(dest: &mut Vec<u64>, src: &[u64], offset: usize)
    requires
        old(dest)@.len() < usize::MAX,
        offset + src@.len() < usize::MAX,
    ensures
        limbs::value(final(dest)@) == limbs::value(old(dest)@) + limbs::value(src@) * limbs::weight(offset as nat),
        final(dest)@.len() >= old(dest)@.len(),
        final(dest)@.len() <= old(dest)@.len() + 1 || final(dest)@.len() <= offset + src@.len() + 1,
{
    if src.len() == 0 {
        assert(0 * limbs::weight(offset as nat) == 0);
        return;
    }
    let ghost start = dest@;
    if dest.len() < offset + src.len() {
        dest.resize(offset + src.len(), 0);
        proof {
            let ext = dest@.skip(start.len() as int);
            limbs::lemma_value_zeros(ext, limbs::base());
            assert(dest@ =~= start + ext);
            limbs::lemma_value_concat(start, ext, limbs::base());
            assert(limbs::weight(start.len()) * 0 == 0);
        }
    }
    let ghost whole = dest@;
    assert(limbs::value(whole) == limbs::value(start));
    let mut carry: u64 = 0;
    let mut i: usize = 0;
    assert(src@.take(0) =~= Seq::<u64>::empty());
    proof {
        assert(0 * limbs::weight(offset as nat) == 0);
    }
    while i < src.len()
        invariant
            i <= src@.len(),
            carry <= 1,
            dest@.len() == whole.len(),
            offset + src@.len() <= whole.len() < usize::MAX,
            limbs::value(dest@) + carry * limbs::weight((offset + i) as nat) == limbs::value(whole) + limbs::value(
                src@.take(i as int),
            ) * limbs::weight(offset as nat),
        decreases src@.len() - i,
    {
        let ghost before = dest@;
        let ghost carry0 = carry as int;
        let k: usize = offset + i;
        let sum: u128 = dest[k] as u128 + src[i] as u128 + carry as u128;
        let lo: u64 = limbs::low_limb(sum);
        dest.set(k, lo);
        carry = limbs::high_limb(sum);
        proof {
            lemma_fundamental_div_mod(sum as int, limbs::base());
            limbs::lemma_value_update(before, k as int, lo, limbs::base());
            limbs::lemma_value_take_next(src@, i as int, limbs::base());
            limbs::lemma_weight_step(k as nat);
            limbs::lemma_weight_adds(i as nat, offset as nat);
            let p = limbs::weight(k as nat);
            let q = limbs::weight(offset as nat);
            let r = limbs::weight(i as nat);
            let x = before[k as int] as int;
            let y = src@[i as int] as int;
            let l = lo as int;
            let c = carry as int;
            let t = limbs::value(src@.take(i as int));
            assert((l - x) * p + c * (limbs::base() * p) == carry0 * p + y * p) by (nonlinear_arith)
                requires
                    x + y + carry0 == limbs::base() * c + l,
            ;
            assert((t + y * r) * q == t * q + y * p) by (nonlinear_arith)
                requires
                    p == r * q,
            ;
            assert(c <= 1) by (nonlinear_arith)
                requires
                    x + y + carry0 == limbs::base() * c + l,
                    x < limbs::base(),
                    y < limbs::base(),
                    carry0 <= 1,
                    l >= 0,
                    limbs::base() == 0x1_0000_0000_0000_0000,
            ;
        }
        i = i + 1;
    }
    assert(src@.take(src@.len() as int) =~= src@);
    let mut k: usize = offset + src.len();
    let ghost target = limbs::value(whole) + limbs::value(src@) * limbs::weight(offset as nat);
    proof {
        limbs::lemma_limbs_bound(whole);
        limbs::lemma_limbs_bound(src@);
        let s = limbs::value(src@);
        let q = limbs::weight(offset as nat);
        limbs::lemma_weight_positive(offset as nat);
        limbs::lemma_weight_adds(src@.len(), offset as nat);
        limbs::lemma_weight_monotone((src@.len() + offset) as nat, whole.len());
        assert(s * q <= limbs::weight(src@.len()) * q) by (nonlinear_arith)
            requires
                s < limbs::weight(src@.len()),
                q >= 0,
        ;
        limbs::lemma_weight_step(whole.len());
        limbs::lemma_weight_positive(whole.len());
        assert(target < limbs::weight(whole.len() + 1));
    }
    while carry > 0
        invariant
            carry <= 1,
            k <= dest@.len(),
            dest@.len() < usize::MAX || carry == 0 || k < dest@.len(),
            whole.len() <= dest@.len() <= whole.len() + 1,
            whole.len() < usize::MAX,
            dest@.len() == whole.len() + 1 ==> k == dest@.len(),
            limbs::value(dest@) + carry * limbs::weight(k as nat) == target,
            target < limbs::weight(whole.len() + 1),
        decreases whole.len() + 1 - k,
    {
        let ghost prior = dest@;
        proof {
            limbs::lemma_limbs_bound(prior);
            if k == whole.len() + 1 {
                assert(carry * limbs::weight(k as nat) == limbs::weight(k as nat));
                assert(false);
            }
        }
        if dest.len() <= k {
            dest.push(0);
            proof {
                limbs::lemma_value_push(prior, 0, limbs::base());
                assert(0 * limbs::weight(prior.len()) == 0);
            }
        }
        let ghost before = dest@;
        let ghost carry0 = carry as int;
        let sum: u128 = dest[k] as u128 + carry as u128;
        let lo: u64 = limbs::low_limb(sum);
        dest.set(k, lo);
        carry = limbs::high_limb(sum);
        proof {
            lemma_fundamental_div_mod(sum as int, limbs::base());
            limbs::lemma_value_update(before, k as int, lo, limbs::base());
            limbs::lemma_weight_step(k as nat);
            let p = limbs::weight(k as nat);
            let x = before[k as int] as int;
            let l = lo as int;
            let c = carry as int;
            assert((l - x) * p + c * (limbs::base() * p) == carry0 * p) by (nonlinear_arith)
                requires
                    x + carry0 == limbs::base() * c + l,
            ;
            assert(c <= 1) by (nonlinear_arith)
                requires
                    x + carry0 == limbs::base() * c + l,
                    x < limbs::base(),
                    carry0 <= 1,
                    l >= 0,
                    limbs::base() == 0x1_0000_0000_0000_0000,
            ;
        }
        k = k + 1;
    }
    assert(0 * limbs::weight(k as nat) == 0);
}

/// `2^s` as a limb.
pub fn power_of_two(s: u32) -> (r: u64)
    requires
        s < 64,
    ensures
        r == pow2(s as nat),
{
    proof {
        vstd::bits::lemma_u64_pow2_no_overflow(s as nat);
        vstd::bits::lemma_u64_shl_is_mul(1u64, s as u64);
    }
    1u64 << (s as u64)
}

/// Split of a shift into whole limbs and bits.
pub proof fn lemma_shift_split(n: u64)
    ensures
        n % 64 < 64,
        pow2(n as nat) == limbs::weight((n / 64) as nat) * pow2((n % 64) as nat),
{
    limbs::lemma_weight_pow2((n / 64) as nat);
    lemma_pow2_adds(64 * (n / 64) as nat, (n % 64) as nat);
    lemma_fundamental_div_mod(n as int, 64);
}

/// `a * 2^s` in `a.len() + 1` limbs, for a shift of less than a limb.
fn shl_bits(a: &[u64], s: u32) -> (out: Vec<u64>)
    requires
        s < 64,
        a@.len() < usize::MAX,
    ensures
        out@.len() == a@.len() + 1,
        limbs::value(out@) == limbs::value(a@) * pow2(s as nat),
{
    let mut out: Vec<u64> = Vec::new();
    let p: u64 = power_of_two(s);
    let mut carry: u64 = 0;
    let mut i: usize = 0;
    assert(a@.take(0) =~= Seq::<u64>::empty());
    while i < a.len()
        invariant
            i <= a@.len(),
            out@.len() == i,
            p == pow2(s as nat),
            limbs::value(out@) + carry * limbs::weight(i as nat) == limbs::value(a@.take(i as int)) * p,
        decreases a@.len() - i,
    {
        let ghost before = out@;
        let ghost carry0 = carry as int;
        proof {
            limbs::lemma_mul_add_fits(a@[i as int], p, carry, 0);
        }
        let wide: u128 = a[i] as u128 * p as u128 + carry as u128;
        let lo: u64 = limbs::low_limb(wide);
        out.push(lo);
        carry = limbs::high_limb(wide);
        proof {
            lemma_fundamental_div_mod(wide as int, limbs::base());
            limbs::lemma_value_push(before, lo, limbs::base());
            limbs::lemma_value_take_next(a@, i as int, limbs::base());
            limbs::lemma_weight_step(i as nat);
            let w = limbs::weight(i as nat);
            let x = a@[i as int] as int;
            let l = lo as int;
            let c = carry as int;
            let pi = p as int;
            let t = limbs::value(a@.take(i as int));
            assert(l * w + c * (limbs::base() * w) == carry0 * w + x * w * pi) by (nonlinear_arith)
                requires
                    x * pi + carry0 == limbs::base() * c + l,
            ;
            assert((t + x * w) * pi == t * pi + x * w * pi) by (nonlinear_arith);
        }
        i = i + 1;
    }
    proof {
        assert(a@.take(a@.len() as int) =~= a@);
        limbs::lemma_value_push(out@, carry, limbs::base());
    }
    out.push(carry);
    out
}

/// `a * 2^n` on magnitudes.  A normalized magnitude stays normalized.
pub fn shl_mag(a: &[u64], n: u64) -> (out: Vec<u64>)
    requires
        a@.len() + n / 64 < usize::MAX,
    ensures
        limbs::value(out@) == limbs::value(a@) * pow2(n as nat),
        limbs::normalized(a@) ==> limbs::normalized(out@),
        out@.len() <= a@.len() + n / 64 + 1,
{
    if a.len() == 0 || n == 0 {
        proof {
            lemma2_to64();
            assert(0 * pow2(n as nat) == 0);
            assert(limbs::value(a@) * 1 == limbs::value(a@));
        }
        return limbs::copy_limbs(a);
    }
    let limb_shift: usize = (n / 64) as usize;
    let bit_shift: u32 = (n % 64) as u32;
    let mut out: Vec<u64> = vec![0u64; limb_shift];
    let mut high: Vec<u64> = shl_bits(a, bit_shift);
    proof {
        lemma_shift_split(n);
        limbs::lemma_value_zeros(out@, limbs::base());
        limbs::lemma_value_concat(out@, high@, limbs::base());
        let w = limbs::weight(limb_shift as nat);
        let v = limbs::value(a@);
        let p = pow2(bit_shift as nat) as int;
        assert(w * (v * p) == v * (w * p)) by (nonlinear_arith);
    }
    out.append(&mut high);
    limbs::strip(&mut out);
    out
}

/// `low / 2^s` with the `s` low bits of `high` moved in above it.
fn shr_pair(low: u64, high: u64, s: u32) -> (r: u64)
    requires
        s < 64,
    ensures
        pow2(s as nat) * r == low - low % (pow2(s as nat) as u64) + limbs::base() * (high % (pow2(
            s as nat,
        ) as u64)),
{
    let p: u64 = power_of_two(s);
    if s == 0 {
        proof {
            lemma2_to64();
            assert(low % 1u64 == 0 && high % 1u64 == 0);
            assert(1 * low == low);
        }
        return low;
    }
    let q: u64 = power_of_two(64 - s);
    proof {
        lemma_pow2_pos(s as nat);
    }
    let bits: u64 = high % p;
    proof {
        lemma_pow2_adds(s as nat, (64 - s) as nat);
        lemma2_to64();
        lemma_fundamental_div_mod(low as int, p as int);
        let l = low as int / p as int;
        let b = bits as int;
        let pi = p as int;
        let qi = q as int;
        assert(l < qi) by (nonlinear_arith)
            requires
                low == pi * l + low as int % pi,
                low as int % pi >= 0,
                low < pi * qi,
                pi > 0,
        ;
        assert(b * qi + l < pi * qi) by (nonlinear_arith)
            requires
                b + 1 <= pi,
                l < qi,
                b >= 0,
                qi >= 0,
        ;
        assert(0 <= b * qi) by (nonlinear_arith)
            requires
                b >= 0,
                qi >= 0,
        ;
        assert(pi * (l + b * qi) == pi * l + (pi * qi) * b) by (nonlinear_arith);
    }
    low / p + bits * q
}

/// `floor(a / 2^s)` for a shift of less than a limb, in `a.len()` limbs.
fn shr_bits(a: &[u64], s: u32) -> (out: Vec<u64>)
    requires
        s < 64,
    ensures
        out@.len() == a@.len(),
        limbs::value(out@) == limbs::value(a@) / (pow2(s as nat) as int),
{
    let mut out: Vec<u64> = Vec::new();
    let ghost p = pow2(s as nat) as int;
    let ghost rem0 = limb_at(a@, 0) as int % p;
    let mut i: usize = 0;
    proof {
        vstd::bits::lemma_u64_pow2_no_overflow(s as nat);
        assert(a@.take(0) =~= Seq::<u64>::empty());
        limbs::lemma_weight_step(0);
        assert(p * 0 == 0);
    }
    while i < a.len()
        invariant
            i <= a@.len(),
            out@.len() == i,
            s < 64,
            p == pow2(s as nat),
            0 < p < 0x1_0000_0000_0000_0000,
            p * limbs::value(out@) == limbs::value(a@.take(i as int)) - rem0 + (limb_at(a@, i as int) as int % p)
                * limbs::weight(i as nat),
        decreases a@.len() - i,
    {
        let ghost before = out@;
        let next: u64 = if i + 1 < a.len() { a[i + 1] } else { 0 };
        let r: u64 = shr_pair(a[i], next, s);
        out.push(r);
        proof {
            limbs::lemma_value_push(before, r, limbs::base());
            limbs::lemma_value_take_next(a@, i as int, limbs::base());
            limbs::lemma_weight_step(i as nat);
            let w = limbs::weight(i as nat);
            let x = a@[i as int] as int;
            let lx = x % p;
            let ln = next as int % p;
            let ri = r as int;
            let v = limbs::value(before);
            assert(p * (v + ri * w) == p * v + (x - lx) * w + ln * (limbs::base() * w)) by (nonlinear_arith)
                requires
                    p * ri == x - lx + limbs::base() * ln,
            ;
            assert((x - lx) * w + lx * w == x * w) by (nonlinear_arith);
        }
        i = i + 1;
    }
    proof {
        assert(a@.take(a@.len() as int) =~= a@);
        assert(0int % p == 0) by {
            lemma_small_mod(0, p as nat);
        }
        assert(0 * limbs::weight(i as nat) == 0);
        lemma_mod_bound(limb_at(a@, 0) as int, p);
        lemma_mul_is_commutative(p, limbs::value(out@));
        lemma_fundamental_div_mod_converse(limbs::value(a@), p, limbs::value(out@), rem0);
    }
    out
}

/// Dropping whole limbs divides by their weight.
pub proof fn lemma_skip_is_div(a: Seq<u64>, k: int)
    requires
        0 <= k <= a.len(),
    ensures
        limbs::value(a.skip(k)) == limbs::value(a) / limbs::weight(k as nat),
{
    limbs::lemma_value_split(a, k, limbs::base());
    limbs::lemma_limbs_bound(a.take(k));
    lemma_mul_is_commutative(limbs::weight(k as nat), limbs::value(a.skip(k)));
    lemma_fundamental_div_mod_converse(
        limbs::value(a),
        limbs::weight(k as nat),
        limbs::value(a.skip(k)),
        limbs::value(a.take(k)),
    );
}

/// `floor(a / 2^n)` on magnitudes; the result is normalized.
pub fn shr_mag(a: &[u64], n: u64) -> (out: Vec<u64>)
    ensures
        limbs::value(out@) == limbs::value(a@) / (pow2(n as nat) as int),
        limbs::normalized(out@),
        out@.len() <= a@.len(),
{
    let len: u64 = a.len() as u64;
    proof {
        lemma_shift_split(n);
        limbs::lemma_limbs_bound(a@);
        lemma_pow2_pos(n as nat);
    }
    if n / 64 >= len {
        proof {
            limbs::lemma_weight_monotone(a@.len(), (n / 64) as nat);
            lemma_pow2_pos((n % 64) as nat);
            let w = limbs::weight((n / 64) as nat);
            let p = pow2((n % 64) as nat) as int;
            limbs::lemma_weight_positive((n / 64) as nat);
            assert(w <= w * p) by (nonlinear_arith)
                requires
                    w >= 1,
                    p >= 1,
            ;
            lemma_basic_div(limbs::value(a@), pow2(n as nat) as int);
        }
        return Vec::new();
    }
    let limb_shift: usize = (n / 64) as usize;
    let bit_shift: u32 = (n % 64) as u32;
    let top: &[u64] = vstd::slice::slice_subrange(a, limb_shift, a.len());
    let mut out: Vec<u64> = shr_bits(top, bit_shift);
    proof {
        assert(top@ =~= a@.skip(limb_shift as int));
        lemma_skip_is_div(a@, limb_shift as int);
        let w = limbs::weight(limb_shift as nat);
        let p = pow2(bit_shift as nat) as int;
        limbs::lemma_weight_positive(limb_shift as nat);
        lemma_pow2_pos(bit_shift as nat);
        lemma_div_denominator(limbs::value(a@), w, p);
    }
    limbs::strip(&mut out);
    out
}

/// A shift to the right takes back a shift to the left.
pub proof fn law_shift_back(a: Seq<u64>, n: nat, left: Seq<u64>, back: Seq<u64>)
    requires
        limbs::normalized(a),
        limbs::value(left) == limbs::value(a) * pow2(n),
        limbs::value(back) == limbs::value(left) / (pow2(n) as int),
        limbs::normalized(back),
    ensures
        back == a,
{
    lemma_pow2_pos(n);
    limbs::lemma_limbs_bound(a);
    lemma_div_by_multiple(limbs::value(a), pow2(n) as int);
    limbs::lemma_normalized_unique(back, a);
}

/// A shift to the right by all bits leaves nothing.
pub proof fn law_shift_out(a: Seq<u64>, n: nat, out: Seq<u64>)
    requires
        bitlen::bit_len(limbs::value(a)) <= n,
        limbs::value(out) == limbs::value(a) / (pow2(n) as int),
        limbs::normalized(out),
    ensures
        out.len() == 0,
{
    let v = limbs::value(a);
    limbs::lemma_limbs_bound(a);
    bitlen::lemma_bit_len(v);
    if bitlen::bit_len(v) < n {
        lemma_pow2_strictly_increases(bitlen::bit_len(v), n);
    }
    lemma_basic_div(v, pow2(n) as int);
    limbs::lemma_normalized_unique(out, Seq::empty());
}

/// The order of two numbers.
pub proof fn law_order(x: int, y: int)
    ensures
        order(x, y) == Ordering::Less <==> x < y,
        order(x, y) == Ordering::Equal <==> x == y,
        order(x, y) == Ordering::Greater <==> x > y,
{
}

} // verus!
