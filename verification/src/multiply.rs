//! Products of limb magnitudes: long multiplication and Karatsuba splitting.
use crate::limbs;
use crate::limbs::{high_limb, low_limb, strip};
use crate::magnitude::{add_at, add_mag, sub_mag};
use crate::ntt_mul::mul_mag_ntt;
use vstd::arithmetic::div_mod::*;
use vstd::arithmetic::mul::*;
use vstd::prelude::*;

verus! {

/// Below this many limbs in the smaller operand, long multiplication is used.
pub const KARATSUBA_THRESHOLD: usize = 32;

/// From this many limbs in the smaller operand on, the three products of a
/// Karatsuba step run on separate workers.
pub const PARALLEL_KARATSUBA_THRESHOLD: usize = 512;

/// From this many limbs in the smaller operand on, the transform is used.
pub const NTT_THRESHOLD: usize = 8192;

/// Add `x * b` to `out` at limb `i`, carrying into the limbs above.
fn accumulate_row(out: &mut Vec<u64>, x: u64, b: &[u64], i: usize)
    requires
        i + b@.len() <= old(out)@.len(),
        limbs::value(old(out)@) + x * limbs::value(b@) * limbs::weight(i as nat) < limbs::weight(old(out)@.len()),
    ensures
        final(out)@.len() == old(out)@.len(),
        limbs::value(final(out)@) == limbs::value(old(out)@) + x * limbs::value(b@) * limbs::weight(i as nat),
{
    let n: usize = out.len();
    let ghost start = out@;
    let ghost target = limbs::value(start) + x * limbs::value(b@) * limbs::weight(i as nat);
    let mut carry: u64 = 0;
    let mut j: usize = 0;
    proof {
        assert(b@.take(0) =~= Seq::<u64>::empty());
        assert(x * 0 == 0);
        assert(0 * limbs::weight(i as nat) == 0);
    }
    while j < b.len()
        invariant
            j <= b@.len(),
            out@.len() == start.len() == n,
            i + b@.len() <= start.len(),
            limbs::value(out@) + carry * limbs::weight((i + j) as nat) == limbs::value(start) + x * limbs::value(
                b@.take(j as int),
            ) * limbs::weight(i as nat),
        decreases b@.len() - j,
    {
        let ghost before = out@;
        let ghost carry0 = carry as int;
        let k: usize = i + j;
        proof {
            limbs::lemma_mul_add_fits(x, b@[j as int], out@[k as int], carry);
        }
        let cur: u128 = out[k] as u128 + x as u128 * b[j] as u128 + carry as u128;
        let lo: u64 = low_limb(cur);
        out.set(k, lo);
        carry = high_limb(cur);
        proof {
            lemma_fundamental_div_mod(cur as int, limbs::base());
            limbs::lemma_value_update(before, k as int, lo, limbs::base());
            limbs::lemma_value_take_next(b@, j as int, limbs::base());
            limbs::lemma_weight_step(k as nat);
            limbs::lemma_weight_adds(j as nat, i as nat);
            let p = limbs::weight(k as nat);
            let q = limbs::weight(i as nat);
            let r = limbs::weight(j as nat);
            let o = before[k as int] as int;
            let y = b@[j as int] as int;
            let xi = x as int;
            let l = lo as int;
            let c = carry as int;
            let t = limbs::value(b@.take(j as int));
            assert((l - o) * p + c * (limbs::base() * p) == carry0 * p + xi * y * p) by (nonlinear_arith)
                requires
                    o + xi * y + carry0 == limbs::base() * c + l,
            ;
            assert(xi * (t + y * r) * q == xi * t * q + xi * y * p) by (nonlinear_arith)
                requires
                    p == r * q,
            ;
        }
        j = j + 1;
    }
    assert(b@.take(b@.len() as int) =~= b@);
    let mut k: usize = i + b.len();
    while carry > 0
        invariant
            k <= out@.len(),
            out@.len() == start.len() == n,
            limbs::value(out@) + carry * limbs::weight(k as nat) == target,
            target < limbs::weight(start.len()),
        decreases out@.len() - k,
    {
        let ghost before = out@;
        let ghost carry0 = carry as int;
        proof {
            limbs::lemma_limbs_bound(before);
            if k == out@.len() {
                let w = limbs::weight(k as nat);
                limbs::lemma_weight_positive(k as nat);
                assert(carry0 * w >= w) by (nonlinear_arith)
                    requires
                        carry0 >= 1,
                        w >= 1,
                ;
                assert(false);
            }
        }
        let cur: u128 = out[k] as u128 + carry as u128;
        let lo: u64 = low_limb(cur);
        out.set(k, lo);
        carry = high_limb(cur);
        proof {
            lemma_fundamental_div_mod(cur as int, limbs::base());
            limbs::lemma_value_update(before, k as int, lo, limbs::base());
            limbs::lemma_weight_step(k as nat);
            let p = limbs::weight(k as nat);
            let o = before[k as int] as int;
            let l = lo as int;
            let c = carry as int;
            assert((l - o) * p + c * (limbs::base() * p) == carry0 * p) by (nonlinear_arith)
                requires
                    o + carry0 == limbs::base() * c + l,
            ;
        }
        k = k + 1;
    }
    assert(0 * limbs::weight(k as nat) == 0);
}

/// Long multiplication of magnitudes; the product is normalized.
pub fn mul_mag_schoolbook(a: &[u64], b: &[u64]) -> (out: Vec<u64>)
    requires
        a@.len() + b@.len() <= usize::MAX,
    ensures
        limbs::is_product(out@, a@, b@),
        out@.len() <= a@.len() + b@.len(),
{
    if a.len() == 0 || b.len() == 0 {
        assert(limbs::value(a@) * limbs::value(b@) == 0) by (nonlinear_arith)
            requires
                limbs::value(a@) == 0 || limbs::value(b@) == 0,
        ;
        return Vec::new();
    }
    let mut out: Vec<u64> = vec![0u64; a.len() + b.len()];
    let mut i: usize = 0;
    proof {
        limbs::lemma_value_zeros(out@, limbs::base());
        assert(a@.take(0) =~= Seq::<u64>::empty());
        assert(0 * limbs::value(b@) == 0);
    }
    while i < a.len()
        invariant
            i <= a@.len(),
            out@.len() == a@.len() + b@.len(),
            a@.len() + b@.len() <= usize::MAX,
            limbs::value(out@) == limbs::value(a@.take(i as int)) * limbs::value(b@),
        decreases a@.len() - i,
    {
        proof {
            limbs::lemma_value_take_next(a@, i as int, limbs::base());
            let t = limbs::value(a@.take(i as int));
            let x = a@[i as int] as int;
            let w = limbs::weight(i as nat);
            let v = limbs::value(b@);
            assert((t + x * w) * v == t * v + x * v * w) by (nonlinear_arith);
            limbs::lemma_limbs_bound(a@.take(i + 1));
            limbs::lemma_limbs_bound(b@);
            limbs::lemma_weight_monotone((i + 1) as nat, a@.len());
            limbs::lemma_weight_adds(a@.len(), b@.len());
            let u = limbs::value(a@.take(i + 1));
            assert(u * v < limbs::weight(a@.len()) * limbs::weight(b@.len())) by (nonlinear_arith)
                requires
                    0 <= u < limbs::weight(a@.len()),
                    0 <= v < limbs::weight(b@.len()),
            ;
        }
        accumulate_row(&mut out, a[i], b, i);
        i = i + 1;
    }
    assert(a@.take(a@.len() as int) =~= a@);
    strip(&mut out);
    out
}

/// The identity behind a Karatsuba step.
proof fn lemma_karatsuba(al: int, ah: int, bl: int, bh: int, w: int)
    ensures
        (al + w * ah) * (bl + w * bh) == al * bl + ((al + ah) * (bl + bh) - (al * bl + ah * bh)) * w
            + (ah * bh) * (w * w),
        (al + ah) * (bl + bh) - (al * bl + ah * bh) == al * bh + ah * bl,
{
    assert((al + ah) * (bl + bh) == al * bl + al * bh + ah * bl + ah * bh) by (nonlinear_arith);
    let p = w * ah;
    let q = w * bh;
    assert((al + p) * (bl + q) == al * bl + al * q + p * bl + p * q) by (nonlinear_arith);
    assert(al * (w * bh) == (al * bh) * w) by (nonlinear_arith);
    assert((w * ah) * bl == (ah * bl) * w) by (nonlinear_arith);
    assert((w * ah) * (w * bh) == (ah * bh) * (w * w)) by (nonlinear_arith);
    assert((al * bh + ah * bl) * w == (al * bh) * w + (ah * bl) * w) by (nonlinear_arith);
}

/// Put the three products of a Karatsuba step together.
fn assemble(z0: &[u64], z1: &[u64], z2: &[u64], m: usize, len: usize) -> (out: Vec<u64>)
    requires
        len + 4 <= usize::MAX,
        z0@.len() + 4 <= usize::MAX,
        m + z1@.len() + 4 <= usize::MAX,
        2 * m + z2@.len() + 4 <= usize::MAX,
    ensures
        limbs::normalized(out@),
        limbs::value(out@) == limbs::value(z0@) + limbs::value(z1@) * limbs::weight(m as nat)
            + limbs::value(z2@) * (limbs::weight(m as nat) * limbs::weight(m as nat)),
{
    let mut out: Vec<u64> = vec![0u64; len];
    proof {
        limbs::lemma_value_zeros(out@, limbs::base());
        limbs::lemma_weight_step(0);
        limbs::lemma_weight_adds(m as nat, m as nat);
    }
    add_at(&mut out, z0, 0);
    add_at(&mut out, z1, m);
    add_at(&mut out, z2, 2 * m);
    strip(&mut out);
    out
}

/// Value of a Karatsuba step from its three products.
proof fn lemma_karatsuba_step(
    a: Seq<u64>,
    b: Seq<u64>,
    m: nat,
    ka: int,
    kb: int,
    z0: int,
    z1p: int,
    z2: int,
)
    requires
        ka == if m <= a.len() { m as int } else { a.len() as int },
        kb == if m <= b.len() { m as int } else { b.len() as int },
        z0 == limbs::value(a.take(ka)) * limbs::value(b.take(kb)),
        z2 == limbs::value(a.skip(ka)) * limbs::value(b.skip(kb)),
        z1p == (limbs::value(a.take(ka)) + limbs::value(a.skip(ka))) * (limbs::value(b.take(kb)) + limbs::value(b.skip(kb))),
    ensures
        z0 + z2 <= z1p,
        z0 + (z1p - (z0 + z2)) * limbs::weight(m) + z2 * (limbs::weight(m) * limbs::weight(m)) == limbs::value(a) * limbs::value(b),
{
    let al = limbs::value(a.take(ka));
    let ah = limbs::value(a.skip(ka));
    let bl = limbs::value(b.take(kb));
    let bh = limbs::value(b.skip(kb));
    let w = limbs::weight(m);
    limbs::lemma_limbs_bound(a.take(ka));
    limbs::lemma_limbs_bound(a.skip(ka));
    limbs::lemma_limbs_bound(b.take(kb));
    limbs::lemma_limbs_bound(b.skip(kb));
    limbs::lemma_value_split(a, ka, limbs::base());
    limbs::lemma_value_split(b, kb, limbs::base());
    assert(limbs::value(a) == al + w * ah) by {
        if ka != m {
            assert(a.skip(ka) =~= Seq::<u64>::empty());
            assert(w * 0 == 0 && limbs::weight(ka as nat) * 0 == 0);
        }
    }
    assert(limbs::value(b) == bl + w * bh) by {
        if kb != m {
            assert(b.skip(kb) =~= Seq::<u64>::empty());
            assert(w * 0 == 0 && limbs::weight(kb as nat) * 0 == 0);
        }
    }
    lemma_karatsuba(al, ah, bl, bh, w);
    assert(al * bh + ah * bl >= 0) by (nonlinear_arith)
        requires
            al >= 0,
            ah >= 0,
            bl >= 0,
            bh >= 0,
    ;
}

/// Operands of this many limbs together fit one transform.
pub fn fits_transform(total: usize) -> (b: bool)
    ensures
        b == (4 * total <= 0x1_0000_0000 && 8 * total <= usize::MAX),
{
    total <= usize::MAX / 8 && total as u64 <= 0x4000_0000
}

/// `out` is the normalized product of `a` and `b`.
pub open spec fn is_product(out: Seq<u64>, a: Seq<u64>, b: Seq<u64>) -> bool {
    limbs::normalized(out) && limbs::value(out) == limbs::value(a) * limbs::value(b)
}

/// Limbs that a product may split: none where it is a long multiplication.
pub open spec fn work(a: nat, b: nat) -> nat {
    if a < KARATSUBA_THRESHOLD || b < KARATSUBA_THRESHOLD {
        0
    } else {
        a + b + 1
    }
}

/// Product of magnitudes, normalized.  Long multiplication for small operands,
/// Karatsuba splitting above [`KARATSUBA_THRESHOLD`], the transform above
/// [`NTT_THRESHOLD`] where the product fits one transform.
pub fn mul_mag(a: &[u64], b: &[u64]) -> (out: Vec<u64>)
    requires
        2 * (a@.len() + b@.len()) + 64 <= usize::MAX,
    ensures
        limbs::is_product(out@, a@, b@),
        out@.len() <= a@.len() + b@.len(),
    decreases work(a@.len(), b@.len()), 1nat,
{
    if a.len() == 0 || b.len() == 0 {
        assert(limbs::value(a@) * limbs::value(b@) == 0) by (nonlinear_arith)
            requires
                limbs::value(a@) == 0 || limbs::value(b@) == 0,
        ;
        return Vec::new();
    }
    if a.len() < KARATSUBA_THRESHOLD || b.len() < KARATSUBA_THRESHOLD {
        mul_mag_schoolbook(a, b)
    } else if a.len() >= NTT_THRESHOLD && b.len() >= NTT_THRESHOLD && fits_transform(
        a.len() + b.len(),
    ) {
        let out: Vec<u64> = mul_mag_ntt(a, b);
        proof {
            lemma_product_len(a@, b@, out@);
        }
        out
    } else {
        mul_mag_karatsuba(a, b)
    }
}

/// A product of at most `n` limbs' worth has at most `n` limbs once normalized.
pub proof fn lemma_product_len(a: Seq<u64>, b: Seq<u64>, out: Seq<u64>)
    requires
        limbs::normalized(out),
        limbs::value(out) == limbs::value(a) * limbs::value(b),
    ensures
        out.len() <= a.len() + b.len(),
{
    if out.len() > a.len() + b.len() {
        limbs::lemma_limbs_bound(a);
        limbs::lemma_limbs_bound(b);
        limbs::lemma_weight_adds(a.len(), b.len());
        limbs::lemma_value_lower(out);
        limbs::lemma_weight_monotone(a.len() + b.len(), (out.len() - 1) as nat);
        let u = limbs::value(a);
        let v = limbs::value(b);
        assert(u * v < limbs::weight(a.len()) * limbs::weight(b.len())) by (nonlinear_arith)
            requires
                0 <= u < limbs::weight(a.len()),
                0 <= v < limbs::weight(b.len()),
        ;
    }
}

/// The three products of a Karatsuba step are smaller.
proof fn lemma_work_shrinks(a: nat, b: nat, ka: nat, kb: nat, sa: nat, sb: nat)
    requires
        ({
            let m = (if a >= b { a } else { b }) / 2;
            &&& ka == if m <= a { m } else { a }
            &&& kb == if m <= b { m } else { b }
        }),
        sa <= ka + 1 || sa <= a - ka + 1,
        sb <= kb + 1 || sb <= b - kb + 1,
    ensures
        work(ka, kb) < a + b + 1,
        work((a - ka) as nat, (b - kb) as nat) < a + b + 1,
        work(sa, sb) < a + b + 1,
{
}

/// Karatsuba multiplication of magnitudes; the product is normalized.
#[verifier::rlimit(60)]
pub fn mul_mag_karatsuba(a: &[u64], b: &[u64]) -> (out: Vec<u64>)
    requires
        2 * (a@.len() + b@.len()) + 64 <= usize::MAX,
    ensures
        limbs::is_product(out@, a@, b@),
        out@.len() <= a@.len() + b@.len(),
    decreases a@.len() + b@.len() + 1, 0nat,
{
    let n: usize = if a.len() >= b.len() { a.len() } else { b.len() };
    let m: usize = n / 2;
    let ka: usize = if m <= a.len() { m } else { a.len() };
    let kb: usize = if m <= b.len() { m } else { b.len() };
    let (a_lo, a_hi) = a.split_at(ka);
    let (b_lo, b_hi) = b.split_at(kb);
    let a_sum: Vec<u64> = add_mag(a_lo, a_hi);
    let b_sum: Vec<u64> = add_mag(b_lo, b_hi);
    proof {
        lemma_work_shrinks(
            a@.len(),
            b@.len(),
            ka as nat,
            kb as nat,
            a_sum@.len(),
            b_sum@.len(),
        );
    }
    let go_parallel: bool = a.len() >= PARALLEL_KARATSUBA_THRESHOLD && b.len()
        >= PARALLEL_KARATSUBA_THRESHOLD;
    let (z0, z2, z1_prod) = if go_parallel {
        let low_task = || -> (r: Vec<u64>)
            ensures is_product(r@, a_lo@, b_lo@)
        { mul_mag(a_lo, b_lo) };
        let rest_task = || -> (r: (Vec<u64>, Vec<u64>))
            ensures is_product(r.0@, a_hi@, b_hi@) && is_product(r.1@, a_sum@, b_sum@)
        {
            let high_task = || -> (r: Vec<u64>)
                ensures is_product(r@, a_hi@, b_hi@)
            { mul_mag(a_hi, b_hi) };
            let cross_task = || -> (r: Vec<u64>)
                ensures is_product(r@, a_sum@, b_sum@)
            { mul_mag(&a_sum, &b_sum) };
            rayon::join(high_task, cross_task)
        };
        let (z0, (z2, z1_prod)) = rayon::join(low_task, rest_task);
        (z0, z2, z1_prod)
    } else {
        (mul_mag(a_lo, b_lo), mul_mag(a_hi, b_hi), mul_mag(&a_sum, &b_sum))
    };
    proof {
        lemma_product_len(a_lo@, b_lo@, z0@);
        lemma_product_len(a_hi@, b_hi@, z2@);
        lemma_product_len(a_sum@, b_sum@, z1_prod@);
        lemma_karatsuba_step(
            a@,
            b@,
            m as nat,
            ka as int,
            kb as int,
            limbs::value(z0@),
            limbs::value(z1_prod@),
            limbs::value(z2@),
        );
    }
    let z0_plus_z2: Vec<u64> = add_mag(&z0, &z2);
    let z1: Vec<u64> = sub_mag(&z1_prod, &z0_plus_z2);
    let out: Vec<u64> = assemble(&z0, &z1, &z2, m, a.len() + b.len() + 1);
    proof {
        lemma_product_len(a@, b@, out@);
    }
    out
}

/// A product is the normalized limbs of the product of the values.
pub proof fn law_product(out: Seq<u64>, a: Seq<u64>, b: Seq<u64>)
    requires
        is_product(out, a, b),
    ensures
        limbs::value(out) == limbs::value(a) * limbs::value(b),
        out.len() > 0 ==> out[out.len() - 1] != 0,
        limbs::is_product(out, a, b),
{
}

} // verus!
