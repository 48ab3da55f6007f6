//! Multiplication of limb sequences by way of the transform.
use crate::field;
use crate::field::P;
use crate::fourier;
use crate::limbs;
use crate::ntt;
use crate::ntt::{PARALLEL_POINTWISE_THRESHOLD, Plan, log2_exact, transform, transform_back};
use crate::ntt_pack;
use crate::ntt_pack::{pack, unpack};
use crate::scratch::{Pool, ScratchBuf};
use crate::twiddles;
use crate::twiddles::TwiddleCache;
use vstd::arithmetic::div_mod::*;
use vstd::arithmetic::mul::*;
use vstd::arithmetic::power2::*;
use vstd::arithmetic::power::*;
use vstd::prelude::*;
use vstd::slice::slice_subrange;

verus! {

/// What multiplications share: twiddle tables and scratch buffers.
pub struct Workspace {
    pub pool: Pool,
    pub cache: TwiddleCache,
}

impl Workspace {
    /// Pool and cache are in order.
    pub open spec fn wf(&self) -> bool {
        &&& self.pool.wf()
        &&& self.cache.wf()
    }

    /// Nothing pooled, nothing cached.
    pub fn new() -> (w: Workspace)
        ensures
            w.wf(),
    {
        Workspace { pool: Pool::new(), cache: TwiddleCache::new() }
    }
}

/// The smallest power of two that is at least `n`.
pub fn next_power(n: usize) -> (p: usize)
    requires
        1 <= n,
        2 * n <= usize::MAX,
    ensures
        ntt::is_power(p as nat),
        n <= p < 2 * n,
{
    let mut p: usize = 1;
    let ghost mut k: nat = 0;
    proof {
        lemma2_to64();
    }
    while p < n
        invariant
            1 <= n,
            2 * n <= usize::MAX,
            p == pow2(k),
            p < 2 * n,
        decreases 2 * n - p,
    {
        proof {
            lemma_pow2_unfold(k + 1);
            lemma_pow2_pos(k);
            k = k + 1;
        }
        p = p * 2;
    }
    proof {
        ntt::lemma_lg(k);
    }
    p
}

/// `r` holds the products of the entries of `x` and `y`.
pub open spec fn is_pointwise(x: Seq<u64>, y: Seq<u64>, r: Seq<u64>) -> bool {
    &&& r.len() == x.len()
    &&& fourier::canonical(r)
    &&& forall|i: int| 0 <= i < x.len() ==> #[trigger] r[i] as int == field::residue(x[i] * y[i])
}

/// The products of the entries, in parallel above a threshold.
fn pointwise(x: &[u64], y: &[u64]) -> (r: Vec<u64>)
    requires
        x@.len() == y@.len(),
    ensures
        is_pointwise(x@, y@, r@),
    decreases x@.len(),
{
    let n: usize = x.len();
    if n >= PARALLEL_POINTWISE_THRESHOLD {
        let (x0, x1) = x.split_at(n / 2);
        let (y0, y1) = y.split_at(n / 2);
        let low_task = || -> (r: Vec<u64>)
            ensures is_pointwise(x0@, y0@, r@)
        { pointwise(x0, y0) };
        let high_task = || -> (r: Vec<u64>)
            ensures is_pointwise(x1@, y1@, r@)
        { pointwise(x1, y1) };
        let (mut low, mut high) = rayon::join(low_task, high_task);
        let ghost (r0, r1) = (low@, high@);
        low.append(&mut high);
        proof {
            assert forall|i: int| 0 <= i < n implies (#[trigger] low@[i]) < P && low@[i] as int
                == field::residue(x@[i] * y@[i]) by {
                let k = x0@.len();
                if i < k {
                    assert(low@[i] == r0[i] && x0@[i] == x@[i] && y0@[i] == y@[i]);
                } else {
                    assert(low@[i] == r1[i - k] && x1@[i - k] == x@[i] && y1@[i - k] == y@[i]);
                }
            }
        }
        return low;
    }
    let mut out: Vec<u64> = Vec::with_capacity(n);
    while out.len() < n
        invariant
            n == x@.len(),
            n == y@.len(),
            out@.len() <= n,
            fourier::canonical(out@),
            forall|i: int|
                0 <= i < out@.len() ==> #[trigger] out@[i] as int == field::residue(x@[i] * y@[i]),
        decreases n - out.len(),
    {
        let k: usize = out.len();
        let z: u64 = crate::field::mul(x[k], y[k]);
        out.push(z);
    }
    out
}

/// The product of two packed operands, coefficient by coefficient.
spec fn product_coeffs(a: Seq<u64>, b: Seq<u64>, n: nat) -> Seq<u64> {
    Seq::new(n, |t: int| fourier::conv_at(a, b, t) as u64)
}

/// The coefficients of the product fit below `P`, vanish from `na + nb - 1`
/// on, and have the value of the product at every point.
proof fn lemma_product_coeffs(a: Seq<u64>, b: Seq<u64>, na: nat, nb: nat, n: nat, z: int)
    requires
        a.len() == n,
        b.len() == n,
        0 < na,
        0 < nb <= 0x1_0000_0000,
        na + nb <= n + 1,
        forall|i: int| 0 <= i < n ==> #[trigger] a[i] <= 0xFFFF,
        forall|i: int| 0 <= i < n ==> #[trigger] b[i] <= 0xFFFF,
        forall|i: int| na <= i < n ==> #[trigger] a[i] == 0,
        forall|i: int| nb <= i < n ==> #[trigger] b[i] == 0,
    ensures
        fourier::canonical(product_coeffs(a.take(na as int), b.take(nb as int), n)),
        forall|t: int|
            na + nb - 1 <= t < n ==> #[trigger] product_coeffs(
                a.take(na as int),
                b.take(nb as int),
                n,
            )[t] == 0,
        limbs::digits_value(product_coeffs(a.take(na as int), b.take(nb as int), n), z) == limbs::digits_value(
            a,
            z,
        ) * limbs::digits_value(b, z),
{
    let a1 = a.take(na as int);
    let b1 = b.take(nb as int);
    let c = product_coeffs(a1, b1, n);
    assert forall|i: int| 0 <= i < a1.len() implies #[trigger] a1[i] <= 0xFFFF by {
        assert(a1[i] == a[i]);
    }
    assert forall|i: int| 0 <= i < b1.len() implies #[trigger] b1[i] <= 0xFFFF by {
        assert(b1[i] == b[i]);
    }
    assert forall|t: int| 0 <= t < n implies (#[trigger] c[t]) < P && c[t] as int == fourier::conv_at(
        a1,
        b1,
        t,
    ) by {
        fourier::lemma_conv_bound(a1, b1, t);
    }
    assert forall|t: int| na + nb - 1 <= t < n implies #[trigger] c[t] == 0 by {
        let f = |j: int| fourier::coeff(a1, t - j) * b1[j];
        assert forall|j: int| 0 <= j < nb implies #[trigger] f(j) == 0 by {
            assert(0 * b1[j] == 0);
        }
        fourier::lemma_sum_zero(f, nb);
    }
    let f = |t: int| c[t] * pow(z, t as nat);
    let g = |t: int| fourier::conv_at(a1, b1, t) * pow(z, t as nat);
    assert forall|t: int| 0 <= t < n implies #[trigger] f(t) == g(t) by {
        assert(c[t] as int == fourier::conv_at(a1, b1, t));
    }
    fourier::lemma_digits_sum(c, z);
    fourier::lemma_sum_same(f, g, n);
    fourier::lemma_convolution(a1, b1, z, n);
    lemma_zero_tail(a, na as int, z);
    lemma_zero_tail(b, nb as int, z);
}

/// Zeros at the top add nothing.
proof fn lemma_zero_tail(s: Seq<u64>, k: int, z: int)
    requires
        0 <= k <= s.len(),
        forall|i: int| k <= i < s.len() ==> #[trigger] s[i] == 0,
    ensures
        limbs::digits_value(s.take(k), z) == limbs::digits_value(s, z),
{
    limbs::lemma_value_split(s, k, z);
    limbs::lemma_value_zeros(s.skip(k), z);
    assert(pow(z, k as nat) * 0 == 0);
}

/// The pointwise product of two transforms is the transform of the product.
proof fn lemma_pointwise_dft(
    a: Seq<u64>,
    b: Seq<u64>,
    x: Seq<u64>,
    y: Seq<u64>,
    r: Seq<u64>,
    c: Seq<u64>,
    w: int,
    m: nat,
)
    requires
        fourier::is_dft(a, x, w, m),
        fourier::is_dft(b, y, w, m),
        is_pointwise(x, y, r),
        a.len() == b.len(),
        c.len() == a.len(),
        forall|z: int| #[trigger] limbs::digits_value(c, z) == limbs::digits_value(a, z) * limbs::digits_value(b, z),
    ensures
        fourier::is_dft(c, r, w, m),
{
    assert forall|k: int| 0 <= k < r.len() implies #[trigger] r[k] as int == fourier::dft_at(
        c,
        w,
        m,
        k as nat,
    ) by {
        let z = fourier::twiddle(w, m, k as nat);
        let av = limbs::digits_value(a, z);
        let bv = limbs::digits_value(b, z);
        assert(x[k] as int == fourier::dft_at(a, w, m, k as nat));
        assert(y[k] as int == fourier::dft_at(b, w, m, k as nat));
        lemma_mod_twice(av, P as int);
        lemma_mod_twice(bv, P as int);
        field::lemma_product_residue(x[k] as int, av, y[k] as int, bv);
        assert(limbs::digits_value(c, z) == av * bv);
    }
}

/// Product of magnitudes, normalized, with tables and buffers out of a
/// workspace.
pub fn mul_mag_ntt_with(a: &[u64], b: &[u64], work: &mut Workspace) -> (out: Vec<u64>)
    requires
        old(work).wf(),
        4 * (a@.len() + b@.len()) <= 0x1_0000_0000,
        8 * (a@.len() + b@.len()) <= usize::MAX,
    ensures
        final(work).wf(),
        limbs::is_product(out@, a@, b@),
{
    if a.len() == 0 || b.len() == 0 {
        proof {
            lemma_mul_basics(limbs::value(a@));
            lemma_mul_basics(limbs::value(b@));
        }
        return Vec::new();
    }
    let na: usize = a.len() * 4;
    let nb: usize = b.len() * 4;
    let n_out: usize = na + nb - 1;
    let n: usize = next_power(n_out);
    let log_n: u32 = log2_exact(n);
    proof {
        lemma2_to64();
        if log_n > 32 {
            lemma_pow2_strictly_increases(32, log_n as nat);
            lemma_pow2_unfold(log_n as nat);
            if log_n > 33 {
                lemma_pow2_strictly_increases(32, (log_n - 1) as nat);
            }
        }
    }
    let fa: ScratchBuf = ScratchBuf::acquire(&mut work.pool, n);
    let fb: ScratchBuf = ScratchBuf::acquire(&mut work.pool, n);
    let forward: Plan = Plan::new(&mut work.cache, log_n, false);
    let a_task = move || -> (r: Vec<u64>)
        ensures is_packed(a@, n as nat, r@)
    {
        let mut buf: Vec<u64> = fa.buf;
        pack(a, &mut buf);
        buf
    };
    let b_task = move || -> (r: Vec<u64>)
        ensures is_packed(b@, n as nat, r@)
    {
        let mut buf: Vec<u64> = fb.buf;
        pack(b, &mut buf);
        buf
    };
    let (pa, pb) = rayon::join(a_task, b_task);
    let ghost (ga, gb) = (pa@, pb@);
    proof {
        assert(fourier::canonical(ga));
        assert(fourier::canonical(gb));
    }
    let plan: &Plan = &forward;
    let x_task = move || -> (r: Vec<u64>)
        ensures fourier::canonical(r@) && fourier::is_dft(ga, r@, twiddles::forward_root(), log_n as nat)
    {
        let mut buf: Vec<u64> = pa;
        transform(&mut buf, plan);
        buf
    };
    let y_task = move || -> (r: Vec<u64>)
        ensures fourier::canonical(r@) && fourier::is_dft(gb, r@, twiddles::forward_root(), log_n as nat)
    {
        let mut buf: Vec<u64> = pb;
        transform(&mut buf, plan);
        buf
    };
    let (x, y) = rayon::join(x_task, y_task);
    let mut z: Vec<u64> = pointwise(x.as_slice(), y.as_slice());
    let ghost r = z@;
    let spent: ScratchBuf = ScratchBuf { buf: y };
    spent.release(&mut work.pool);
    let back: Plan = Plan::new(&mut work.cache, log_n, true);
    transform_back(&mut z, &back);
    let ghost c = product_coeffs(ga.take(na as int), gb.take(nb as int), n as nat);
    proof {
        assert forall|p: int| #[trigger] limbs::digits_value(c, p) == limbs::digits_value(ga, p) * limbs::digits_value(
            gb,
            p,
        ) by {
            lemma_product_coeffs(ga, gb, na as nat, nb as nat, n as nat, p);
        }
        lemma_product_coeffs(ga, gb, na as nat, nb as nat, n as nat, ntt_pack::coeff_base());
        lemma_pointwise_dft(ga, gb, x@, y@, r, c, twiddles::forward_root(), log_n as nat);
        ntt::law_ntt_round_trip(c, r, z@);
    }
    let out: Vec<u64> = unpack(slice_subrange(z.as_slice(), 0, n_out));
    proof {
        assert(z@.subrange(0, n_out as int) =~= c.take(n_out as int));
        lemma_zero_tail(c, n_out as int, ntt_pack::coeff_base());
        assert(limbs::digits_value(c, ntt_pack::coeff_base()) == limbs::digits_value(ga, ntt_pack::coeff_base()) * limbs::digits_value(
            gb,
            ntt_pack::coeff_base(),
        ));
    }
    let spent: ScratchBuf = ScratchBuf { buf: z };
    spent.release(&mut work.pool);
    out
}

/// The limbs `a` as coefficients in a buffer of length `n`.
spec fn is_packed(a: Seq<u64>, n: nat, r: Seq<u64>) -> bool {
    &&& r.len() == n
    &&& forall|i: int| 0 <= i < n ==> #[trigger] r[i] <= 0xFFFF
    &&& forall|i: int| 4 * a.len() <= i < n ==> #[trigger] r[i] == 0
    &&& limbs::digits_value(r, ntt_pack::coeff_base()) == limbs::value(a)
}

/// Product of magnitudes, normalized, by the transform.
pub fn mul_mag_ntt(a: &[u64], b: &[u64]) -> (out: Vec<u64>)
    requires
        4 * (a@.len() + b@.len()) <= 0x1_0000_0000,
        8 * (a@.len() + b@.len()) <= usize::MAX,
    ensures
        limbs::is_product(out@, a@, b@),
{
    let mut work: Workspace = Workspace::new();
    mul_mag_ntt_with(a, b, &mut work)
}

} // verus!
