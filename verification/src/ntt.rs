//! The number-theoretic transform modulo `P`: radix-2 butterflies over the
//! bit-reversed input.
use crate::field;
use crate::field::{P, inv};
use crate::fourier;
use crate::twiddles;
use crate::twiddles::TwiddleCache;
use std::sync::Arc;
use vstd::arithmetic::div_mod::*;
use vstd::arithmetic::mul::*;
use vstd::arithmetic::power2::*;
use vstd::arithmetic::power::*;
use vstd::prelude::*;

verus! {

/// Pieces of a pass are at most this long before they run on one thread.
pub const TARGET_TASK_SIZE: usize = 0x1_0000;

/// Lengths from here on are bit-reversed in parallel.
pub const PARALLEL_BIT_REVERSE_THRESHOLD: usize = 0x4_0000;

/// Lengths from here on are multiplied entry by entry in parallel.
pub const PARALLEL_POINTWISE_THRESHOLD: usize = 1024;

/// The logarithm of a power of two.
pub open spec fn lg(n: nat) -> nat
    decreases n,
{
    if n <= 1 {
        0
    } else {
        1 + lg(n / 2)
    }
}

/// `n` is a power of two.
pub open spec fn is_power(n: nat) -> bool {
    n == pow2(lg(n))
}

/// The logarithm undoes the power.
pub proof fn lemma_lg(k: nat)
    ensures
        lg(pow2(k)) == k,
        is_power(pow2(k)),
    decreases k,
{
    if k == 0 {
        lemma2_to64();
    } else {
        lemma_lg((k - 1) as nat);
        lemma_pow2_unfold(k);
        lemma_pow2_pos((k - 1) as nat);
    }
}

/// Powers of two up to `2^32` have logarithms up to 32.
pub proof fn lemma_lg_bound(n: nat)
    requires
        is_power(n),
        n <= 0x1_0000_0000,
    ensures
        lg(n) <= 32,
{
    lemma2_to64();
    if lg(n) > 32 {
        lemma_pow2_strictly_increases(32, lg(n));
    }
}

/// The logarithm of a power of two.
pub fn log2_exact(n: usize) -> (k: u32)
    requires
        is_power(n as nat),
    ensures
        k == lg(n as nat),
        n == pow2(k as nat),
{
    let mut p: usize = 1;
    let mut k: u32 = 0;
    proof {
        lemma2_to64();
    }
    while p < n
        invariant
            is_power(n as nat),
            p == pow2(k as nat),
            k <= lg(n as nat),
            1 <= p <= n,
            k <= 64,
        decreases n - p,
    {
        proof {
            let top = lg(n as nat);
            if k >= top {
                assert(k == top);
            }
            lemma_pow2_unfold((k + 1) as nat);
            if k + 1 < top {
                lemma_pow2_strictly_increases((k + 1) as nat, top);
            }
            lemma2_to64_rest();
        }
        p = p * 2;
        k = k + 1;
    }
    proof {
        if k < lg(n as nat) {
            lemma_pow2_strictly_increases(k as nat, lg(n as nat));
        }
    }
    k
}

/// The lowest `log_n` bits of `i` in reverse order.
fn reverse_index(i: usize, log_n: u32) -> (r: usize)
    requires
        i < pow2(log_n as nat),
        pow2(log_n as nat) <= usize::MAX,
    ensures
        r == fourier::rev(log_n as nat, i as nat),
{
    let mut r: usize = 0;
    let mut x: usize = i;
    let mut left: u32 = log_n;
    proof {
        fourier::lemma_rev_bound(log_n as nat, i as nat);
    }
    while left > 0
        invariant
            left <= log_n,
            fourier::rev(log_n as nat, i as nat) == r * pow2(left as nat) + fourier::rev(left as nat, x as nat),
            fourier::rev(log_n as nat, i as nat) < pow2(log_n as nat) <= usize::MAX,
        decreases left,
    {
        let bit: usize = x % 2;
        proof {
            let k = (left - 1) as nat;
            lemma_pow2_unfold(left as nat);
            lemma_pow2_pos(k);
            let h = pow2(k) as int;
            assert(r * (2 * h) + bit * h == (2 * r + bit) * h) by (nonlinear_arith);
            assert(2 * r + bit <= (2 * r + bit) * h) by (nonlinear_arith)
                requires
                    h >= 1,
                    r >= 0,
                    bit >= 0,
            ;
        }
        r = 2 * r + bit;
        x = x / 2;
        left = left - 1;
    }
    proof {
        lemma2_to64();
        assert(r * 1 == r);
    }
    r
}

/// Bit-reverse the order in place, swapping each pair once.
pub fn bit_reverse_serial(a: &mut Vec<u64>, log_n: u32)
    requires
        old(a)@.len() == pow2(log_n as nat),
    ensures
        final(a)@ == fourier::reversed(old(a)@, log_n as nat),
{
    let n: usize = a.len();
    let ghost orig = a@;
    let ghost k = log_n as nat;
    let mut i: usize = 0;
    while i < n
        invariant
            k == log_n as nat,
            n == pow2(k),
            orig.len() == n,
            a@.len() == n,
            i <= n,
            forall|p: int|
                0 <= p < n ==> #[trigger] a@[p] == if p < i || fourier::rev(k, p as nat) < i {
                    orig[fourier::rev(k, p as nat) as int]
                } else {
                    orig[p]
                },
        decreases n - i,
    {
        let j: usize = reverse_index(i, log_n);
        proof {
            fourier::lemma_rev_bound(k, i as nat);
            fourier::lemma_rev_involution(k, i as nat);
        }
        let ghost before = a@;
        if i < j {
            let x: u64 = a[i];
            let y: u64 = a[j];
            a.set(i, y);
            a.set(j, x);
        }
        proof {
            assert forall|p: int| 0 <= p < n implies #[trigger] a@[p] == if p < i + 1 || fourier::rev(
                k,
                p as nat,
            ) < i + 1 {
                orig[fourier::rev(k, p as nat) as int]
            } else {
                orig[p]
            } by {
                fourier::lemma_rev_bound(k, p as nat);
                fourier::lemma_rev_involution(k, p as nat);
                assert(before[p] == if p < i || fourier::rev(k, p as nat) < i {
                    orig[fourier::rev(k, p as nat) as int]
                } else {
                    orig[p]
                });
                assert(before[i as int] == if fourier::rev(k, i as nat) < i {
                    orig[fourier::rev(k, i as nat) as int]
                } else {
                    orig[i as int]
                });
                assert(before[j as int] == if j < i || i < i {
                    orig[fourier::rev(k, j as nat) as int]
                } else {
                    orig[j as int]
                });
            }
        }
        i += 1;
    }
    proof {
        assert(a@ =~= fourier::reversed(orig, k));
    }
}

/// Entries `lo..hi` of the bit-reversed sequence.
fn gather_reversed(a: &Vec<u64>, lo: usize, hi: usize, log_n: u32) -> (r: Vec<u64>)
    requires
        a@.len() == pow2(log_n as nat),
        lo <= hi <= a@.len(),
    ensures
        r@ == fourier::reversed(a@, log_n as nat).subrange(lo as int, hi as int),
    decreases hi - lo,
{
    if hi - lo > TARGET_TASK_SIZE {
        let mid: usize = lo + (hi - lo) / 2;
        let low_task = || -> (r: Vec<u64>)
            ensures r@ == fourier::reversed(a@, log_n as nat).subrange(lo as int, mid as int)
        { gather_reversed(a, lo, mid, log_n) };
        let high_task = || -> (r: Vec<u64>)
            ensures r@ == fourier::reversed(a@, log_n as nat).subrange(mid as int, hi as int)
        { gather_reversed(a, mid, hi, log_n) };
        let (mut low, mut high) = rayon::join(low_task, high_task);
        low.append(&mut high);
        proof {
            assert(low@ =~= fourier::reversed(a@, log_n as nat).subrange(lo as int, hi as int));
        }
        return low;
    }
    let mut out: Vec<u64> = Vec::with_capacity(hi - lo);
    let mut i: usize = lo;
    let n: usize = a.len();
    while i < hi
        invariant
            n == a@.len(),
            a@.len() == pow2(log_n as nat),
            lo <= i <= hi <= a@.len(),
            out@ == fourier::reversed(a@, log_n as nat).subrange(lo as int, i as int),
        decreases hi - i,
    {
        let j: usize = reverse_index(i, log_n);
        proof {
            fourier::lemma_rev_bound(log_n as nat, i as nat);
        }
        out.push(a[j]);
        i += 1;
        proof {
            assert(out@ =~= fourier::reversed(a@, log_n as nat).subrange(lo as int, i as int));
        }
    }
    out
}

/// Bit-reverse the order, gathering pieces of the result in parallel.
pub fn bit_reverse_parallel(a: &mut Vec<u64>, log_n: u32)
    requires
        old(a)@.len() == pow2(log_n as nat),
    ensures
        final(a)@ == fourier::reversed(old(a)@, log_n as nat),
{
    let n: usize = a.len();
    let out: Vec<u64> = gather_reversed(a, 0, n, log_n);
    proof {
        let r = fourier::reversed(a@, log_n as nat);
        assert(r.subrange(0, n as int) =~= r);
    }
    *a = out;
}

/// Bit-reverse the order of a sequence whose length is a power of two.
pub fn bit_reverse(a: &mut Vec<u64>)
    requires
        is_power(old(a)@.len()),
    ensures
        final(a)@ == fourier::reversed(old(a)@, lg(old(a)@.len())),
{
    let n: usize = a.len();
    let log_n: u32 = log2_exact(n);
    if n >= PARALLEL_BIT_REVERSE_THRESHOLD {
        bit_reverse_parallel(a, log_n);
    } else {
        bit_reverse_serial(a, log_n);
    }
}

/// Bit reversal is its own inverse.
pub proof fn law_bit_reverse_involution(a: Seq<u64>)
    requires
        is_power(a.len()),
    ensures
        fourier::reversed(fourier::reversed(a, lg(a.len())), lg(a.len())) == a,
{
    let k = lg(a.len());
    let r = fourier::reversed(a, k);
    assert forall|i: int| 0 <= i < a.len() implies #[trigger] fourier::reversed(r, k)[i] == a[i] by {
        fourier::lemma_rev_bound(k, i as nat);
        fourier::lemma_rev_involution(k, i as nat);
    }
    assert(fourier::reversed(r, k) =~= a);
}

/// The butterflies of one block: `(u, v)` becomes `(u + t, u - t)` with
/// `t` the twiddled `v`.
fn butterfly_group(a: &mut Vec<u64>, start: usize, tw: &Vec<u64>, half: usize)
    requires
        half > 0,
        tw@.len() == half,
        start + 2 * half <= old(a)@.len(),
        start as int % (2 * half) == 0,
        fourier::canonical(old(a)@),
    ensures
        final(a)@.len() == old(a)@.len(),
        fourier::canonical(final(a)@),
        forall|p: int|
            0 <= p < old(a)@.len() ==> #[trigger] final(a)@[p] as int == if start <= p < start + 2
                * half {
                fourier::butterfly_at(old(a)@, tw@, half as int, p)
            } else {
                old(a)@[p] as int
            },
{
    let ghost x = a@;
    let n: usize = a.len();
    let mut j: usize = 0;
    while j < half
        invariant
            half > 0,
            n == x.len(),
            tw@.len() == half,
            start + 2 * half <= x.len(),
            start as int % (2 * half) == 0,
            fourier::canonical(x),
            a@.len() == x.len(),
            fourier::canonical(a@),
            j <= half,
            forall|p: int|
                0 <= p < x.len() ==> #[trigger] a@[p] as int == if start <= p < start + j || start
                    + half <= p < start + half + j {
                    fourier::butterfly_at(x, tw@, half as int, p)
                } else {
                    x[p] as int
                },
        decreases half - j,
    {
        let lo: usize = start + j;
        let hi: usize = start + j + half;
        proof {
            assert(a@[lo as int] as int == x[lo as int] as int);
            assert(a@[hi as int] as int == x[hi as int] as int);
            lemma_offset(start as int, 2 * half as int, j as int);
            lemma_offset(start as int, 2 * half as int, j + half);
        }
        let ghost before = a@;
        let u: u64 = a[lo];
        let v: u64 = a[hi];
        let t: u64 = crate::field::mul(tw[j], v);
        a.set(lo, crate::field::add(u, t));
        a.set(hi, crate::field::sub(u, t));
        proof {
            assert forall|p: int| 0 <= p < x.len() implies #[trigger] a@[p] as int == if start
                <= p < start + j + 1 || start + half <= p < start + half + j + 1 {
                fourier::butterfly_at(x, tw@, half as int, p)
            } else {
                x[p] as int
            } by {
                if p != lo && p != hi {
                    assert(a@[p] == before[p]);
                }
            }
        }
        j += 1;
    }
}

/// Offsets within a block are remainders.
proof fn lemma_offset(start: int, len: int, j: int)
    requires
        0 <= j < len,
        start % len == 0,
    ensures
        (start + j) % len == j,
{
    lemma_fundamental_div_mod(start, len);
    lemma_mul_is_commutative(len, start / len);
    lemma_fundamental_div_mod_converse(start + j, len, start / len, j);
}

/// One pass over all blocks, one after the other.
fn pass_serial(a: &mut Vec<u64>, tw: &Vec<u64>, half: usize)
    requires
        half > 0,
        2 * half <= usize::MAX,
        tw@.len() == half,
        old(a)@.len() as int % (2 * half) == 0,
        fourier::canonical(old(a)@),
    ensures
        fourier::is_pass(old(a)@, final(a)@, tw@, half as int),
        fourier::canonical(final(a)@),
{
    let ghost x = a@;
    let n: usize = a.len();
    let len: usize = 2 * half;
    let mut start: usize = 0;
    proof {
        lemma_small_mod(0, len as nat);
    }
    while start < n
        invariant
            half > 0,
            len == 2 * half,
            n == x.len(),
            a@.len() == n,
            tw@.len() == half,
            n as int % len as int == 0,
            start <= n,
            start as int % len as int == 0,
            fourier::canonical(x),
            fourier::canonical(a@),
            forall|p: int|
                0 <= p < n ==> #[trigger] a@[p] as int == if p < start {
                    fourier::butterfly_at(x, tw@, half as int, p)
                } else {
                    x[p] as int
                },
        decreases n - start,
    {
        let ghost before = a@;
        proof {
            lemma_room(start as int, n as int, len as int);
        }
        butterfly_group(a, start, tw, half);
        proof {
            assert forall|p: int| 0 <= p < n implies #[trigger] a@[p] as int == if p < start
                + len {
                fourier::butterfly_at(x, tw@, half as int, p)
            } else {
                x[p] as int
            } by {
                assert(before[p] as int == if p < start {
                    fourier::butterfly_at(x, tw@, half as int, p)
                } else {
                    x[p] as int
                });
                if start <= p < start + len {
                    lemma_offset(start as int, len as int, p - start);
                    let q = if p - start < half { p + half } else { p - half };
                    assert(before[q] as int == x[q] as int);
                }
            }
            lemma_mod_add_multiples_vanish(start as int, len as int);
        }
        start += len;
    }
}

/// Below a multiple of `len`, another multiple leaves room for a whole block.
proof fn lemma_room(start: int, n: int, len: int)
    requires
        0 <= start < n,
        len > 0,
        start % len == 0,
        n % len == 0,
    ensures
        start + len <= n,
{
    lemma_fundamental_div_mod(start, len);
    lemma_fundamental_div_mod(n, len);
    assert(start + len <= n) by (nonlinear_arith)
        requires
            start == len * (start / len),
            n == len * (n / len),
            start < n,
            len > 0,
    ;
}

/// The butterflies of one large block whose halves are apart, in parallel
/// pieces; piece `lo`, `hi` starts at offset `base` of its half.
fn pass_halves(lo: Vec<u64>, hi: Vec<u64>, tw: &Vec<u64>, base: usize) -> (r: (Vec<u64>, Vec<u64>))
    requires
        lo@.len() == hi@.len(),
        base + lo@.len() <= tw@.len(),
        fourier::canonical(lo@),
        fourier::canonical(hi@),
    ensures
        r.0@.len() == lo@.len(),
        r.1@.len() == lo@.len(),
        fourier::canonical(r.0@),
        fourier::canonical(r.1@),
        forall|j: int|
            0 <= j < lo@.len() ==> #[trigger] r.0@[j] as int == field::residue(
                lo@[j] + field::residue(tw@[base + j] * hi@[j]),
            ),
        forall|j: int|
            0 <= j < lo@.len() ==> #[trigger] r.1@[j] as int == field::residue(
                lo@[j] - field::residue(tw@[base + j] * hi@[j]),
            ),
    decreases lo@.len(),
{
    let n: usize = lo.len();
    let total: usize = tw.len();
    let mut lo = lo;
    let mut hi = hi;
    let ghost l = lo@;
    let ghost h = hi@;
    if n > TARGET_TASK_SIZE {
        let half: usize = n / 2;
        let lo2: Vec<u64> = lo.split_off(half);
        let hi2: Vec<u64> = hi.split_off(half);
        let ghost (la, ha, lb, hb) = (lo@, hi@, lo2@, hi2@);
        let next: usize = base + half;
        proof {
            assert forall|i: int| 0 <= i < la.len() implies #[trigger] la[i] < P by {
                assert(la[i] == l[i]);
            }
            assert forall|i: int| 0 <= i < ha.len() implies #[trigger] ha[i] < P by {
                assert(ha[i] == h[i]);
            }
            assert forall|i: int| 0 <= i < lb.len() implies #[trigger] lb[i] < P by {
                assert(lb[i] == l[i + half]);
            }
            assert forall|i: int| 0 <= i < hb.len() implies #[trigger] hb[i] < P by {
                assert(hb[i] == h[i + half]);
            }
        }
        let low_task = move || -> (r: (Vec<u64>, Vec<u64>))
            ensures is_halves(r.0@, r.1@, la, ha, tw@, base as int)
        { pass_halves(lo, hi, tw, base) };
        let high_task = move || -> (r: (Vec<u64>, Vec<u64>))
            ensures is_halves(r.0@, r.1@, lb, hb, tw@, next as int)
        { pass_halves(lo2, hi2, tw, next) };
        let ((mut a0, mut a1), (mut b0, mut b1)) = rayon::join(low_task, high_task);
        let ghost (ga0, ga1, gb0, gb1) = (a0@, a1@, b0@, b1@);
        a0.append(&mut b0);
        a1.append(&mut b1);
        proof {
            assert forall|j: int| 0 <= j < n implies (#[trigger] a0@[j]) < P && a0@[j] as int
                == field::residue(l[j] + field::residue(tw@[base + j] * h[j])) by {
                if j < half {
                    assert(a0@[j] == ga0[j]);
                    assert(la[j] == l[j] && ha[j] == h[j]);
                } else {
                    assert(a0@[j] == gb0[j - half]);
                    assert(lb[j - half] == l[j] && hb[j - half] == h[j]);
                    assert(next + (j - half) == base + j);
                }
            }
            assert forall|j: int| 0 <= j < n implies (#[trigger] a1@[j]) < P && a1@[j] as int
                == field::residue(l[j] - field::residue(tw@[base + j] * h[j])) by {
                if j < half {
                    assert(a1@[j] == ga1[j]);
                    assert(la[j] == l[j] && ha[j] == h[j]);
                } else {
                    assert(a1@[j] == gb1[j - half]);
                    assert(lb[j - half] == l[j] && hb[j - half] == h[j]);
                    assert(next + (j - half) == base + j);
                }
            }
        }
        return (a0, a1);
    }
    let mut j: usize = 0;
    while j < n
        invariant
            n == l.len(),
            h.len() == n,
            lo@.len() == n,
            hi@.len() == n,
            j <= n,
            total == tw@.len(),
            base + n <= total,
            fourier::canonical(lo@),
            fourier::canonical(hi@),
            forall|i: int| j <= i < n ==> #[trigger] lo@[i] == l[i],
            forall|i: int| j <= i < n ==> #[trigger] hi@[i] == h[i],
            forall|i: int|
                0 <= i < j ==> #[trigger] lo@[i] as int == field::residue(
                    l[i] + field::residue(tw@[base + i] * h[i]),
                ),
            forall|i: int|
                0 <= i < j ==> #[trigger] hi@[i] as int == field::residue(
                    l[i] - field::residue(tw@[base + i] * h[i]),
                ),
        decreases n - j,
    {
        let u: u64 = lo[j];
        let t: u64 = crate::field::mul(tw[base + j], hi[j]);
        lo.set(j, crate::field::add(u, t));
        hi.set(j, crate::field::sub(u, t));
        j += 1;
    }
    (lo, hi)
}

/// The two halves of a block after its butterflies.
spec fn is_halves(
    r0: Seq<u64>,
    r1: Seq<u64>,
    lo: Seq<u64>,
    hi: Seq<u64>,
    tw: Seq<u64>,
    base: int,
) -> bool {
    &&& r0.len() == lo.len()
    &&& r1.len() == lo.len()
    &&& fourier::canonical(r0)
    &&& fourier::canonical(r1)
    &&& forall|j: int|
        0 <= j < lo.len() ==> #[trigger] r0[j] as int == field::residue(
            lo[j] + field::residue(tw[base + j] * hi[j]),
        )
    &&& forall|j: int|
        0 <= j < lo.len() ==> #[trigger] r1[j] as int == field::residue(
            lo[j] - field::residue(tw[base + j] * hi[j]),
        )
}

/// A pass over two runs of whole blocks is a pass over both together.
proof fn lemma_pass_joins(
    x: Seq<u64>,
    cut: int,
    y0: Seq<u64>,
    y1: Seq<u64>,
    tw: Seq<u64>,
    half: int,
)
    requires
        half > 0,
        0 <= cut <= x.len(),
        cut % (2 * half) == 0,
        x.len() as int % (2 * half) == 0,
        fourier::is_pass(x.subrange(0, cut), y0, tw, half),
        fourier::is_pass(x.subrange(cut, x.len() as int), y1, tw, half),
    ensures
        fourier::is_pass(x, y0 + y1, tw, half),
{
    let len = 2 * half;
    let x0 = x.subrange(0, cut);
    let x1 = x.subrange(cut, x.len() as int);
    let y = y0 + y1;
    assert forall|p: int| 0 <= p < x.len() implies #[trigger] y[p] as int == fourier::butterfly_at(
        x,
        tw,
        half,
        p,
    ) by {
        let start = p - p % len;
        lemma_fundamental_div_mod(p, len);
        lemma_mod_bound(p, len);
        lemma_mod_multiples_basic(p / len, len);
        lemma_mul_is_commutative(len, p / len);
        assert(start == (p / len) * len);
        assert(start >= 0) by (nonlinear_arith)
            requires
                start == (p / len) * len,
                p / len >= 0,
                len > 0,
        ;
        if p < cut {
            lemma_room(start, cut, len);
            assert(y[p] == y0[p]);
        } else {
            lemma_fundamental_div_mod(cut, len);
            lemma_room(start, x.len() as int, len);
            if start < cut {
                lemma_room(start, cut, len);
            }
            lemma_mod_multiples_vanish(-(cut / len), p, len);
            assert(len * (-(cut / len)) == -(len * (cut / len))) by (nonlinear_arith);
            assert((p - cut) % len == p % len);
            assert(y[p] == y1[p - cut]);
        }
    }
}

/// One pass, in parallel where the blocks are many or large.
fn pass(v: Vec<u64>, tw: &Vec<u64>, half: usize) -> (r: Vec<u64>)
    requires
        half > 0,
        2 * half <= usize::MAX,
        tw@.len() == half,
        v@.len() as int % (2 * half) == 0,
        fourier::canonical(v@),
    ensures
        fourier::is_pass(v@, r@, tw@, half as int),
        fourier::canonical(r@),
    decreases v@.len(),
{
    let n: usize = v.len();
    let len: usize = 2 * half;
    let ghost x = v@;
    let mut v = v;
    if n <= TARGET_TASK_SIZE {
        pass_serial(&mut v, tw, half);
        return v;
    }
    proof {
        lemma_room(0, n as int, len as int);
        lemma_fundamental_div_mod(n as int, len as int);
    }
    if n > len {
        let groups: usize = n / len;
        proof {
            let g = groups as int;
            let c = (groups / 2) as int;
            assert(g >= 2) by (nonlinear_arith)
                requires
                    n == len * g,
                    n > len,
                    len > 0,
            ;
            assert(0 < c * len < n && n - c * len == (g - c) * len) by (nonlinear_arith)
                requires
                    n == len * g,
                    len > 0,
                    0 < c < g,
            ;
            lemma_mod_multiples_basic(c, len as int);
            lemma_mod_multiples_basic(g - c, len as int);
        }
        let cut: usize = (groups / 2) * len;
        let rest: Vec<u64> = v.split_off(cut);
        let ghost (x0, x1) = (v@, rest@);
        proof {
            assert forall|i: int| 0 <= i < x0.len() implies #[trigger] x0[i] < P by {
                assert(x0[i] == x[i]);
            }
            assert forall|i: int| 0 <= i < x1.len() implies #[trigger] x1[i] < P by {
                assert(x1[i] == x[i + cut]);
            }
        }
        let low_task = move || -> (r: Vec<u64>)
            ensures fourier::is_pass(x0, r@, tw@, half as int) && fourier::canonical(r@)
        { pass(v, tw, half) };
        let high_task = move || -> (r: Vec<u64>)
            ensures fourier::is_pass(x1, r@, tw@, half as int) && fourier::canonical(r@)
        { pass(rest, tw, half) };
        let (mut low, mut high) = rayon::join(low_task, high_task);
        let ghost (y0, y1) = (low@, high@);
        low.append(&mut high);
        proof {
            lemma_pass_joins(x, cut as int, y0, y1, tw@, half as int);
            assert(low@ =~= y0 + y1);
            assert forall|i: int| 0 <= i < low@.len() implies #[trigger] low@[i] < P by {
                if i < y0.len() {
                    assert(low@[i] == y0[i]);
                } else {
                    assert(low@[i] == y1[i - y0.len()]);
                }
            }
        }
        return low;
    }
    let hi: Vec<u64> = v.split_off(half);
    let ghost (l, h) = (v@, hi@);
    proof {
        assert forall|i: int| 0 <= i < l.len() implies #[trigger] l[i] < P by {
            assert(l[i] == x[i]);
        }
        assert forall|i: int| 0 <= i < h.len() implies #[trigger] h[i] < P by {
            assert(h[i] == x[i + half]);
        }
    }
    let (mut low, mut high) = pass_halves(v, hi, tw, 0);
    let ghost (y0, y1) = (low@, high@);
    low.append(&mut high);
    proof {
        assert forall|p: int| 0 <= p < n implies (#[trigger] low@[p]) < P && low@[p] as int
            == fourier::butterfly_at(x, tw@, half as int, p) by {
            lemma_small_mod(p as nat, len as nat);
            if p < half {
                assert(low@[p] == y0[p]);
                assert(l[p] == x[p] && h[p] == x[p + half]);
            } else {
                assert(low@[p] == y1[p - half]);
                assert(l[p - half] == x[p - half] && h[p - half] == x[p]);
            }
        }
    }
    low
}

/// The twiddle tables of all passes of one transform.
pub struct Plan {
    pub log_n: u32,
    pub inverse: bool,
    pub tables: Vec<Arc<Vec<u64>>>,
}

impl Plan {
    /// The table of every pass is there.
    pub open spec fn wf(&self) -> bool {
        &&& self.log_n <= 32
        &&& pow2(self.log_n as nat) <= usize::MAX
        &&& self.tables@.len() == self.log_n
        &&& forall|m: int|
            0 <= m < self.log_n ==> fourier::is_table(
                #[trigger] self.tables@[m]@,
                twiddles::direction(self.inverse),
                (m + 1) as nat,
                pow2(m as nat),
            )
    }

    /// Collect the tables for transforms of length `2^log_n`.
    pub fn new(cache: &mut TwiddleCache, log_n: u32, inverse: bool) -> (r: Plan)
        requires
            old(cache).wf(),
            log_n <= 32,
            pow2(log_n as nat) <= usize::MAX,
        ensures
            final(cache).wf(),
            r.wf(),
            r.log_n == log_n,
            r.inverse == inverse,
    {
        let mut tables: Vec<Arc<Vec<u64>>> = Vec::new();
        let mut half: usize = 1;
        let mut m: u32 = 0;
        proof {
            lemma2_to64();
        }
        while m < log_n
            invariant
                cache.wf(),
                log_n <= 32,
                pow2(log_n as nat) <= usize::MAX,
                m <= log_n,
                m < log_n ==> half == pow2(m as nat),
                tables@.len() == m,
                forall|i: int|
                    0 <= i < m ==> fourier::is_table(
                        #[trigger] tables@[i]@,
                        twiddles::direction(inverse),
                        (i + 1) as nat,
                        pow2(i as nat),
                    ),
            decreases log_n - m,
        {
            proof {
                lemma_pow2_unfold((m + 1) as nat);
                if m + 1 < log_n {
                    lemma_pow2_strictly_increases((m + 1) as nat, log_n as nat);
                }
            }
            let t: Arc<Vec<u64>> = cache.get(half, inverse);
            proof {
                twiddles::lemma_pass_table(t@, m as nat, inverse);
            }
            let ghost before = tables@;
            tables.push(t);
            proof {
                assert forall|i: int| 0 <= i < m + 1 implies fourier::is_table(
                    #[trigger] tables@[i]@,
                    twiddles::direction(inverse),
                    (i + 1) as nat,
                    pow2(i as nat),
                ) by {
                    if i < m {
                        assert(tables@[i] == before[i]);
                        assert(fourier::is_table(
                            before[i]@,
                            twiddles::direction(inverse),
                            (i + 1) as nat,
                            pow2(i as nat),
                        ));
                    }
                }
            }
            m = m + 1;
            if m < log_n {
                half = half * 2;
            }
        }
        Plan { log_n, inverse, tables }
    }
}

/// The passes of a transform: over a bit-reversed input they give the
/// transform of the input.
fn butterflies(a: &mut Vec<u64>, plan: &Plan)
    requires
        plan.wf(),
        old(a)@.len() == pow2(plan.log_n as nat),
        fourier::canonical(old(a)@),
    ensures
        final(a)@.len() == old(a)@.len(),
        fourier::canonical(final(a)@),
        fourier::is_dft(
            fourier::reversed(old(a)@, plan.log_n as nat),
            final(a)@,
            twiddles::direction(plan.inverse),
            plan.log_n as nat,
        ),
{
    let ghost k = plan.log_n as nat;
    let ghost w = twiddles::direction(plan.inverse);
    let ghost src = fourier::reversed(a@, k);
    let log_n: u32 = plan.log_n;
    let mut v: Vec<u64> = Vec::new();
    std::mem::swap(a, &mut v);
    let mut half: usize = 1;
    let mut m: u32 = 0;
    proof {
        twiddles::lemma_roots();
        lemma2_to64();
        assert forall|i: int| 0 <= i < src.len() implies #[trigger] src[i] < P by {
            fourier::lemma_rev_bound(k, i as nat);
        }
        lemma_lg(k);
        law_bit_reverse_involution(v@);
        fourier::lemma_level_start(src, w, k);
    }
    while m < log_n
        invariant
            k == plan.log_n as nat,
            log_n == plan.log_n,
            w == twiddles::direction(plan.inverse),
            fourier::is_root(w),
            plan.wf(),
            m <= log_n,
            m < log_n ==> half == pow2(m as nat),
            fourier::canonical(v@),
            fourier::is_level(src, v@, w, k, m as nat),
        decreases log_n - m,
    {
        proof {
            lemma_pow2_unfold((m + 1) as nat);
            lemma_pow2_pos(m as nat);
            if m + 1 < log_n {
                lemma_pow2_strictly_increases((m + 1) as nat, log_n as nat);
            }
            lemma_pow2_adds((log_n - m - 1) as nat, (m + 1) as nat);
            lemma_mod_multiples_basic(
                pow2((log_n - m - 1) as nat) as int,
                pow2((m + 1) as nat) as int,
            );
            assert(fourier::is_table(
                plan.tables@[m as int]@,
                twiddles::direction(plan.inverse),
                (m + 1) as nat,
                pow2(m as nat),
            ));
        }
        let ghost x = v@;
        v = pass(v, &plan.tables[m as usize], half);
        proof {
            fourier::lemma_level_next(src, x, v@, plan.tables@[m as int]@, w, k, m as nat);
        }
        m = m + 1;
        if m < log_n {
            half = half * 2;
        }
    }
    proof {
        fourier::lemma_level_end(src, v@, w, k);
    }
    *a = v;
}

/// The transform by a plan.
pub fn transform(a: &mut Vec<u64>, plan: &Plan)
    requires
        plan.wf(),
        old(a)@.len() == pow2(plan.log_n as nat),
        fourier::canonical(old(a)@),
    ensures
        final(a)@.len() == old(a)@.len(),
        fourier::canonical(final(a)@),
        fourier::is_dft(old(a)@, final(a)@, twiddles::direction(plan.inverse), plan.log_n as nat),
{
    let ghost src = a@;
    let ghost k = plan.log_n as nat;
    proof {
        lemma_lg(k);
        law_bit_reverse_involution(a@);
        assert forall|i: int| 0 <= i < src.len() implies #[trigger] fourier::reversed(src, k)[i] < P by {
            fourier::lemma_rev_bound(k, i as nat);
        }
    }
    bit_reverse(a);
    butterflies(a, plan);
}

/// Forward transform in place: entry `k` becomes the sum of
/// `a[i] * w^(i * k)` modulo `P`, with `w` the root of unity whose order is
/// the length.
pub fn ntt_forward(a: &mut Vec<u64>)
    requires
        is_power(old(a)@.len()),
        old(a)@.len() <= 0x1_0000_0000,
        fourier::canonical(old(a)@),
    ensures
        fourier::canonical(final(a)@),
        fourier::is_dft(old(a)@, final(a)@, twiddles::forward_root(), lg(old(a)@.len())),
{
    let log_n: u32 = log2_exact(a.len());
    proof {
        lemma_lg_bound(a@.len());
    }
    let mut cache: TwiddleCache = TwiddleCache::new();
    let plan: Plan = Plan::new(&mut cache, log_n, false);
    transform(a, &plan);
}

/// `y` is the inverse transform of `x`, of length `2^m`: the length times
/// entry `j` is the sum of `x[k] * w^(-j * k)` modulo `P`.
pub open spec fn is_inverse_dft(x: Seq<u64>, y: Seq<u64>, m: nat) -> bool {
    &&& y.len() == x.len()
    &&& fourier::canonical(y)
    &&& forall|j: int|
        0 <= j < y.len() ==> field::residue(pow2(m) * #[trigger] y[j]) == fourier::dft_at(
            x,
            twiddles::inverse_root(),
            m,
            j as nat,
        )
}

/// Two to the power `P - 1` is one.
proof fn lemma_two_order()
    ensures
        field::residue(pow(2, (P - 1) as nat)) == 1,
{
    lemma2_to64();
    lemma2_to64_rest();
    lemma_pow2_adds(64, 32);
    lemma_pow2(96);
    let x = pow(2, 96);
    assert(pow2(64) == 0x1_0000_0000_0000_0000);
    assert(x == 0x1_0000_0000_0000_0000int * 0x1_0000_0000int);
    assert(x == 0x1_0000_0000_0000_0000_0000_0000int);
    assert(field::residue(x) == P - 1);
    fourier::lemma_minus_one_square(x);
    lemma_pow_adds(2, 96, 96);
    lemma_small_mod(1, P as nat);
    let q: nat = 0x155_5555_5400_0000;
    field::lemma_pow_residue(pow(2, 192), 1, q);
    lemma1_pow(q);
    lemma_pow_multiplies(2, 192, q);
}

/// Powers of two have inverses: `n * n^(P - 2)` is one.
proof fn lemma_length_inverse(m: nat)
    ensures
        field::residue(pow2(m) * pow(pow2(m) as int, (P - 2) as nat)) == 1,
{
    let n = pow2(m) as int;
    lemma_pow_adds(n, 1, (P - 2) as nat);
    lemma_pow1(n);
    lemma_pow2(m);
    lemma_pow_multiplies(2, m, (P - 1) as nat);
    lemma_pow_multiplies(2, (P - 1) as nat, m);
    lemma_mul_is_commutative(m as int, P - 1);
    lemma_two_order();
    lemma_small_mod(1, P as nat);
    field::lemma_pow_residue(pow(2, (P - 1) as nat), 1, m);
    lemma1_pow(m);
}

/// Every entry of `x` times `c`.
fn scale(x: &[u64], c: u64) -> (r: Vec<u64>)
    ensures
        r@.len() == x@.len(),
        fourier::canonical(r@),
        forall|i: int| 0 <= i < x@.len() ==> #[trigger] r@[i] as int == field::residue(x@[i] * c),
    decreases x@.len(),
{
    let n: usize = x.len();
    if n >= PARALLEL_POINTWISE_THRESHOLD {
        let (lo, hi) = x.split_at(n / 2);
        let low_task = || -> (r: Vec<u64>)
            ensures is_scaled(lo@, c as int, r@)
        { scale(lo, c) };
        let high_task = || -> (r: Vec<u64>)
            ensures is_scaled(hi@, c as int, r@)
        { scale(hi, c) };
        let (mut low, mut high) = rayon::join(low_task, high_task);
        let ghost (y0, y1) = (low@, high@);
        low.append(&mut high);
        proof {
            assert forall|i: int| 0 <= i < n implies (#[trigger] low@[i]) < P && low@[i] as int
                == field::residue(x@[i] * c) by {
                if i < lo@.len() {
                    assert(low@[i] == y0[i] && lo@[i] == x@[i]);
                } else {
                    assert(low@[i] == y1[i - lo@.len()] && hi@[i - lo@.len()] == x@[i]);
                }
            }
        }
        return low;
    }
    let mut out: Vec<u64> = Vec::with_capacity(n);
    while out.len() < n
        invariant
            n == x@.len(),
            out@.len() <= n,
            fourier::canonical(out@),
            forall|i: int| 0 <= i < out@.len() ==> #[trigger] out@[i] as int == field::residue(x@[i] * c),
        decreases n - out.len(),
    {
        let y: u64 = crate::field::mul(x[out.len()], c);
        out.push(y);
    }
    out
}

spec fn is_scaled(x: Seq<u64>, c: int, r: Seq<u64>) -> bool {
    &&& r.len() == x.len()
    &&& fourier::canonical(r)
    &&& forall|i: int| 0 <= i < x.len() ==> #[trigger] r[i] as int == field::residue(x[i] * c)
}

/// The inverse transform by a plan for the inverse direction.
pub fn transform_back(a: &mut Vec<u64>, plan: &Plan)
    requires
        plan.wf(),
        plan.inverse,
        old(a)@.len() == pow2(plan.log_n as nat),
        fourier::canonical(old(a)@),
    ensures
        is_inverse_dft(old(a)@, final(a)@, plan.log_n as nat),
{
    let ghost x = a@;
    let ghost m = plan.log_n as nat;
    let n: usize = a.len();
    transform(a, plan);
    let ghost y = a@;
    let n_inv: u64 = inv(n as u64);
    let out: Vec<u64> = scale(a.as_slice(), n_inv);
    proof {
        lemma_length_inverse(m);
        let p = P as int;
        let i = pow(n as int, (P - 2) as nat);
        lemma_mod_twice(i, p);
        assert forall|j: int| 0 <= j < n implies field::residue(pow2(m) * #[trigger] out@[j]) == fourier::dft_at(
            x,
            twiddles::inverse_root(),
            m,
            j as nat,
        ) by {
            assert(y[j] as int == fourier::dft_at(x, twiddles::inverse_root(), m, j as nat));
            let v = y[j] as int;
            field::lemma_product_residue(v, v, n_inv as int, i);
            lemma_mod_twice(v * n_inv, p);
            field::lemma_product_residue(n as int, n as int, out@[j] as int, v * i);
            fourier::lemma_times_one(v, n * i);
            assert(n * (v * i) == v * (n * i)) by (nonlinear_arith);
            lemma_small_mod(v as nat, P as nat);
        }
    }
    *a = out;
}

/// Inverse transform in place.
pub fn ntt_inverse(a: &mut Vec<u64>)
    requires
        is_power(old(a)@.len()),
        old(a)@.len() <= 0x1_0000_0000,
        fourier::canonical(old(a)@),
    ensures
        is_inverse_dft(old(a)@, final(a)@, lg(old(a)@.len())),
{
    let log_n: u32 = log2_exact(a.len());
    proof {
        lemma_lg_bound(a@.len());
    }
    let mut cache: TwiddleCache = TwiddleCache::new();
    let plan: Plan = Plan::new(&mut cache, log_n, true);
    transform_back(a, &plan);
}

/// Equal multiples by a power of two have equal residues.
proof fn lemma_length_cancels(m: nat, x: int, y: int)
    requires
        field::residue(pow2(m) * x) == field::residue(pow2(m) * y),
    ensures
        field::residue(x) == field::residue(y),
{
    lemma_length_inverse(m);
    let n = pow2(m) as int;
    let i = pow(n, (P - 2) as nat);
    field::lemma_product_residue(n * x, n * y, i, i);
    fourier::lemma_times_one(x, n * i);
    fourier::lemma_times_one(y, n * i);
    assert((n * x) * i == x * (n * i)) by (nonlinear_arith);
    assert((n * y) * i == y * (n * i)) by (nonlinear_arith);
}

/// The inverse transform undoes the forward transform.
pub proof fn law_ntt_round_trip(a: Seq<u64>, x: Seq<u64>, y: Seq<u64>)
    requires
        is_power(a.len()),
        a.len() <= 0x1_0000_0000,
        fourier::canonical(a),
        fourier::is_dft(a, x, twiddles::forward_root(), lg(a.len())),
        is_inverse_dft(x, y, lg(a.len())),
    ensures
        y == a,
{
    let m = lg(a.len());
    lemma_lg_bound(a.len());
    twiddles::lemma_roots();
    assert forall|j: int| 0 <= j < a.len() implies #[trigger] y[j] == a[j] by {
        fourier::lemma_inversion(a, x, twiddles::forward_root(), twiddles::inverse_root(), m, j as nat);
        lemma_length_cancels(m, y[j] as int, a[j] as int);
        lemma_small_mod(y[j] as nat, P as nat);
        lemma_small_mod(a[j] as nat, P as nat);
    }
    assert(y =~= a);
}

/// The logarithm of a length, rounded down, and the lengths that are powers of two.
pub proof fn law_lg(n: nat, k: nat)
    requires
        n > 0,
    ensures
        pow2(lg(n)) <= n < 2 * pow2(lg(n)),
        is_power(n) <==> n == pow2(lg(n)),
        is_power(pow2(k)),
        lg(pow2(k)) == k,
    decreases n, k,
{
    lemma2_to64();
    if n > 1 {
        law_lg(n / 2, 0);
        lemma_pow2_unfold(lg(n));
    }
    lemma_pow2_pos(k);
    if k > 0 {
        law_lg(n, (k - 1) as nat);
        lemma_pow2_unfold(k);
    }
}

} // verus!
