//! The four-step transform: a transform of length `m * m` as two rounds of
//! row transforms of length `m`, with a twist by roots of unity and
//! transpositions between them.
//!
//! The forward transform leaves entry `i + j * m` at position `i * m + j`; the
//! inverse takes its input in that order.
use crate::field;
use crate::field::{P, inv, primitive_root_of_unity};
use crate::fourier;
use crate::limbs;
use crate::limbs::copy_limbs;
use crate::ntt;
use crate::ntt::{Plan, log2_exact, transform, transform_back};
use crate::twiddles;
use crate::twiddles::{TwiddleCache, build_twiddles_serial};
use vstd::arithmetic::div_mod::*;
use vstd::arithmetic::mul::*;
use vstd::arithmetic::power2::*;
use vstd::arithmetic::power::*;
use vstd::prelude::*;
use vstd::slice::slice_subrange;

verus! {

/// The matrix of `m` rows with rows and columns exchanged.
pub open spec fn transposed(a: Seq<u64>, m: int) -> Seq<u64> {
    Seq::new(a.len(), |p: int| a[(p % m) * m + p / m])
}

/// Row `r` of the matrix.
pub open spec fn row(a: Seq<u64>, r: int, m: int) -> Seq<u64> {
    a.subrange(r * m, r * m + m)
}

/// Positions in range are those with row and column in range.
proof fn lemma_position(p: int, m: int)
    requires
        m > 0,
        0 <= p < m * m,
    ensures
        0 <= p / m < m,
        0 <= p % m < m,
        p == (p / m) * m + p % m,
        0 <= (p % m) * m + p / m < m * m,
        0 <= (p / m) * m <= m * m - m,
{
    lemma_fundamental_div_mod(p, m);
    lemma_mod_bound(p, m);
    let q = p / m;
    let r = p % m;
    lemma_mul_is_commutative(m, q);
    assert(0 <= q < m) by (nonlinear_arith)
        requires
            p == q * m + r,
            0 <= r < m,
            0 <= p < m * m,
    ;
    assert(0 <= r * m + q < m * m) by (nonlinear_arith)
        requires
            0 <= q < m,
            0 <= r < m,
    ;
    assert(0 <= q * m <= m * m - m) by (nonlinear_arith)
        requires
            0 <= q < m,
            m > 0,
    ;
}

/// Row and column of a position.
proof fn lemma_row_column(r: int, c: int, m: int)
    requires
        0 <= r < m,
        0 <= c < m,
    ensures
        0 <= r * m + c < m * m,
        (r * m + c) / m == r,
        (r * m + c) % m == c,
{
    assert(0 <= r * m + c < m * m) by (nonlinear_arith)
        requires
            0 <= r < m,
            0 <= c < m,
    ;
    lemma_fundamental_div_mod_converse(r * m + c, m, r, c);
}

/// Transposing twice gives the matrix back.
proof fn lemma_transposed_twice(a: Seq<u64>, m: int)
    requires
        m > 0,
        a.len() == m * m,
    ensures
        transposed(transposed(a, m), m) == a,
{
    let t = transposed(a, m);
    assert forall|p: int| 0 <= p < a.len() implies #[trigger] transposed(t, m)[p] == a[p] by {
        lemma_position(p, m);
        lemma_row_column(p % m, p / m, m);
    }
    assert(transposed(t, m) =~= a);
}

/// Exchange rows and columns of an `m` by `m` matrix, in place.
pub fn transpose_square_inplace(a: &mut Vec<u64>, m: usize)
    requires
        m > 0,
        old(a)@.len() == m * m,
    ensures
        final(a)@ == transposed(old(a)@, m as int),
{
    let ghost x = a@;
    let ghost t = transposed(x, m as int);
    let n: usize = a.len();
    let mut i: usize = 0;
    while i < m
        invariant
            m > 0,
            n == m * m,
            x.len() == n,
            t == transposed(x, m as int),
            a@.len() == n,
            i <= m,
            forall|p: int|
                0 <= p < n ==> #[trigger] a@[p] == if p / (m as int) < i || p % (m as int) < i {
                    t[p]
                } else {
                    x[p]
                },
        decreases m - i,
    {
        let mut j: usize = i + 1;
        proof {
            assert forall|p: int| 0 <= p < n implies #[trigger] a@[p] == if p / (m as int) < i
                || p % (m as int) < i || (p / (m as int) == i && p % (m as int) < j) || (p % (
            m as int) == i && p / (m as int) < j) {
                t[p]
            } else {
                x[p]
            } by {
                lemma_position(p, m as int);
                if p / (m as int) == i && p % (m as int) == i {
                    assert(t[p] == x[p]);
                }
            }
        }
        while j < m
            invariant
                m > 0,
                n == m * m,
                x.len() == n,
                t == transposed(x, m as int),
                a@.len() == n,
                i < m,
                i < j <= m,
                forall|p: int|
                    0 <= p < n ==> #[trigger] a@[p] == if p / (m as int) < i || p % (m as int) < i
                        || (p / (m as int) == i && p % (m as int) < j) || (p % (m as int) == i && p
                        / (m as int) < j) {
                        t[p]
                    } else {
                        x[p]
                    },
            decreases m - j,
        {
            let ghost mi = m as int;
            proof {
                lemma_row_column(i as int, j as int, mi);
                lemma_row_column(j as int, i as int, mi);
                assert(i * m <= n && j * m <= n);
            }
            let ghost before = a@;
            let p1: usize = i * m + j;
            let p2: usize = j * m + i;
            let x1: u64 = a[p1];
            let x2: u64 = a[p2];
            a.set(p1, x2);
            a.set(p2, x1);
            proof {
                assert(before[p1 as int] == x[p1 as int]);
                assert(before[p2 as int] == x[p2 as int]);
                assert(t[p1 as int] == x[p2 as int]);
                assert(t[p2 as int] == x[p1 as int]);
                assert forall|p: int| 0 <= p < n implies #[trigger] a@[p] == if p / mi < i || p % mi
                    < i || (p / mi == i && p % mi < j + 1) || (p % mi == i && p / mi < j + 1) {
                    t[p]
                } else {
                    x[p]
                } by {
                    lemma_position(p, mi);
                    if p != p1 && p != p2 {
                        assert(a@[p] == before[p]);
                    }
                }
            }
            j += 1;
        }
        proof {
            assert forall|p: int| 0 <= p < n implies #[trigger] a@[p] == if p / (m as int) < i + 1
                || p % (m as int) < i + 1 {
                t[p]
            } else {
                x[p]
            } by {
                lemma_position(p, m as int);
            }
        }
        i += 1;
    }
    proof {
        assert forall|p: int| 0 <= p < n implies #[trigger] a@[p] == t[p] by {
            lemma_position(p, m as int);
        }
        assert(a@ =~= t);
    }
}

/// The twisted matrix: entry `(s, i)` times the root to the power `s * i`.
pub open spec fn is_twisted(a: Seq<u64>, r: Seq<u64>, omega: int, m: int) -> bool {
    &&& r.len() == a.len()
    &&& fourier::canonical(r)
    &&& forall|p: int|
        0 <= p < a.len() ==> #[trigger] r[p] as int == field::residue(
            a[p] * pow(omega, ((p / m) * (p % m)) as nat),
        )
}

/// Multiply entry `(s, i)` of the `m` by `m` matrix by the power `s * i` of
/// the root of order `n = m * m`, or of its inverse.
pub fn apply_cross_twiddle(a: &mut Vec<u64>, n: usize, m: usize, inverse: bool)
    requires
        m > 0,
        n == m * m,
        old(a)@.len() == n,
        fourier::canonical(old(a)@),
    ensures
        is_twisted(old(a)@, final(a)@, twist_root(n as nat, inverse), m as int),
{
    let ghost x = a@;
    let ghost w = twist_root(n as nat, inverse);
    let ghost mi = m as int;
    proof {
        assert(n > 0) by (nonlinear_arith)
            requires
                m > 0,
                n == m * m,
        ;
    }
    let omega_base: u64 = primitive_root_of_unity(n as u64);
    let omega: u64 = if inverse {
        inv(omega_base)
    } else {
        omega_base
    };
    let step: Vec<u64> = build_twiddles_serial(omega, m);
    let mut s: usize = 0;
    while s < m
        invariant
            m > 0,
            mi == m as int,
            n == m * m,
            w == omega as int,
            step@.len() == m,
            twiddles::is_powers(step@, w, m as nat),
            x.len() == n,
            a@.len() == n,
            s <= m,
            fourier::canonical(x),
            fourier::canonical(a@),
            forall|p: int|
                0 <= p < n ==> #[trigger] a@[p] as int == if p / mi < s {
                    field::residue(x[p] * pow(w, ((p / mi) * (p % mi)) as nat))
                } else {
                    x[p] as int
                },
        decreases m - s,
    {
        let row_step: u64 = step[s];
        let mut tw: u64 = 1;
        let mut i: usize = 0;
        proof {
            assert(s * 0 == 0);
            lemma_pow0(w);
            lemma_small_mod(1, P as nat);
            assert forall|p: int| 0 <= p < n implies #[trigger] a@[p] as int == if p / mi < s || (p
                / mi == s && p % mi < i) {
                field::residue(x[p] * pow(w, ((p / mi) * (p % mi)) as nat))
            } else {
                x[p] as int
            } by {
                lemma_position(p, mi);
            }
        }
        while i < m
            invariant
                m > 0,
                mi == m as int,
                n == m * m,
                w == omega as int,
                twiddles::is_powers(step@, w, m as nat),
                row_step == step@[s as int],
                x.len() == n,
                a@.len() == n,
                s < m,
                i <= m,
                fourier::canonical(x),
                fourier::canonical(a@),
                tw as int == field::residue(pow(w, (s * i) as nat)),
                forall|p: int|
                    0 <= p < n ==> #[trigger] a@[p] as int == if p / mi < s || (p / mi == s && p
                        % mi < i) {
                        field::residue(x[p] * pow(w, ((p / mi) * (p % mi)) as nat))
                    } else {
                        x[p] as int
                    },
            decreases m - i,
        {
            proof {
                lemma_row_column(s as int, i as int, mi);
                assert(s * m <= n);
            }
            let ghost before = a@;
            let p1: usize = s * m + i;
            let v: u64 = crate::field::mul(a[p1], tw);
            a.set(p1, v);
            proof {
                let e = (s * i) as nat;
                lemma_mod_twice(pow(w, e), P as int);
                let xv = x[p1 as int] as int;
                field::lemma_product_residue(xv, xv, tw as int, pow(w, e));
                assert forall|p: int| 0 <= p < n implies #[trigger] a@[p] as int == if p / mi < s
                    || (p / mi == s && p % mi < i + 1) {
                    field::residue(x[p] * pow(w, ((p / mi) * (p % mi)) as nat))
                } else {
                    x[p] as int
                } by {
                    lemma_position(p, mi);
                    if p != p1 {
                        assert(a@[p] == before[p]);
                    }
                }
                assert(row_step as int == field::residue(1 * pow(w, s as nat)));
                assert(1 * pow(w, s as nat) == pow(w, s as nat));
                lemma_mod_twice(pow(w, s as nat), P as int);
                field::lemma_product_residue(tw as int, pow(w, e), row_step as int, pow(w, s as nat));
                lemma_pow_adds(w, e, s as nat);
                assert(s * i + s == s * (i + 1)) by (nonlinear_arith);
                assert(e + s as nat == (s * (i + 1)) as nat);
            }
            tw = crate::field::mul(tw, row_step);
            i += 1;
        }
        proof {
            assert forall|p: int| 0 <= p < n implies #[trigger] a@[p] as int == if p / mi < s + 1 {
                field::residue(x[p] * pow(w, ((p / mi) * (p % mi)) as nat))
            } else {
                x[p] as int
            } by {
                lemma_position(p, mi);
            }
        }
        s += 1;
    }
    proof {
        assert forall|p: int| 0 <= p < n implies #[trigger] a@[p] as int == field::residue(
            x[p] * pow(w, ((p / mi) * (p % mi)) as nat),
        ) by {
            lemma_position(p, mi);
        }
    }
}

/// The root of order `n` for one direction, reduced.
pub open spec fn twist_root(n: nat, inverse: bool) -> int {
    let base = field::residue(pow(field::GENERATOR as int, ((P - 1) / n as int) as nat));
    if inverse {
        field::residue(pow(base, (P - 2) as nat))
    } else {
        base
    }
}

/// The twist uses the root of the whole transform.
proof fn lemma_twist_root(k: nat, inverse: bool, e: nat)
    requires
        1 <= k <= 32,
    ensures
        field::residue(pow(twist_root(pow2(k), inverse), e)) == field::residue(
            fourier::twiddle(twiddles::direction(inverse), k, e),
        ),
{
    let w = twiddles::direction(inverse);
    lemma_pow2_unfold(k);
    lemma_pow2_pos((k - 1) as nat);
    twiddles::lemma_pass_root((k - 1) as nat, inverse);
    assert(twist_root(pow2(k), inverse) == twiddles::pass_root(pow2((k - 1) as nat), inverse));
    lemma_mod_twice(fourier::root(w, k), P as int);
    field::lemma_pow_residue(twist_root(pow2(k), inverse), fourier::root(w, k), e);
}

/// One column of `a` as a sequence of its own.
proof fn lemma_strided_column(a: Seq<u64>, s: Seq<u64>, m: nat, c: nat, count: nat, z: int)
    requires
        s.len() >= count,
        forall|r: int| 0 <= r < count ==> #[trigger] s[r] == a[c + m * r],
    ensures
        fourier::strided(a, m, c, count, z) == limbs::digits_value(s.take(count as int), z),
    decreases count,
{
    if count > 0 {
        let q = (count - 1) as nat;
        lemma_strided_column(a, s, m, c, q, z);
        assert(s.take(count as int).drop_last() =~= s.take(q as int));
        assert(s.take(count as int).last() == s[q as int]);
        assert(s[q as int] == a[c + m * (count - 1)]);
    }
}

/// The two rounds: where `d` holds, up to the factor `scale`, the transforms
/// of the columns of `a` at `i`, twisted, the transform of `d` at `j` is that
/// of `a` at `i + j * m`.
proof fn lemma_two_rounds(
    a: Seq<u64>,
    d: Seq<u64>,
    w: int,
    h: nat,
    i: nat,
    j: nat,
    scale: int,
)
    requires
        fourier::is_root(w),
        2 * h <= 32,
        a.len() == pow2(2 * h),
        d.len() == pow2(h),
        forall|c: int|
            0 <= c < d.len() ==> field::residue(scale * #[trigger] d[c]) == field::residue(
                fourier::strided(a, pow2(h), c as nat, pow2(h), fourier::twiddle(w, h, i)) * fourier::twiddle(
                    w,
                    2 * h,
                    c as nat * i,
                ),
            ),
    ensures
        field::residue(scale * limbs::digits_value(d, fourier::twiddle(w, h, j))) == fourier::dft_at(
            a,
            w,
            2 * h,
            i + j * pow2(h),
        ),
{
    let m = pow2(h);
    let k = 2 * h;
    let e = i + j * m;
    let y = fourier::twiddle(w, k, e);
    let t = fourier::twiddle(w, h, j);
    lemma_pow2_pos(h);
    lemma_pow2_adds(h, h);
    // The root of order m is the power m of the root of order m * m.
    lemma_pow_multiplies(w, pow2((32 - k) as nat), m);
    lemma_pow2_adds((32 - k) as nat, h);
    let rk = fourier::root(w, k);
    let rh = fourier::root(w, h);
    assert(pow(rk, m) == rh);
    // y^m has the residue of the point at i.
    lemma_pow_multiplies(rk, e, m);
    lemma_pow_multiplies(rk, m, e);
    lemma_mul_is_commutative(e as int, m as int);
    assert(pow(y, m) == pow(rh, e));
    lemma_pow_adds(rh, i, j * m);
    lemma_pow_multiplies(rh, m, j);
    lemma_mul_is_commutative(m as int, j as int);
    fourier::lemma_twiddle_full(w, h);
    lemma_small_mod(1, P as nat);
    field::lemma_pow_residue(pow(rh, m), 1, j);
    lemma1_pow(j);
    fourier::lemma_times_one(pow(rh, i), pow(rh, j * m));
    assert(field::residue(pow(y, m)) == field::residue(fourier::twiddle(w, h, i)));
    let f = |c: int| scale * (d[c] * pow(t, c as nat));
    let f0 = |c: int| d[c] * pow(t, c as nat);
    let g = |c: int| pow(y, c as nat) * fourier::strided(a, m, c as nat, m, pow(y, m));
    assert forall|c: int| 0 <= c < m implies field::residue(#[trigger] f(c)) == field::residue(g(c)) by {
        let cn = c as nat;
        let s0 = fourier::strided(a, m, cn, m, fourier::twiddle(w, h, i));
        let s1 = fourier::strided(a, m, cn, m, pow(y, m));
        fourier::lemma_strided_residue(a, m, cn, m, pow(y, m), fourier::twiddle(w, h, i));
        // y^c == rk^(c * i) * t^c.
        lemma_pow_multiplies(rk, e, cn);
        lemma_pow_multiplies(rh, j, cn);
        lemma_pow_multiplies(rk, m, j * cn);
        assert(e * cn == cn * i + m * (j * cn)) by (nonlinear_arith)
            requires
                e == i + j * m,
        ;
        lemma_pow_adds(rk, cn * i, m * (j * cn));
        let tw = fourier::twiddle(w, k, cn * i);
        let tc = pow(t, cn);
        assert(pow(y, cn) == tw * tc);
        let x = d[c] as int;
        field::lemma_product_residue(scale * x, s0 * tw, tc, tc);
        field::lemma_product_residue(s0, s1, tw * tc, tw * tc);
        assert(scale * (x * tc) == (scale * x) * tc) by (nonlinear_arith);
        assert((s0 * tw) * tc == s0 * (tw * tc)) by (nonlinear_arith);
        assert((tw * tc) * s1 == s1 * (tw * tc)) by (nonlinear_arith);
    }
    fourier::lemma_sum_residues(f, g, m);
    fourier::lemma_sum_scales(f, f0, scale, m);
    fourier::lemma_digits_sum(d, t);
    fourier::lemma_decimation(a, y, m, m);
    assert(a.take((m * m) as int) =~= a);
}

/// Every row transformed.
pub open spec fn are_rows_dft(x: Seq<u64>, y: Seq<u64>, w: int, h: nat, m: int) -> bool {
    &&& y.len() == x.len()
    &&& fourier::canonical(y)
    &&& forall|p: int|
        0 <= p < x.len() ==> #[trigger] y[p] as int == fourier::dft_at(
            row(x, p / m, m),
            w,
            h,
            (p % m) as nat,
        )
}

/// Every row transformed back.
pub open spec fn are_rows_inverse(x: Seq<u64>, y: Seq<u64>, h: nat, m: int) -> bool {
    &&& y.len() == x.len()
    &&& fourier::canonical(y)
    &&& forall|p: int|
        0 <= p < x.len() ==> field::residue(pow2(h) * #[trigger] y[p]) == fourier::dft_at(
            row(x, p / m, m),
            twiddles::inverse_root(),
            h,
            (p % m) as nat,
        )
}

/// Transform every row of an `m` by `m` matrix.
fn transform_rows(a: &mut Vec<u64>, m: usize, plan: &Plan)
    requires
        plan.wf(),
        m == pow2(plan.log_n as nat),
        old(a)@.len() == m * m,
        fourier::canonical(old(a)@),
    ensures
        !plan.inverse ==> are_rows_dft(
            old(a)@,
            final(a)@,
            twiddles::forward_root(),
            plan.log_n as nat,
            m as int,
        ),
        plan.inverse ==> are_rows_inverse(old(a)@, final(a)@, plan.log_n as nat, m as int),
{
    let ghost x = a@;
    let ghost h = plan.log_n as nat;
    let ghost mi = m as int;
    let n: usize = a.len();
    let mut out: Vec<u64> = Vec::with_capacity(n);
    let mut r: usize = 0;
    proof {
        lemma_pow2_pos(h);
        assert(0 * m == 0);
    }
    while r < m
        invariant
            plan.wf(),
            h == plan.log_n as nat,
            mi == m as int,
            m == pow2(h),
            m > 0,
            n == m * m,
            a@ == x,
            x.len() == n,
            fourier::canonical(x),
            r <= m,
            out@.len() == r * m,
            fourier::canonical(out@),
            !plan.inverse ==> forall|p: int|
                0 <= p < out@.len() ==> #[trigger] out@[p] as int == fourier::dft_at(
                    row(x, p / mi, mi),
                    twiddles::forward_root(),
                    h,
                    (p % mi) as nat,
                ),
            plan.inverse ==> forall|p: int|
                0 <= p < out@.len() ==> field::residue(pow2(h) * #[trigger] out@[p]) == fourier::dft_at(
                    row(x, p / mi, mi),
                    twiddles::inverse_root(),
                    h,
                    (p % mi) as nat,
                ),
        decreases m - r,
    {
        proof {
            lemma_row_column(r as int, mi - 1, mi);
            assert(r * m + m == (r + 1) * m) by (nonlinear_arith);
        }
        let mut chunk: Vec<u64> = copy_limbs(slice_subrange(a.as_slice(), r * m, r * m + m));
        proof {
            assert(chunk@ =~= row(x, r as int, mi));
            assert forall|i: int| 0 <= i < chunk@.len() implies #[trigger] chunk@[i] < P by {
                assert(chunk@[i] == x[r * m + i]);
            }
        }
        if plan.inverse {
            transform_back(&mut chunk, plan);
        } else {
            transform(&mut chunk, plan);
        }
        let ghost done = out@;
        let ghost new = chunk@;
        out.append(&mut chunk);
        proof {
            assert forall|p: int| 0 <= p < out@.len() implies (#[trigger] out@[p]) < P && (
            if plan.inverse {
                field::residue(pow2(h) * out@[p]) == fourier::dft_at(
                    row(x, p / mi, mi),
                    twiddles::inverse_root(),
                    h,
                    (p % mi) as nat,
                )
            } else {
                out@[p] as int == fourier::dft_at(row(x, p / mi, mi), twiddles::forward_root(), h, (p % mi) as nat)
            }) by {
                if p < done.len() {
                    assert(out@[p] == done[p]);
                } else {
                    let c = p - r * m;
                    lemma_row_column(r as int, c, mi);
                    assert(out@[p] == new[c]);
                }
            }
        }
        r += 1;
    }
    *a = out;
}

/// The side of the square matrix: half the logarithm of the length.
pub open spec fn half_lg(n: nat) -> nat {
    ntt::lg(n) / 2
}

/// Lengths that the square transforms take: even powers of two.
pub open spec fn is_square_length(n: nat) -> bool {
    &&& ntt::is_power(n)
    &&& n <= 0x1_0000_0000
    &&& ntt::lg(n) % 2 == 0
}

/// A column of the transposed matrix is a row.
proof fn lemma_transposed_row(a: Seq<u64>, m: int, c: int, z: int)
    requires
        m > 0,
        a.len() == m * m,
        0 <= c < m,
    ensures
        limbs::digits_value(row(transposed(a, m), c, m), z) == fourier::strided(a, m as nat, c as nat, m as nat, z),
{
    let s = row(transposed(a, m), c, m);
    lemma_row_column(c, m - 1, m);
    assert forall|r: int| 0 <= r < m implies #[trigger] s[r] == a[c + m * r] by {
        lemma_row_column(c, r, m);
        lemma_mul_is_commutative(m, r);
    }
    lemma_strided_column(a, s, m as nat, c as nat, m as nat, z);
    assert(s.take(m) =~= s);
}

/// Forward transform of a square length: the transform of the input, entry
/// `i + j * m` at position `i * m + j`.
pub fn forward_square(a: &mut Vec<u64>)
    requires
        is_square_length(old(a)@.len()),
        fourier::canonical(old(a)@),
    ensures
        fourier::canonical(final(a)@),
        fourier::is_dft(
            old(a)@,
            transposed(final(a)@, pow2(half_lg(old(a)@.len())) as int),
            twiddles::forward_root(),
            ntt::lg(old(a)@.len()),
        ),
{
    let ghost x = a@;
    let n: usize = a.len();
    let log_n: u32 = log2_exact(n);
    let ghost k = log_n as nat;
    let h: u32 = log_n / 2;
    let ghost hn = h as nat;
    let ghost w = twiddles::forward_root();
    proof {
        ntt::lemma_lg_bound(n as nat);
        lemma_pow2_adds(hn, hn);
        lemma_pow2_pos(hn);
        twiddles::lemma_roots();
    }
    if n <= 1 {
        proof {
            lemma2_to64();
            assert(k == 0) by {
                if k > 0 {
                    lemma_pow2_strictly_increases(0, k);
                }
            }
            let t = transposed(x, 1);
            assert(t =~= x);
            let z = fourier::twiddle(w, 0, 0);
            lemma_pow0(z);
            assert(x.drop_last().len() == 0);
            assert(limbs::digits_value(x.drop_last(), z) == 0);
            assert(limbs::digits_value(x, z) == x[0] * 1);
            lemma_small_mod(x[0] as nat, P as nat);
        }
        return ;
    }
    proof {
        lemma2_to64();
        assert(k >= 1);
        assert(pow2(hn) <= n) by (nonlinear_arith)
            requires
                n == pow2(hn) * pow2(hn),
                pow2(hn) >= 1,
        ;
    }
    let m: usize = power_of(h);
    let ghost mi = m as int;
    let mut cache: TwiddleCache = TwiddleCache::new();
    let plan: Plan = Plan::new(&mut cache, h, false);
    transpose_square_inplace(a, m);
    proof {
        assert forall|p: int| 0 <= p < n implies #[trigger] a@[p] < P by {
            lemma_position(p, mi);
        }
    }
    transform_rows(a, m, &plan);
    let ghost b = a@;
    apply_cross_twiddle(a, n, m, false);
    let ghost c = a@;
    transpose_square_inplace(a, m);
    let ghost d = a@;
    proof {
        assert forall|p: int| 0 <= p < n implies #[trigger] a@[p] < P by {
            lemma_position(p, mi);
        }
    }
    transform_rows(a, m, &plan);
    proof {
        let y = transposed(a@, mi);
        assert forall|q: int| 0 <= q < y.len() implies #[trigger] y[q] as int == fourier::dft_at(
            x,
            w,
            k,
            q as nat,
        ) by {
            lemma_position(q, mi);
            let i = q % mi;
            let j = q / mi;
            lemma_row_column(i, j, mi);
            let rd = row(d, i, mi);
            lemma_row_column(i, mi - 1, mi);
            assert forall|s: int| 0 <= s < rd.len() implies field::residue(1 * #[trigger] rd[s])
                == field::residue(
                fourier::strided(x, pow2(hn), s as nat, pow2(hn), fourier::twiddle(w, hn, i as nat)) * fourier::twiddle(
                    w,
                    2 * hn,
                    s as nat * i as nat,
                ),
            ) by {
                lemma_row_column(i, s, mi);
                lemma_row_column(s, i, mi);
                let v = c[s * mi + i] as int;
                assert(rd[s] as int == v);
                let st = fourier::strided(x, m as nat, s as nat, m as nat, fourier::twiddle(w, hn, i as nat));
                lemma_transposed_row(x, mi, s, fourier::twiddle(w, hn, i as nat));
                assert(b[s * mi + i] as int == field::residue(st));
                let tr = pow(twist_root(n as nat, false), (s * i) as nat);
                assert(v == field::residue(b[s * mi + i] * tr));
                lemma_twist_root(k, false, (s * i) as nat);
                lemma_mod_twice(st, P as int);
                field::lemma_product_residue(
                    b[s * mi + i] as int,
                    st,
                    tr,
                    fourier::twiddle(w, k, (s * i) as nat),
                );
                lemma_mod_twice(b[s * mi + i] * tr, P as int);
                assert((s * i) as nat == s as nat * i as nat);
            }
            lemma_two_rounds(x, rd, w, hn, i as nat, j as nat, 1);
            let dv = limbs::digits_value(rd, fourier::twiddle(w, hn, j as nat));
            assert(1 * dv == dv);
            assert(i as nat + j as nat * pow2(hn) == q as nat);
        }
    }
}

/// `2^h`.
fn power_of(h: u32) -> (m: usize)
    requires
        pow2(h as nat) <= usize::MAX,
    ensures
        m == pow2(h as nat),
{
    let mut m: usize = 1;
    let mut i: u32 = 0;
    proof {
        lemma2_to64();
    }
    while i < h
        invariant
            i <= h,
            m == pow2(i as nat),
            pow2(h as nat) <= usize::MAX,
        decreases h - i,
    {
        proof {
            lemma_pow2_unfold((i + 1) as nat);
            if i + 1 < h {
                lemma_pow2_strictly_increases((i + 1) as nat, h as nat);
            }
        }
        m = m * 2;
        i += 1;
    }
    m
}

/// Inverse transform of a square length, from the order that
/// [`forward_square`] leaves.
pub fn inverse_square(a: &mut Vec<u64>)
    requires
        is_square_length(old(a)@.len()),
        fourier::canonical(old(a)@),
    ensures
        ntt::is_inverse_dft(
            transposed(old(a)@, pow2(half_lg(old(a)@.len())) as int),
            final(a)@,
            ntt::lg(old(a)@.len()),
        ),
{
    let ghost x = a@;
    let n: usize = a.len();
    let log_n: u32 = log2_exact(n);
    let ghost k = log_n as nat;
    let h: u32 = log_n / 2;
    let ghost hn = h as nat;
    let ghost w = twiddles::inverse_root();
    proof {
        ntt::lemma_lg_bound(n as nat);
        lemma_pow2_adds(hn, hn);
        lemma_pow2_pos(hn);
        twiddles::lemma_roots();
    }
    if n <= 1 {
        proof {
            lemma2_to64();
            assert(k == 0) by {
                if k > 0 {
                    lemma_pow2_strictly_increases(0, k);
                }
            }
            let t = transposed(x, 1);
            assert(t =~= x);
            let z = fourier::twiddle(w, 0, 0);
            lemma_pow0(z);
            assert(x.drop_last().len() == 0);
            assert(limbs::digits_value(x.drop_last(), z) == 0);
            assert(limbs::digits_value(x, z) == x[0] * 1);
            assert(pow2(0) * x[0] == x[0]);
        }
        return ;
    }
    proof {
        lemma2_to64();
        assert(k >= 1);
        assert(pow2(hn) <= n) by (nonlinear_arith)
            requires
                n == pow2(hn) * pow2(hn),
                pow2(hn) >= 1,
        ;
    }
    let m: usize = power_of(h);
    let ghost mi = m as int;
    let mut cache: TwiddleCache = TwiddleCache::new();
    let plan: Plan = Plan::new(&mut cache, h, true);
    transform_rows(a, m, &plan);
    let ghost u = a@;
    transpose_square_inplace(a, m);
    proof {
        assert forall|p: int| 0 <= p < n implies #[trigger] a@[p] < P by {
            lemma_position(p, mi);
        }
    }
    apply_cross_twiddle(a, n, m, true);
    let ghost c = a@;
    transform_rows(a, m, &plan);
    let ghost z = a@;
    transpose_square_inplace(a, m);
    proof {
        let nat_order = transposed(x, mi);
        lemma_transposed_twice(x, mi);
        assert forall|p: int| 0 <= p < n implies #[trigger] a@[p] < P by {
            lemma_position(p, mi);
        }
        assert forall|q: int| 0 <= q < n implies field::residue(pow2(k) * #[trigger] a@[q]) == fourier::dft_at(
            nat_order,
            w,
            k,
            q as nat,
        ) by {
            lemma_position(q, mi);
            let i = q % mi;
            let j = q / mi;
            lemma_row_column(i, j, mi);
            let v = z[i * mi + j] as int;
            assert(a@[q] as int == v);
            let rd = row(c, i, mi);
            lemma_row_column(i, mi - 1, mi);
            assert forall|s: int| 0 <= s < rd.len() implies field::residue(mi * #[trigger] rd[s])
                == field::residue(
                fourier::strided(nat_order, pow2(hn), s as nat, pow2(hn), fourier::twiddle(w, hn, i as nat))
                    * fourier::twiddle(w, 2 * hn, s as nat * i as nat),
            ) by {
                lemma_row_column(i, s, mi);
                lemma_row_column(s, i, mi);
                let uv = u[s * mi + i] as int;
                let st = fourier::strided(nat_order, m as nat, s as nat, m as nat, fourier::twiddle(w, hn, i as nat));
                lemma_transposed_row(nat_order, mi, s, fourier::twiddle(w, hn, i as nat));
                assert(field::residue(mi * uv) == field::residue(st));
                let tr = pow(twist_root(n as nat, true), (i * s) as nat);
                assert(rd[s] as int == c[i * mi + s] as int);
                assert(rd[s] as int == field::residue(uv * tr));
                lemma_twist_root(k, true, (i * s) as nat);
                let tw = fourier::twiddle(w, k, (i * s) as nat);
                lemma_mod_twice(uv * tr, P as int);
                field::lemma_product_residue(mi, mi, rd[s] as int, uv * tr);
                field::lemma_product_residue(mi * uv, st, tr, tw);
                assert(mi * (uv * tr) == (mi * uv) * tr) by (nonlinear_arith);
                lemma_mul_is_commutative(i, s);
                assert((i * s) as nat == s as nat * i as nat);
            }
            lemma_two_rounds(nat_order, rd, w, hn, i as nat, j as nat, mi);
            let dv = limbs::digits_value(rd, fourier::twiddle(w, hn, j as nat));
            assert(field::residue(pow2(hn) * z[i * mi + j]) == field::residue(dv));
            field::lemma_product_residue(mi, mi, mi * v, dv);
            assert(mi * (mi * v) == (mi * mi) * v) by (nonlinear_arith);
            assert(i as nat + j as nat * pow2(hn) == q as nat);
        }
    }
}

/// The inverse square transform undoes the forward one.
pub proof fn law_four_step_round_trip(a: Seq<u64>, x: Seq<u64>, y: Seq<u64>)
    requires
        is_square_length(a.len()),
        fourier::canonical(a),
        x.len() == a.len(),
        fourier::is_dft(a, transposed(x, pow2(half_lg(a.len())) as int), twiddles::forward_root(), ntt::lg(a.len())),
        ntt::is_inverse_dft(transposed(x, pow2(half_lg(a.len())) as int), y, ntt::lg(a.len())),
    ensures
        y == a,
{
    ntt::law_ntt_round_trip(a, transposed(x, pow2(half_lg(a.len())) as int), y);
}

} // verus!
