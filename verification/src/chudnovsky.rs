//! The Chudnovsky series by binary splitting.
//!
//! With `A = 13591409`, `B = 545140134` and `C = 640320`, the sum over `k` of
//! `M_k * (A + B * k)`, where `M_k` is the product of `p_j / q_j` up to `k`,
//! `p_j = -(6j - 5)(6j - 1)(2j - 1)` and `q_j = j^3 * C^3 / 24`, is
//! `426880 * sqrt(10005) / pi`.  Binary splitting gives the sum of the terms
//! from 1 on as `T / Q` with integers `T` and `Q`.
use crate::accuracy;
use crate::integer;
use crate::integer::{Integer, add_signed, mul_signed, neg_signed, sub_signed};
use crate::limbs;
use crate::pi_config::ChudnovskyConfig;
use crate::progress;
use crate::progress::{ProgressEvent, ProgressReporter};
use crate::reals;
use vstd::arithmetic::div_mod::*;
use vstd::arithmetic::mul::*;
use vstd::arithmetic::power2::*;
use vstd::arithmetic::power::*;
use vstd::prelude::*;

verus! {

/// The constant part of a term.
pub const TERM_A: u32 = 13_591_409;

/// The linear part of a term.
pub const TERM_B: u32 = 545_140_134;

/// `640320^3 / 24`.
pub const C3_OVER_24: u64 = 10_939_058_860_032_000;

/// `-(6k - 5)(6k - 1)(2k - 1)`.
pub open spec fn p_term(k: int) -> int {
    -((6 * k - 5) * (6 * k - 1) * (2 * k - 1))
}

/// `k^3 * C^3 / 24`.
pub open spec fn q_term(k: int) -> int {
    C3_OVER_24 * (k * k * k)
}

/// `A + B * k`.
pub open spec fn l_term(k: int) -> int {
    TERM_A + TERM_B * k
}

/// The product of `p_term` over `a..b`.
pub open spec fn split_p(a: int, b: int) -> int
    decreases b - a,
{
    if b <= a {
        1
    } else {
        split_p(a, b - 1) * p_term(b - 1)
    }
}

/// The product of `q_term` over `a..b`.
pub open spec fn split_q(a: int, b: int) -> int
    decreases b - a,
{
    if b <= a {
        1
    } else {
        split_q(a, b - 1) * q_term(b - 1)
    }
}

/// `split_q(a, b)` times the sum over `k` in `a..b` of `l_term(k)` times the
/// product of `p / q` over `a..k + 1`.
pub open spec fn split_t(a: int, b: int) -> int
    decreases b - a,
{
    if b <= a {
        0
    } else {
        split_t(a, b - 1) * q_term(b - 1) + split_p(a, b) * l_term(b - 1)
    }
}

/// Splitting a range: the products multiply, and the sums combine as
/// `T = T_l * Q_r + P_l * T_r`.
pub proof fn law_binary_splitting(a: int, m: int, b: int)
    requires
        a <= m <= b,
    ensures
        split_p(a, b) == split_p(a, m) * split_p(m, b),
        split_q(a, b) == split_q(a, m) * split_q(m, b),
        split_t(a, b) == split_t(a, m) * split_q(m, b) + split_p(a, m) * split_t(m, b),
    decreases b - m,
{
    if b == m {
        assert(split_p(a, m) * 0 == 0 && split_p(a, m) * 1 == split_p(a, m));
        assert(split_q(a, m) * 1 == split_q(a, m) && split_t(a, m) * 1 == split_t(a, m));
    } else {
        law_binary_splitting(a, m, b - 1);
        let p = p_term(b - 1);
        let q = q_term(b - 1);
        let l = l_term(b - 1);
        let (pl, pr) = (split_p(a, m), split_p(m, b - 1));
        let (ql, qr) = (split_q(a, m), split_q(m, b - 1));
        let (tl, tr) = (split_t(a, m), split_t(m, b - 1));
        let x = pr * p;
        lemma_mul_is_associative(pl, pr, p);
        lemma_mul_is_associative(ql, qr, q);
        lemma_mul_is_associative(tl, qr, q);
        lemma_mul_is_associative(pl, tr, q);
        lemma_mul_is_associative(pl, x, l);
        lemma_mul_is_distributive_add_other_way(q, tl * qr, pl * tr);
        lemma_mul_is_distributive_add(pl, tr * q, x * l);
    }
}

/// A range of one term.
pub proof fn law_single_term(a: int)
    ensures
        split_p(a, a + 1) == -((6 * a - 5) * (6 * a - 1) * (2 * a - 1)),
        split_q(a, a + 1) == 10_939_058_860_032_000 * (a * a * a),
        split_t(a, a + 1) == split_p(a, a + 1) * (13_591_409 + 545_140_134 * a),
{
    reveal_with_fuel(split_p, 2);
    reveal_with_fuel(split_q, 2);
    reveal_with_fuel(split_t, 2);
    assert(0 * q_term(a) == 0);
}

/// The factor of term `k`: the product of `p_j / q_j` up to `k`.
pub open spec fn factor(k: nat) -> real
    decreases k,
{
    if k == 0 {
        1real
    } else {
        factor((k - 1) as nat) * ((p_term(k as int) as real) / (q_term(k as int) as real))
    }
}

/// The sum of the terms 1 to `n` of the series.
pub open spec fn series(n: nat) -> real
    decreases n,
{
    if n == 0 {
        0real
    } else {
        series((n - 1) as nat) + factor(n) * (l_term(n as int) as real)
    }
}

/// The terms of `Q` are positive.
proof fn lemma_q_positive(a: int, b: int)
    requires
        a >= 1,
    ensures
        split_q(a, b) > 0,
    decreases b - a,
{
    if b > a {
        lemma_q_positive(a, b - 1);
        let k = b - 1;
        assert(k * k * k >= 1) by (nonlinear_arith)
            requires
                k >= 1,
        ;
        let x = split_q(a, b - 1);
        let y = q_term(k);
        assert(y > 0);
        assert(x * y > 0) by (nonlinear_arith)
            requires
                x > 0,
                y > 0,
        ;
    }
}

/// Binary splitting sums the series: `T(1, n as int + 1) / Q(1, n as int + 1)` is the sum of
/// the terms 1 to `n`, and `P / Q` is the factor of term `n`.
pub proof fn law_partial_sum(n: nat)
    ensures
        split_q(1, n as int + 1) > 0,
        (split_p(1, n as int + 1) as real) == factor(n) * (split_q(1, n as int + 1) as real),
        (split_t(1, n as int + 1) as real) == series(n) * (split_q(1, n as int + 1) as real),
    decreases n,
{
    lemma_q_positive(1, n as int + 1);
    if n == 0 {
        assert(1real * 1real == 1real) by (nonlinear_arith);
        assert(0real * 1real == 0real) by (nonlinear_arith);
    } else {
        let m = (n - 1) as nat;
        let k = n as int;
        law_partial_sum(m);
        lemma_q_positive(k, k + 1);
        assert(split_q(k, k) == 1);
        assert(split_q(k, k + 1) == 1 * q_term(k));
        let (p0, q0, t0) = (split_p(1, k), split_q(1, k), split_t(1, k));
        let (p, q, l) = (p_term(k), q_term(k), l_term(k));
        reals::lemma_int_product(p0, p);
        reals::lemma_int_product(q0, q);
        reals::lemma_int_product(t0, q);
        reals::lemma_int_product(p0 * p, l);
        let (p0r, q0r, t0r) = (p0 as real, q0 as real, t0 as real);
        let (pr, qr, lr) = (p as real, q as real, l as real);
        let f = factor(m);
        let s = series(m);
        let g = pr / qr;
        assert(g * qr == pr) by (nonlinear_arith)
            requires
                g == pr / qr,
                qr > 0real,
        ;
        accuracy::lemma_regroup(f, q0r, g, qr);
        let fg = f * g;
        let qq = q0r * qr;
        assert(p0r * pr == fg * qq);
        reals::lemma_real_assoc(s, q0r, qr);
        reals::lemma_real_assoc(fg, qq, lr);
        reals::lemma_real_comm(qq, lr);
        reals::lemma_real_assoc(fg, lr, qq);
        reals::lemma_real_distrib(s, fg * lr, qq);
    }
}

/// The integers of one range, with their sizes.
pub open spec fn is_split(p: Integer, q: Integer, t: Integer, a: int, b: int) -> bool {
    &&& p.wf()
    &&& q.wf()
    &&& t.wf()
    &&& p@ == split_p(a, b)
    &&& q@ == split_q(a, b)
    &&& t@ == split_t(a, b)
    &&& p.size() <= 3 * (b - a)
    &&& q.size() <= 3 * (b - a)
    &&& t.size() <= 4 * (b - a)
}

/// The sizes of the integers of one term.
proof fn lemma_leaf_sizes(p: Integer, q: Integer, t: Integer, k: int)
    requires
        1 <= k < 0x100_0000_0000,
        p.wf(),
        q.wf(),
        t.wf(),
        p@ == p_term(k),
        q@ == q_term(k),
        t@ == p_term(k) * l_term(k),
    ensures
        is_split(p, q, t, k, k + 1),
{
    assert(split_p(k, k) == 1 && split_q(k, k) == 1 && split_t(k, k) == 0);
    assert(split_p(k, k + 1) == 1 * p_term(k));
    assert(split_q(k, k + 1) == 1 * q_term(k));
    assert(split_t(k, k + 1) == 0 * q_term(k) + split_p(k, k + 1) * l_term(k));
    assert(0 * q_term(k) == 0);
    lemma2_to64();
    lemma2_to64_rest();
    lemma_pow2_adds(40, 40);
    lemma_pow2_adds(80, 40);
    lemma_pow2_adds(120, 7);
    lemma_pow2_adds(120, 54);
    lemma_pow2_adds(127, 71);
    lemma_pow2_adds(64, 7);
    let u = 6 * k - 5;
    let v = 6 * k - 1;
    let w = 2 * k - 1;
    lemma_mul_nonnegative(u, v);
    lemma_mul_upper_bound(u, 6 * k, v, 6 * k);
    lemma_mul_nonnegative(u * v, w);
    lemma_mul_upper_bound(u * v, (6 * k) * (6 * k), w, 2 * k);
    assert(((6 * k) * (6 * k)) * (2 * k) == 72 * (k * k * k)) by (nonlinear_arith);
    lemma_cube_bound(k);
    let c = k * k * k;
    assert(pow2(127) == 128 * pow2(120));
    assert(pow2(174) == 0x40_0000_0000_0000 * pow2(120));
    assert(integer::abs(p@) <= pow2(127));
    assert(integer::abs(q@) <= pow2(174));
    integer::lemma_size_from_bits(p, 127);
    integer::lemma_size_from_bits(q, 174);
    let l = l_term(k);
    assert(0 <= l <= pow2(71));
    let x = integer::abs(p@);
    lemma_mul_unary_negation(p@, l);
    lemma_mul_nonnegative(x, l);
    assert(integer::abs(t@) <= x * l);
    lemma_mul_upper_bound(x, pow2(127) as int, l, pow2(71) as int);
    integer::lemma_size_from_bits(t, 198);
}

/// The integers of the single term `k`.
fn split_leaf(k: u64) -> (r: (Integer, Integer, Integer))
    requires
        1 <= k < 0x100_0000_0000,
    ensures
        is_split(r.0, r.1, r.2, k as int, k + 1),
{
    proof {
        limbs::lemma_limb_limit();
    }
    let kk: Integer = Integer::from(k);
    let one: Integer = Integer::from(1u32);
    let six_k: Integer = mul_signed(&kk, &Integer::from(6u32));
    let factor1: Integer = sub_signed(&six_k, &Integer::from(5u32));
    let factor2: Integer = sub_signed(&six_k, &one);
    let factor3: Integer = sub_signed(&mul_signed(&kk, &Integer::from(2u32)), &one);
    let product: Integer = mul_signed(&mul_signed(&factor1, &factor2), &factor3);
    let p: Integer = neg_signed(&product);
    let cube: Integer = kk.pow_u32(3);
    proof {
        reveal(pow);
        reveal_with_fuel(pow, 4);
        let x = k as int;
        assert(pow(x, 3) == x * (x * (x * 1)));
        lemma_mul_is_associative(x, x, x);
        lemma_cube_size(cube, x);
    }
    let q: Integer = mul_signed(&Integer::from(C3_OVER_24), &cube);
    let l: Integer = add_signed(&Integer::from(TERM_A), &mul_signed(&kk, &Integer::from(TERM_B)));
    let t: Integer = mul_signed(&p, &l);
    proof {
        let x = k as int;
        lemma_mul_is_commutative(x, 6);
        lemma_mul_is_commutative(x, 2);
        lemma_mul_is_commutative(x, TERM_B as int);
        lemma_leaf_sizes(p, q, t, x);
    }
    (p, q, t)
}

proof fn lemma_cube_size(c: Integer, k: int)
    requires
        c.wf(),
        1 <= k < 0x100_0000_0000,
        c@ == k * k * k,
    ensures
        c.size() <= 2,
{
    lemma2_to64_rest();
    lemma2_to64();
    lemma_pow2_adds(40, 40);
    lemma_pow2_adds(80, 40);
    lemma_cube_bound(k);
    integer::lemma_size_from_bits(c, 120);
}

/// The cube of a number of 40 bits has 120 bits.
proof fn lemma_cube_bound(k: int)
    requires
        1 <= k < 0x100_0000_0000,
    ensures
        1 <= k * k * k <= pow2(120),
{
    lemma2_to64();
    lemma2_to64_rest();
    lemma_pow2_adds(40, 40);
    lemma_pow2_adds(80, 40);
    let m = pow2(40) as int;
    lemma_mul_upper_bound(k, m, k, m);
    lemma_mul_strictly_positive(k, k);
    lemma_mul_strictly_positive(k * k, k);
    lemma_mul_upper_bound(k * k, m * m, k, m);
}

/// Whether a range of `n` terms is split in parallel.
pub fn go_parallel(config: &ChudnovskyConfig, n: u64) -> (r: bool)
    ensures
        r == (n >= config.parallel_split_threshold && (config.sequential_top_threshold == 0 || n
            < config.sequential_top_threshold)),
{
    n >= config.parallel_split_threshold && (config.sequential_top_threshold == 0 || n
        < config.sequential_top_threshold)
}

/// The sum of two merged ranges.
fn merge_t(
    q_r: &Integer,
    p_l: &Integer,
    t_l: &Integer,
    t_r: &Integer,
    Ghost(a): Ghost<int>,
    Ghost(m): Ghost<int>,
    Ghost(b): Ghost<int>,
) -> (t: Integer)
    requires
        a < m < b,
        4 * (b - a) + 8 <= limbs::limb_limit(),
        q_r.wf(),
        p_l.wf(),
        t_l.wf(),
        t_r.wf(),
        q_r@ == split_q(m, b),
        p_l@ == split_p(a, m),
        t_l@ == split_t(a, m),
        t_r@ == split_t(m, b),
        q_r.size() <= 3 * (b - m),
        p_l.size() <= 3 * (m - a),
        t_l.size() <= 4 * (m - a),
        t_r.size() <= 4 * (b - m),
    ensures
        t.wf(),
        t@ == split_t(a, b),
        t.size() <= 4 * (b - a),
{
    proof {
        law_binary_splitting(a, m, b);
    }
    let low: Integer = mul_signed(t_l, q_r);
    let high: Integer = mul_signed(p_l, t_r);
    add_signed(&low, &high)
}

/// `P`, `Q` and `T` of the terms `a..b`, halves in parallel where the range is
/// neither small nor at the top of a large tree.
pub fn binary_split_pure(config: &ChudnovskyConfig, a: u64, b: u64) -> (r: (
    Integer,
    Integer,
    Integer,
))
    requires
        1 <= a < b <= 0x100_0000_0000,
        4 * (b - a) + 8 <= limbs::limb_limit(),
    ensures
        is_split(r.0, r.1, r.2, a as int, b as int),
    decreases b - a,
{
    if b - a == 1 {
        return split_leaf(a);
    }
    let m: u64 = (a + b) / 2;
    let ((p_l, q_l, t_l), (p_r, q_r, t_r)) = if go_parallel(config, b - a) {
        let left = || -> (r: (Integer, Integer, Integer))
            ensures is_split(r.0, r.1, r.2, a as int, m as int)
        { binary_split_pure(config, a, m) };
        let right = || -> (r: (Integer, Integer, Integer))
            ensures is_split(r.0, r.1, r.2, m as int, b as int)
        { binary_split_pure(config, m, b) };
        rayon::join(left, right)
    } else {
        (binary_split_pure(config, a, m), binary_split_pure(config, m, b))
    };
    proof {
        law_binary_splitting(a as int, m as int, b as int);
    }
    let t: Integer = merge_t(
        &q_r,
        &p_l,
        &t_l,
        &t_r,
        Ghost(a as int),
        Ghost(m as int),
        Ghost(b as int),
    );
    let p: Integer = mul_signed(&p_l, &p_r);
    let q: Integer = mul_signed(&q_l, &q_r);
    (p, q, t)
}

/// `Q` and `T` of the terms `a..b`, without the product `P` of the whole range.
pub fn binary_split_pure_root(config: &ChudnovskyConfig, a: u64, b: u64) -> (r: (Integer, Integer))
    requires
        1 <= a < b <= 0x100_0000_0000,
        4 * (b - a) + 8 <= limbs::limb_limit(),
    ensures
        r.0.wf(),
        r.1.wf(),
        r.0@ == split_q(a as int, b as int),
        r.1@ == split_t(a as int, b as int),
        r.0.size() <= 3 * (b - a),
        r.1.size() <= 4 * (b - a),
{
    if b - a == 1 {
        let (_, q, t) = binary_split_pure(config, a, b);
        return (q, t);
    }
    let m: u64 = (a + b) / 2;
    let ((p_l, q_l, t_l), (_, q_r, t_r)) = if go_parallel(config, b - a) {
        let left = || -> (r: (Integer, Integer, Integer))
            ensures is_split(r.0, r.1, r.2, a as int, m as int)
        { binary_split_pure(config, a, m) };
        let right = || -> (r: (Integer, Integer, Integer))
            ensures is_split(r.0, r.1, r.2, m as int, b as int)
        { binary_split_pure(config, m, b) };
        rayon::join(left, right)
    } else {
        (binary_split_pure(config, a, m), binary_split_pure(config, m, b))
    };
    proof {
        law_binary_splitting(a as int, m as int, b as int);
    }
    let t: Integer = merge_t(
        &q_r,
        &p_l,
        &t_l,
        &t_r,
        Ghost(a as int),
        Ghost(m as int),
        Ghost(b as int),
    );
    let q: Integer = mul_signed(&q_l, &q_r);
    (q, t)
}

/// Report `count` units of work.
fn emit_ticks<R: ProgressReporter>(progress: &mut R, count: u64)
    ensures
        progress::heard(*old(progress), *final(progress), progress::ticks(count as nat)),
{
    let mut emitted: u64 = 0;
    proof {
        assert(progress.told() + progress::ticks(0) =~= progress.told());
    }
    while emitted < count
        invariant
            emitted <= count,
            progress::heard(*old(progress), *progress, progress::ticks(emitted as nat)),
        decreases count - emitted,
    {
        progress.tick();
        proof {
            assert(progress::ticks(emitted as nat).push(ProgressEvent::Tick) =~= progress::ticks(
                (emitted + 1) as nat,
            ));
            assert(old(progress).told() + progress::ticks((emitted + 1) as nat) =~= (old(
                progress,
            ).told() + progress::ticks(emitted as nat)).push(ProgressEvent::Tick));
        }
        emitted += 1;
    }
}

/// `Q` and `T` of the terms `a..b`, with one tick for each term.
pub fn binary_split<R: ProgressReporter>(
    config: &ChudnovskyConfig,
    a: u64,
    b: u64,
    progress: &mut R,
) -> (r: (Integer, Integer))
    requires
        1 <= a < b <= 0x100_0000_0000,
        4 * (b - a) + 8 <= limbs::limb_limit(),
    ensures
        r.0.wf(),
        r.1.wf(),
        r.0@ == split_q(a as int, b as int),
        r.1@ == split_t(a as int, b as int),
        r.0.size() <= 3 * (b - a),
        r.1.size() <= 4 * (b - a),
        progress::heard(*old(progress), *final(progress), progress::ticks((b - a) as nat)),
{
    let r: (Integer, Integer) = binary_split_pure_root(config, a, b);
    emit_ticks(progress, b - a);
    r
}

/// The series term by term: the factor of term `k` is that of the term before it
/// times `-(6k - 5)(6k - 1)(2k - 1)` over `k^3 * 640320^3 / 24`, and the sum adds it
/// times `13591409 + 545140134k`.
pub proof fn law_series(k: nat)
    requires
        k >= 1,
    ensures
        factor(0) == 1real,
        series(0) == 0real,
        factor(k) == factor((k - 1) as nat) * (((-((6 * k - 5) * (6 * k - 1) * (2 * k - 1))) as real)
            / ((640_320 * 640_320 * 640_320 / 24 * (k * k * k)) as real)),
        series(k) - series((k - 1) as nat) == factor(k) * ((13_591_409 + 545_140_134 * k) as real),
{
    assert(640_320int * 640_320 * 640_320 / 24 == 10_939_058_860_032_000);
}

} // verus!
