//! How far two runs of the arithmetic-geometric mean iteration can be apart, and
//! how fast an exact run settles.
use crate::accuracy;
use crate::agm;
use crate::algorithm;
use crate::bitlen;
use crate::chudnovsky_assembly;
use crate::digits;
use crate::gauss_legendre;
use crate::precision;
use crate::reals;
use crate::terms;
use vstd::arithmetic::div_mod::*;
use vstd::arithmetic::power2::*;
use vstd::arithmetic::power::*;
use vstd::prelude::*;

verus! {

/// Two states differ by at most `e` in the means and by at most `f` in `t`.
pub open spec fn apart(s: (real, real, real), n: (real, real, real), e: real, f: real) -> bool {
    &&& reals::rabs(s.0 - n.0) <= e
    &&& reals::rabs(s.1 - n.1) <= e
    &&& reals::rabs(s.2 - n.2) <= f
}

/// Every state of a run is in range.
pub proof fn lemma_run_range(run: Seq<(real, real, real)>, u: real, i: nat)
    requires
        agm::agm_run(run, u),
        i < run.len(),
        i <= 60,
        0real < u,
        reals::rpow2(60) * u <= 1real / 1_000_000_000_000real,
    ensures
        agm::in_range(run[i as int], i, reals::rpow2(i as int)),
        1real <= reals::rpow2(i as int),
        reals::rpow2(i as int) * u <= 1real / 1_000_000_000_000real,
        u <= 1real / 1_000_000_000_000real,
    decreases i,
{
    reals::lemma_rpow2_monotone(0, i as int);
    reals::lemma_rpow2_monotone(i as int, 60);
    reals::lemma_rpow2_step(0);
    accuracy::lemma_mul_le(reals::rpow2(i as int), reals::rpow2(60), u);
    accuracy::lemma_mul_le(1real, reals::rpow2(i as int), u);
    assert(1real * u == u) by (nonlinear_arith);
    if i == 0 {
        agm::lemma_range_start(run[0], u);
    } else {
        let k = (i - 1) as nat;
        lemma_run_range(run, u, k);
        reals::lemma_rpow2_step(k as int);
        assert(agm::agm_step(run[k as int], run[k as int + 1], reals::rpow2(k as int), u));
        agm::lemma_range_step(run[k as int], run[i as int], k, reals::rpow2(k as int), u);
    }
}

/// What the range says of the values.
proof fn lemma_range_values(s: (real, real, real), i: nat, p: real)
    requires
        i <= 60,
        p >= 1real,
        agm::in_range(s, i, p),
    ensures
        7real / 10real <= s.0 <= 11real / 10real,
        7real / 10real <= s.1 <= 11real / 10real,
        22real / 100real <= s.2 <= 26real / 100real,
        (s.0 - s.1) * (s.0 - s.1) <= 9real / 100real,
        p * ((s.0 - s.1) * (s.0 - s.1)) <= 16real / 100real,
{
    let g = s.0 - s.1;
    agm::lemma_square_nonnegative(g);
    accuracy::lemma_mul_le_both(0real, p, 0real, g * g);
}

/// Roots of close numbers are close.
proof fn lemma_roots_apart(y: real, z: real, bound: real)
    requires
        y >= 69real / 100real,
        z >= 69real / 100real,
        reals::rabs(y * y - z * z) <= bound,
    ensures
        reals::rabs(y - z) * (138real / 100real) <= bound,
{
    let (d, w) = (y - z, y + z);
    assert(d * w == y * y - z * z) by (nonlinear_arith)
        requires
            d == y - z,
            w == y + z,
    ;
    agm::lemma_rabs_quotient(d, w, bound, 138real / 100real);
}

/// The products of close numbers are close.
proof fn lemma_products_apart(a: real, b: real, c: real, d: real, e: real)
    requires
        0real <= b <= 11real / 10real,
        0real <= c <= 11real / 10real,
        reals::rabs(a - c) <= e,
        reals::rabs(b - d) <= e,
    ensures
        reals::rabs(a * b - c * d) <= (22real / 10real) * e,
{
    agm::lemma_rabs_times(b, a - c, 11real / 10real, e);
    agm::lemma_rabs_times(c, b - d, 11real / 10real, e);
    assert(a * b - c * d == b * (a - c) + c * (b - d)) by (nonlinear_arith);
}

/// The square of a geometric mean, up to rounding.
proof fn lemma_root_error(a: real, b: real, y: real, u: real)
    requires
        0real < u <= 1real / 1_000_000_000_000real,
        7real / 10real <= a <= 11real / 10real,
        7real / 10real <= b <= 11real / 10real,
        accuracy::within(y * y, a * b, 6real, u),
    ensures
        reals::rabs(y * y - a * b) <= 8real * u,
{
    let ab = a * b;
    let f = 6real * u;
    accuracy::lemma_mul_le_both(a, 11real / 10real, b, 11real / 10real);
    assert((11real / 10real) * (11real / 10real) == 121real / 100real);
    accuracy::lemma_mul_le(ab, 121real / 100real, f);
    assert((121real / 100real) * f <= 8real * u);
}

/// The next value of `t`, up to rounding.
proof fn lemma_t_error(t: real, n: real, d: real, p: real, u: real)
    requires
        0real < u,
        1real <= p,
        0real <= t <= 3real / 10real,
        reals::rabs(d) <= 1real / 4real,
        reals::rabs(n - (t - p * (d * d))) <= (t + p * (d * d)) * (10real * u),
    ensures
        reals::rabs(n - (t - p * (d * d))) <= 10real * (p * u),
{
    agm::lemma_rabs_square(d, 1real / 4real);
    let dd = d * d;
    assert((1real / 4real) * (1real / 4real) == 1real / 16real);
    accuracy::lemma_mul_le(dd, 1real / 16real, p);
    reals::lemma_real_comm(p, dd);
    reals::lemma_real_comm(p, 1real / 16real);
    assert((1real / 16real) * p <= p / 2real) by (nonlinear_arith)
        requires
            p >= 1real,
    ;
    assert(t + p * dd <= p);
    accuracy::lemma_mul_le(t + p * dd, p, 10real * u);
    assert(p * (10real * u) == 10real * (p * u)) by (nonlinear_arith);
}

/// One step from two close states.
proof fn lemma_steps_apart(
    s: (real, real, real),
    n: (real, real, real),
    r: (real, real, real),
    m: (real, real, real),
    i: nat,
    p: real,
    u: real,
    e: real,
    f: real,
)
    requires
        i <= 60,
        0real < u <= 1real / 1_000_000_000_000real,
        1real <= p,
        agm::in_range(s, i, p),
        agm::in_range(r, i, p),
        agm::agm_step(s, n, p, u),
        agm::agm_step(r, m, p, u),
        0real <= e,
        apart(s, r, e, f),
    ensures
        apart(n, m, 2real * e + 16real * u, f + p * (e + 25real * u)),
{
    lemma_range_values(s, i, p);
    lemma_range_values(r, i, p);
    agm::lemma_gap(s.0, s.1, n.0, n.1, u);
    agm::lemma_gap(r.0, r.1, m.0, m.1, u);
    // The means.
    assert(reals::rabs(n.0 - m.0) <= e + 10real * u);
    lemma_root_error(s.0, s.1, n.1, u);
    lemma_root_error(r.0, r.1, m.1, u);
    lemma_products_apart(s.0, s.1, r.0, r.1, e);
    let bound = (22real / 10real) * e + 16real * u;
    lemma_roots_apart(n.1, m.1, bound);
    assert(reals::rabs(n.1 - m.1) <= 2real * e + 16real * u);
    // The change of t.
    let (d, c) = (s.0 - n.0, r.0 - m.0);
    assert(reals::rabs(d) <= 1real / 4real);
    assert(reals::rabs(c) <= 1real / 4real);
    lemma_t_error(s.2, n.2, d, p, u);
    lemma_t_error(r.2, m.2, c, p, u);
    let (dd, cc) = (d * d, c * c);
    let (w, z) = (d + c, d - c);
    assert(dd - cc == w * z) by (nonlinear_arith)
        requires
            dd == d * d,
            cc == c * c,
            w == d + c,
            z == d - c,
    ;
    assert(reals::rabs(z) <= 2real * e + 10real * u);
    reals::lemma_rabs_product(w, z, 1real / 2real, 2real * e + 10real * u);
    assert((1real / 2real) * (2real * e + 10real * u) == e + 5real * u);
    let x = dd - cc;
    assert(reals::rabs(x) <= e + 5real * u);
    reals::lemma_rabs_product(p, x, p, e + 5real * u);
    assert(p * dd - p * cc == p * x) by (nonlinear_arith)
        requires
            x == dd - cc,
    ;
    let pu = p * u;
    assert(p * (e + 5real * u) == p * e + 5real * pu) by (nonlinear_arith)
        requires
            pu == p * u,
    ;
    assert(p * (e + 25real * u) == p * e + 25real * pu) by (nonlinear_arith)
        requires
            pu == p * u,
    ;
}

/// Two runs stay close: after `i` steps the means are at most
/// `(20 * 2^i - 16) * u` apart, and `t` at most `16 * (4^i - 1) * u`.
proof fn lemma_runs_apart(r: Seq<(real, real, real)>, s: Seq<(real, real, real)>, u: real, i: nat)
    requires
        agm::agm_run(r, u),
        agm::agm_run(s, u),
        i < r.len(),
        i < s.len(),
        i <= 60,
        0real < u,
        reals::rpow2(60) * u <= 1real / 1_000_000_000_000real,
    ensures
        ({
            let p = reals::rpow2(i as int);
            let pu = p * u;
            apart(r[i as int], s[i as int], 20real * pu - 16real * u, 16real * (p * pu) - 16real * u)
        }),
    decreases i,
{
    lemma_run_range(r, u, i);
    lemma_run_range(s, u, i);
    if i == 0 {
        reals::lemma_rpow2_step(0);
        let (b, c) = (r[0].1, s[0].1);
        lemma_range_values(r[0], 0, reals::rpow2(0));
        lemma_range_values(s[0], 0, reals::rpow2(0));
        assert((1real / 2real) * (4real * u) == 2real * u);
        lemma_roots_apart(b, c, 4real * u);
        assert(reals::rpow2(0) * u == u) by (nonlinear_arith)
            requires
                reals::rpow2(0) == 1real,
        ;
        assert(reals::rpow2(0) * (reals::rpow2(0) * u) == u) by (nonlinear_arith)
            requires
                reals::rpow2(0) == 1real,
                reals::rpow2(0) * u == u,
        ;
    } else {
        let k = (i - 1) as nat;
        lemma_runs_apart(r, s, u, k);
        lemma_run_range(r, u, k);
        lemma_run_range(s, u, k);
        reals::lemma_rpow2_step(k as int);
        let p = reals::rpow2(k as int);
        let pu = p * u;
        let ppu = p * pu;
        let e = 20real * pu - 16real * u;
        let f = 16real * ppu - 16real * u;
        accuracy::lemma_mul_le(1real, p, u);
        accuracy::lemma_mul_le(1real, p, pu);
        assert(1real * u == u && 1real * pu == pu) by (nonlinear_arith);
        assert(agm::agm_step(r[k as int], r[k as int + 1], p, u));
        assert(agm::agm_step(s[k as int], s[k as int + 1], p, u));
        lemma_steps_apart(r[k as int], r[i as int], s[k as int], s[i as int], k, p, u, e, f);
        assert(p * (e + 25real * u) == 20real * ppu + 9real * pu) by (nonlinear_arith)
            requires
                e == 20real * pu - 16real * u,
                pu == p * u,
                ppu == p * pu,
        ;
        let q = reals::rpow2(i as int);
        assert(q == 2real * p);
        assert(q * u == 2real * pu) by (nonlinear_arith)
            requires
                q == 2real * p,
                pu == p * u,
        ;
        assert(q * (2real * pu) == 4real * ppu) by (nonlinear_arith)
            requires
                q == 2real * p,
                ppu == p * pu,
        ;
    }
}

/// The final quotients of two close states.
proof fn lemma_quotients_apart(
    x: real,
    s: (real, real, real),
    y: real,
    r: (real, real, real),
    u: real,
    e: real,
    f: real,
)
    requires
        0real < u <= 1real / 1_000_000_000_000real,
        7real / 10real <= s.0 <= 11real / 10real,
        7real / 10real <= s.1 <= 11real / 10real,
        22real / 100real <= s.2,
        7real / 10real <= r.0 <= 11real / 10real,
        7real / 10real <= r.1 <= 11real / 10real,
        22real / 100real <= r.2,
        gauss_legendre::is_agm_quotient(x, s, u),
        gauss_legendre::is_agm_quotient(y, r, u),
        0real <= e,
        0real <= f,
        apart(s, r, e, f),
    ensures
        reals::rabs(x - y) <= 10real * e + 140real * u + 40real * f,
        0real <= y <= 6real,
{
    lemma_quotient_error(x, s, u);
    lemma_quotient_error(y, r, u);
    let (a, c) = (s.0 + s.1, r.0 + r.1);
    let (aa, cc) = (a * a, c * c);
    let (w, z) = (a + c, a - c);
    assert(aa - cc == w * z) by (nonlinear_arith)
        requires
            aa == a * a,
            cc == c * c,
            w == a + c,
            z == a - c,
    ;
    reals::lemma_rabs_product(w, z, 44real / 10real, 2real * e);
    assert((44real / 10real) * (2real * e) == (88real / 10real) * e);
    let (t, k) = (4real * s.2, 4real * r.2);
    agm::lemma_rabs_times(y, k - t, 6real, 4real * f);
    let d = x - y;
    assert(d * t == x * t - y * k + y * (k - t)) by (nonlinear_arith)
        requires
            d == x - y,
    ;
    agm::lemma_rabs_quotient(d, t, (88real / 10real) * e + 120real * u + 24real * f, 88real / 100real);
}

/// A final quotient, up to rounding.
proof fn lemma_quotient_error(x: real, s: (real, real, real), u: real)
    requires
        0real < u <= 1real / 1_000_000_000_000real,
        7real / 10real <= s.0 <= 11real / 10real,
        7real / 10real <= s.1 <= 11real / 10real,
        22real / 100real <= s.2,
        gauss_legendre::is_agm_quotient(x, s, u),
    ensures
        reals::rabs(x * (4real * s.2) - (s.0 + s.1) * (s.0 + s.1)) <= 60real * u,
        0real <= x <= 6real,
{
    let a = s.0 + s.1;
    let aa = a * a;
    let t = 4real * s.2;
    accuracy::lemma_mul_le_both(a, 22real / 10real, a, 22real / 10real);
    assert((22real / 10real) * (22real / 10real) == 484real / 100real);
    accuracy::lemma_mul_le(aa, 484real / 100real, 12real * u);
    assert((484real / 100real) * (12real * u) <= 60real * u);
    accuracy::lemma_mul_le_both(14real / 10real, a, 14real / 10real, a);
    assert((14real / 10real) * (14real / 10real) == 196real / 100real);
    let xt = x * t;
    assert(1real <= xt <= 5real);
    if x < 0real {
        accuracy::lemma_mul_le(x, 0real, t);
        assert(0real * t == 0real) by (nonlinear_arith);
    }
    if x > 6real {
        accuracy::lemma_mul_le_both(6real, x, 88real / 100real, t);
        assert(6real * (88real / 100real) == 528real / 100real);
    }
}

/// The rounding unit of a precision, against the factor of the iterations.
proof fn lemma_unit_small(prec: int)
    requires
        256 <= prec <= 0x100_0000_0000,
    ensures
        0real < reals::rpow2(-prec) <= 1real / 1_000_000_000_000real,
        reals::rpow2(60) * reals::rpow2(-prec) <= 1real / 1_000_000_000_000real,
        10 <= gauss_legendre::iteration_count(prec) <= 42,
        4 * prec <= pow2(gauss_legendre::iteration_count(prec)),
{
    lemma2_to64();
    lemma2_to64_rest();
    reals::lemma_rpow2_add(60, -prec);
    reals::lemma_rpow2_monotone(60 - prec, -40);
    reals::lemma_rpow2_monotone(-prec, -40);
    reals::lemma_rpow2_nat(40);
    let q = reals::rpow2(-40);
    let w = pow2(40) as real;
    assert(w == 1_099_511_627_776real);
    assert(q <= 1real / 1_000_000_000_000real) by (nonlinear_arith)
        requires
            q * w == 1real,
            w == 1_099_511_627_776real,
    ;
    bitlen::lemma_bit_len(prec - 1);
    bitlen::lemma_bit_len_at_most(prec - 1, 40);
    let k = bitlen::bit_len(prec - 1);
    if k < 8 {
        lemma_pow2_strictly_increases(k, 8);
        assert(false);
    }
    lemma_pow2_unfold(k + 1);
    lemma_pow2_unfold(k + 2);
}

/// The quotients of two runs with the same number of steps.
proof fn lemma_run_quotients(
    x: real,
    r: Seq<(real, real, real)>,
    y: real,
    s: Seq<(real, real, real)>,
    prec: int,
)
    requires
        256 <= prec <= 0x100_0000_0000,
        ({
            let n = gauss_legendre::iteration_count(prec) as int;
            let u = reals::rpow2(-prec);
            &&& agm::agm_run(r, u)
            &&& agm::agm_run(s, u)
            &&& n < r.len()
            &&& n < s.len()
            &&& gauss_legendre::is_agm_quotient(x, r[n], u)
            &&& gauss_legendre::is_agm_quotient(y, s[n], u)
        }),
    ensures
        reals::rabs(x - y) <= reals::rpow2(94 - prec),
        0real <= y <= 6real,
{
    let n = gauss_legendre::iteration_count(prec);
    let u = reals::rpow2(-prec);
    lemma_unit_small(prec);
    lemma_run_range(r, u, n);
    lemma_run_range(s, u, n);
    lemma_runs_apart(r, s, u, n);
    let p = reals::rpow2(n as int);
    let pu = p * u;
    let ppu = p * pu;
    lemma_range_values(r[n as int], n, p);
    lemma_range_values(s[n as int], n, p);
    accuracy::lemma_mul_le(1real, p, u);
    accuracy::lemma_mul_le(1real, p, pu);
    assert(1real * u == u && 1real * pu == pu) by (nonlinear_arith);
    let e = 20real * pu - 16real * u;
    let f = 16real * ppu - 16real * u;
    lemma_quotients_apart(x, r[n as int], y, s[n as int], u, e, f);
    // p * p * u <= 2^84 * u
    reals::lemma_rpow2_monotone(n as int, 42);
    let top = reals::rpow2(42);
    accuracy::lemma_mul_le(p, top, u);
    accuracy::lemma_mul_le_both(p, top, pu, top * u);
    reals::lemma_rpow2_add(42, -prec);
    reals::lemma_rpow2_add(42, 42 - prec);
    reals::lemma_rpow2_add(10, 84 - prec);
    lemma2_to64();
    let w = reals::rpow2(84 - prec);
    assert(reals::rpow2(10) * w == 1024real * w) by (nonlinear_arith)
        requires
            reals::rpow2(10) == 1024real,
    ;
}

/// Rounding leaves the result of the iteration fixed up to `2^(94 - prec)`.
pub proof fn law_runs_agree(x: real, y: real, prec: int)
    requires
        256 <= prec <= 0x100_0000_0000,
        gauss_legendre::is_gauss_legendre(x, prec),
        gauss_legendre::is_gauss_legendre(y, prec),
    ensures
        reals::rabs(x - y) <= reals::rpow2(94 - prec),
        0real <= x <= 6real,
        0real <= y <= 6real,
{
    let n = gauss_legendre::iteration_count(prec);
    let u = reals::rpow2(-prec);
    let r = choose|run: Seq<(real, real, real)>| #[trigger]
        agm::agm_run(run, u) && run.len() == n + 1 && gauss_legendre::is_agm_quotient(
            x,
            run.last(),
            u,
        );
    let s = choose|run: Seq<(real, real, real)>| #[trigger]
        agm::agm_run(run, u) && run.len() == n + 1 && gauss_legendre::is_agm_quotient(
            y,
            run.last(),
            u,
        );
    lemma_run_quotients(x, r, y, s, prec);
    lemma_run_quotients(y, s, x, r, prec);
}

/// A value without any error is within every error.
proof fn lemma_within_exact(x: real, y: real, k: real, u: real)
    requires
        accuracy::within(x, y, k, 0real),
        k >= 0real,
        u >= 0real,
    ensures
        accuracy::within(x, y, k, u),
        x == y,
{
    assert(k * 0real == 0real) by (nonlinear_arith);
    assert(y * 0real == 0real) by (nonlinear_arith);
    accuracy::lemma_mul_le_both(0real, k, 0real, u);
    accuracy::lemma_mul_le_both(0real, y, 0real, k * u);
}

/// A step without rounding.
proof fn lemma_exact_step(s: (real, real, real), n: (real, real, real), p: real, u: real)
    requires
        agm::agm_step(s, n, p, 0real),
        u >= 0real,
        p >= 0real,
        s.2 >= 0real,
    ensures
        agm::agm_step(s, n, p, u),
        2real * n.0 == s.0 + s.1,
        n.1 > 0real,
        n.1 * n.1 == s.0 * s.1,
        n.2 == s.2 - p * ((s.0 - n.0) * (s.0 - n.0)),
{
    lemma_within_exact(2real * n.0, s.0 + s.1, 4real, u);
    lemma_within_exact(n.1 * n.1, s.0 * s.1, 6real, u);
    let d = s.0 - n.0;
    let w = s.2 + p * (d * d);
    agm::lemma_square_nonnegative(d);
    accuracy::lemma_mul_le_both(0real, p, 0real, d * d);
    assert(w * (10real * 0real) == 0real) by (nonlinear_arith);
    accuracy::lemma_mul_le_both(0real, w, 0real, 10real * u);
}

/// The first states of an exact run are a run with rounding as well.
proof fn lemma_exact_prefix(run: Seq<(real, real, real)>, u: real, i: nat)
    requires
        agm::agm_run(run, 0real),
        i < run.len(),
        i <= 60,
        0real < u,
        reals::rpow2(60) * u <= 1real / 1_000_000_000_000real,
    ensures
        agm::agm_run(run.take(i as int + 1), u),
    decreases i,
{
    let t = run.take(i as int + 1);
    if i == 0 {
        lemma_within_exact(run[0].1 * run[0].1, 1real / 2real, 4real, u);
    } else {
        let k = (i - 1) as nat;
        lemma_exact_prefix(run, u, k);
        let q = run.take(i as int);
        lemma_run_range(q, u, k);
        lemma_range_values(q[k as int], k, reals::rpow2(k as int));
        let p = reals::rpow2(k as int);
        assert(agm::agm_step(run[k as int], run[k as int + 1], p, 0real));
        lemma_exact_step(run[k as int], run[i as int], p, u);
        assert forall|j: int| 0 <= j < t.len() - 1 implies agm::agm_step(
            #[trigger] t[j],
            t[j + 1],
            reals::rpow2(j),
            u,
        ) by {
            if j < k {
                assert(agm::agm_step(q[j], q[j + 1], reals::rpow2(j), u));
            }
        }
        assert(q[0] == t[0]);
    }
}

/// One exact step: the means stay in range, and their difference is at most a
/// fifth of its square before.
proof fn lemma_exact_gap(s: (real, real, real), n: (real, real, real))
    requires
        7real / 10real <= s.0 <= 11real / 10real,
        7real / 10real <= s.1 <= 11real / 10real,
        2real * n.0 == s.0 + s.1,
        n.1 > 0real,
        n.1 * n.1 == s.0 * s.1,
    ensures
        7real / 10real <= n.0 <= 11real / 10real,
        7real / 10real <= n.1 <= 11real / 10real,
        reals::rabs(n.0 - n.1) <= ((s.0 - s.1) * (s.0 - s.1)) / 5real,
{
    let (a, b, m, y) = (s.0, s.1, n.0, n.1);
    accuracy::lemma_mul_le_both(7real / 10real, a, 7real / 10real, b);
    accuracy::lemma_mul_le_both(a, 11real / 10real, b, 11real / 10real);
    if y < 7real / 10real {
        assert(y * y < (7real / 10real) * (7real / 10real)) by (nonlinear_arith)
            requires
                0real < y < 7real / 10real,
        ;
    }
    if y > 11real / 10real {
        assert(y * y > (11real / 10real) * (11real / 10real)) by (nonlinear_arith)
            requires
                y > 11real / 10real,
        ;
    }
    let gg = (a - b) * (a - b);
    let (z, w) = (m - y, m + y);
    let ab = a * b;
    assert(4real * (z * w) == gg) by {
        assert(z * w == m * m - y * y) by (nonlinear_arith)
            requires
                z == m - y,
                w == m + y,
        ;
        assert(4real * (m * m) == 4real * ab + gg) by (nonlinear_arith)
            requires
                2real * m == a + b,
                ab == a * b,
                gg == (a - b) * (a - b),
        ;
    }
    agm::lemma_square_nonnegative(a - b);
    agm::lemma_rabs_quotient(z, w, gg / 4real, 14real / 10real);
}

/// The bound of the difference of the means after `i` exact steps.
pub open spec fn gap_bound(i: nat) -> real {
    reals::rpow2(-(pow2(i) as int))
}

/// The bound is squared by a step, and is one half at the start.
proof fn lemma_gap_bound(i: nat)
    ensures
        gap_bound(i + 1) == gap_bound(i) * gap_bound(i),
        0real < gap_bound(i) <= 1real / 2real,
        gap_bound(i + 1) <= gap_bound(i) / 2real,
{
    lemma2_to64();
    lemma_pow2_pos(i);
    lemma_pow2_unfold(i + 1);
    let e = pow2(i) as int;
    reals::lemma_rpow2_add(-e, -e);
    reals::lemma_rpow2_monotone(-e, -1);
    reals::lemma_rpow2_step(-1);
    let g = gap_bound(i);
    accuracy::lemma_mul_le(g, 1real / 2real, g);
}

/// The means of an exact run.
proof fn lemma_exact_means(run: Seq<(real, real, real)>, u: real, i: nat)
    requires
        agm::agm_run(run, 0real),
        i < run.len(),
        0real < u,
        reals::rpow2(60) * u <= 1real / 1_000_000_000_000real,
    ensures
        7real / 10real <= run[i as int].0 <= 11real / 10real,
        7real / 10real <= run[i as int].1 <= 11real / 10real,
        reals::rabs(run[i as int].0 - run[i as int].1) <= gap_bound(i),
    decreases i,
{
    if i == 0 {
        lemma_exact_prefix(run, u, 0);
        let q = run.take(1);
        lemma_run_range(q, u, 0);
        lemma_range_values(q[0], 0, reals::rpow2(0));
        lemma2_to64();
        reals::lemma_rpow2_step(-1);
        let g = run[0].0 - run[0].1;
        assert(-(1real / 2real) <= g <= 1real / 2real) by (nonlinear_arith)
            requires
                g * g <= 9real / 100real,
        ;
    } else {
        let k = (i - 1) as nat;
        lemma_exact_means(run, u, k);
        lemma_gap_bound(k);
        let (s, n) = (run[k as int], run[i as int]);
        let p = reals::rpow2(k as int);
        assert(agm::agm_step(run[k as int], run[k as int + 1], p, 0real));
        lemma_within_exact(2real * n.0, s.0 + s.1, 4real, u);
        lemma_within_exact(n.1 * n.1, s.0 * s.1, 6real, u);
        lemma_exact_gap(s, n);
        agm::lemma_rabs_square(s.0 - s.1, gap_bound(k));
    }
}

/// After four steps the squared difference, times the factor of the step,
/// is a small part of the bound.
proof fn lemma_drift(i: nat, g: real)
    requires
        i >= 4,
        reals::rabs(g) <= gap_bound(i),
    ensures
        0real <= reals::rpow2(i as int) * (g * g) <= gap_bound(i) / 64real,
{
    lemma_square_room(i);
    lemma2_to64();
    let e = pow2(i) as int;
    agm::lemma_rabs_square(g, gap_bound(i));
    reals::lemma_rpow2_add(-e, -e);
    reals::lemma_rpow2_step(i as int);
    let p = reals::rpow2(i as int);
    accuracy::lemma_mul_le_both(p, p, g * g, gap_bound(i) * gap_bound(i));
    reals::lemma_rpow2_add(i as int, -e - e);
    reals::lemma_rpow2_monotone(i - e - e, -6 - e);
    reals::lemma_rpow2_add(6, -6 - e);
    let (w, x) = (reals::rpow2(6), reals::rpow2(-6 - e));
    assert(w * x == 64real * x) by (nonlinear_arith)
        requires
            w == 64real,
    ;
}

/// `2^i` is well above `i`.
proof fn lemma_square_room(i: nat)
    requires
        i >= 4,
    ensures
        pow2(i) >= i + 6,
    decreases i,
{
    lemma2_to64();
    if i > 4 {
        lemma_square_room((i - 1) as nat);
        lemma_pow2_unfold(i);
    }
}

/// One exact step late in a run: `t` hardly moves.
proof fn lemma_late_t(s: (real, real, real), n: (real, real, real), i: nat)
    requires
        i >= 4,
        reals::rabs(s.0 - s.1) <= gap_bound(i),
        21real / 100real + gap_bound(i) <= s.2 <= 26real / 100real,
        agm::agm_step(s, n, reals::rpow2(i as int), 0real),
    ensures
        21real / 100real + gap_bound(i + 1) <= n.2 <= 26real / 100real,
        4real * s.2 - 4real * n.2 == reals::rpow2(i as int) * ((s.0 - s.1) * (s.0 - s.1)),
{
    let p = reals::rpow2(i as int);
    reals::lemma_rpow2_step(i as int);
    lemma_gap_bound(i);
    lemma_exact_step(s, n, p, 0real);
    let g = s.0 - s.1;
    let gg = g * g;
    lemma_drift(i, g);
    let d = s.0 - n.0;
    let pg = p * gg;
    assert(4real * (d * d) == gg) by (nonlinear_arith)
        requires
            2real * d == g,
            gg == g * g,
    ;
    assert(4real * (p * (d * d)) == pg) by (nonlinear_arith)
        requires
            4real * (d * d) == gg,
            pg == p * gg,
    ;
}

/// One exact step late in a run: the quotient hardly moves.
proof fn lemma_late_step(
    s: (real, real, real),
    n: (real, real, real),
    i: nat,
    x: real,
    y: real,
)
    requires
        i >= 4,
        7real / 10real <= s.0 <= 11real / 10real,
        7real / 10real <= s.1 <= 11real / 10real,
        reals::rabs(s.0 - s.1) <= gap_bound(i),
        21real / 100real + gap_bound(i) <= s.2 <= 26real / 100real,
        agm::agm_step(s, n, reals::rpow2(i as int), 0real),
        x * (4real * s.2) == (s.0 + s.1) * (s.0 + s.1),
        y * (4real * n.2) == (n.0 + n.1) * (n.0 + n.1),
    ensures
        reals::rabs(x - y) <= gap_bound(i) / 2real,
{
    let p = reals::rpow2(i as int);
    reals::lemma_rpow2_step(i as int);
    lemma_gap_bound(i);
    lemma_gap_bound(i + 1);
    lemma_exact_step(s, n, p, 0real);
    lemma_exact_gap(s, n);
    lemma_late_t(s, n, i);
    let g = s.0 - s.1;
    let gg = g * g;
    lemma_drift(i, g);
    let pg = p * gg;
    // The new difference of the means is small against p * g^2.
    reals::lemma_rpow2_monotone(0, i as int);
    agm::lemma_square_nonnegative(g);
    accuracy::lemma_mul_le(1real, p, gg);
    assert(1real * gg == gg) by (nonlinear_arith);
    let h = n.1 - n.0;
    assert(reals::rabs(h) <= pg / 5real);
    // The quotients.
    let (a, c) = (s.0 + s.1, n.0 + n.1);
    let (t, k) = (4real * s.2, 4real * n.2);
    accuracy::lemma_mul_le_both(a, 22real / 10real, a, 22real / 10real);
    assert((22real / 10real) * (22real / 10real) == 484real / 100real);
    agm::lemma_square_nonnegative(a);
    if x < 0real {
        assert(x * t < 0real) by (nonlinear_arith)
            requires
                x < 0real,
                t > 0real,
        ;
    }
    if x > 6real {
        accuracy::lemma_mul_le_both(6real, x, 84real / 100real, t);
        assert(6real * (84real / 100real) == 504real / 100real);
    }
    let w = c + a;
    assert(c * c - a * a == w * h) by (nonlinear_arith)
        requires
            w == c + a,
            h == c - a,
    ;
    agm::lemma_rabs_times(w, h, 44real / 10real, pg / 5real);
    assert(t - k == pg);
    agm::lemma_rabs_times(x, pg, 6real, pg);
    let z = y - x;
    assert(z * k == y * k - x * t + x * pg) by (nonlinear_arith)
        requires
            z == y - x,
            t - k == pg,
    ;
    agm::lemma_rabs_quotient(z, k, 7real * pg, 84real / 100real);
}

/// Late in an exact run `t` stays in range.
proof fn lemma_settled(run: Seq<(real, real, real)>, u: real, k: nat, i: nat)
    requires
        agm::agm_run(run, 0real),
        4 <= k <= i < run.len(),
        0real < u,
        reals::rpow2(60) * u <= 1real / 1_000_000_000_000real,
        22real / 100real <= run[k as int].2 <= 26real / 100real,
    ensures
        21real / 100real + gap_bound(i) <= run[i as int].2 <= 26real / 100real,
    decreases i,
{
    if i == k {
        lemma_square_room(k);
        lemma2_to64();
        reals::lemma_rpow2_monotone(-(pow2(k) as int), -10);
        reals::lemma_rpow2_nat(10);
        let (q, w) = (reals::rpow2(-10), pow2(10) as real);
        assert(q <= 1real / 100real) by (nonlinear_arith)
            requires
                q * w == 1real,
                w == 1024real,
        ;
    } else {
        let j = (i - 1) as nat;
        lemma_settled(run, u, k, j);
        lemma_exact_means(run, u, j);
        assert(agm::agm_step(run[j as int], run[j as int + 1], reals::rpow2(j as int), 0real));
        lemma_late_t(run[j as int], run[i as int], j);
    }
}

/// Late in an exact run the quotient has settled.
proof fn lemma_quotient_settled(
    run: Seq<(real, real, real)>,
    u: real,
    k: nat,
    m: nat,
    x: real,
    y: real,
)
    requires
        agm::agm_run(run, 0real),
        4 <= k <= m < run.len(),
        0real < u,
        reals::rpow2(60) * u <= 1real / 1_000_000_000_000real,
        21real / 100real + gap_bound(k) <= run[k as int].2 <= 26real / 100real,
        x * (4real * run[k as int].2) == (run[k as int].0 + run[k as int].1) * (run[k as int].0
            + run[k as int].1),
        y * (4real * run[m as int].2) == (run[m as int].0 + run[m as int].1) * (run[m as int].0
            + run[m as int].1),
    ensures
        reals::rabs(x - y) <= gap_bound(k),
    decreases m - k,
{
    lemma_gap_bound(k);
    if k == m {
        let t = 4real * run[k as int].2;
        assert(x == y) by (nonlinear_arith)
            requires
                x * t == y * t,
                t > 0real,
        ;
    } else {
        lemma_exact_means(run, u, k);
        let (s, n) = (run[k as int], run[k as int + 1]);
        assert(agm::agm_step(run[k as int], run[k as int + 1], reals::rpow2(k as int), 0real));
        lemma_late_t(s, n, k);
        lemma_gap_bound(k + 1);
        let t = 4real * n.2;
        let c = (n.0 + n.1) * (n.0 + n.1);
        let z = c / t;
        assert(z * t == c) by (nonlinear_arith)
            requires
                z == c / t,
                t > 0real,
        ;
        lemma_late_step(s, n, k, x, z);
        lemma_quotient_settled(run, u, k + 1, m, z, y);
    }
}

/// The iterations suffice: the result of the rounded iteration is, up to
/// `2^(95 - prec)`, the quotient that the iteration without rounding gives after
/// that many steps or any larger number of steps.
pub proof fn law_iterations_suffice(
    x: real,
    prec: int,
    run: Seq<(real, real, real)>,
    m: nat,
    y: real,
)
    requires
        256 <= prec <= 0x100_0000_0000,
        gauss_legendre::is_gauss_legendre(x, prec),
        agm::agm_run(run, 0real),
        gauss_legendre::iteration_count(prec) <= m < run.len(),
        gauss_legendre::is_agm_quotient(y, run[m as int], 0real),
    ensures
        reals::rabs(x - y) <= reals::rpow2(95 - prec),
        0real <= x <= 6real,
{
    let n = gauss_legendre::iteration_count(prec);
    let u = reals::rpow2(-prec);
    lemma_unit_small(prec);
    let r = choose|r: Seq<(real, real, real)>| #[trigger]
        agm::agm_run(r, u) && r.len() == n + 1 && gauss_legendre::is_agm_quotient(x, r.last(), u);
    // The exact quotient after n steps.
    lemma_exact_prefix(run, u, n);
    let q = run.take(n as int + 1);
    lemma_run_range(q, u, n);
    lemma_range_values(q[n as int], n, reals::rpow2(n as int));
    lemma_settled(run, u, n, n);
    let s = run[n as int];
    let c = (s.0 + s.1) * (s.0 + s.1);
    let t = 4real * s.2;
    let z = c / t;
    assert(z * t == c) by (nonlinear_arith)
        requires
            z == c / t,
            t > 0real,
    ;
    accuracy::lemma_mul_positive(s.0 + s.1, s.0 + s.1);
    accuracy::lemma_mul_le_both(0real, c, 0real, 12real * u);
    lemma_run_quotients(z, q, x, r, prec);
    // Its distance from the later one.
    let e = run[m as int];
    lemma_within_exact(y * (4real * e.2), (e.0 + e.1) * (e.0 + e.1), 12real, u);
    lemma_quotient_settled(run, u, n, m, z, y);
    lemma_pow2_pos(n);
    reals::lemma_rpow2_monotone(-(pow2(n) as int), 94 - prec);
    reals::lemma_rpow2_step(94 - prec);
}

/// The bits to which the digits of the iteration are pinned down behind the
/// last one.
pub open spec fn mean_guard() -> real {
    reals::rpow2(-150)
}

/// `v` is the integer part of `y * 10^(digits - 1)`, up to the error
/// [`mean_guard`].
pub open spec fn pins(v: int, digits: nat, y: real) -> bool {
    let z = y * (pow(10, (digits - 1) as nat) as real);
    (v as real) - mean_guard() <= z <= ((v + 1) as real) + mean_guard()
}

/// Digits of a value close to `y`.
proof fn lemma_pinned(v: int, digits: nat, prec: int, x: real, y: real)
    requires
        1 <= digits <= 400_000_000_000,
        256 <= prec <= 0x100_0000_0000,
        pow(10, digits) <= pow2((prec - 250) as nat),
        0real <= x <= 6real,
        reals::rabs(x - y) <= reals::rpow2(95 - prec),
        digits::is_scaled_floor(v, x, digits, digits::scaling_error(digits, prec)),
    ensures
        pins(v, digits, y),
{
    let s = pow(10, (digits - 1) as nat);
    lemma_pow_positive(10, (digits - 1) as nat);
    lemma_pow_adds(10, (digits - 1) as nat, 1);
    lemma_pow1(10);
    let sr = s as real;
    let top = reals::rpow2(prec - 250);
    assert(0real <= 10real * sr <= top);
    // The change from x to y.
    let d = x - y;
    agm::lemma_rabs_times(sr, d, top, reals::rpow2(95 - prec));
    reals::lemma_rpow2_add(prec - 250, 95 - prec);
    let (xs, ys) = (x * sr, y * sr);
    assert(sr * d == xs - ys) by (nonlinear_arith)
        requires
            d == x - y,
            xs == x * sr,
            ys == y * sr,
    ;
    // The error of the scaling.
    let e = digits::scaling_error(digits, prec);
    let u = reals::rpow2(-prec);
    reals::lemma_rpow2_step(-prec);
    let k = (2 * (digits + 1)) as real;
    accuracy::lemma_mul_le(k, 800_000_000_002real, u);
    accuracy::lemma_mul_le_both(0real, k, 0real, u);
    accuracy::lemma_mul_le_both(x, 7real, sr, sr);
    assert(0real <= xs <= top);
    accuracy::lemma_mul_le_both(xs, top, e, 800_000_000_002real * u);
    reals::lemma_rpow2_add(prec - 250, -prec);
    let tu = top * u;
    assert(top * (800_000_000_002real * u) == 800_000_000_002real * tu) by (nonlinear_arith)
        requires
            tu == top * u,
    ;
    lemma2_to64();
    lemma2_to64_rest();
    reals::lemma_rpow2_add(40, -250);
    let w = reals::rpow2(-250);
    assert(reals::rpow2(40) == 1_099_511_627_776real);
    assert(reals::rpow2(40) * w == 1_099_511_627_776real * w) by (nonlinear_arith)
        requires
            reals::rpow2(40) == 1_099_511_627_776real,
    ;
    reals::lemma_rpow2_step(-250);
    assert(xs * e <= reals::rpow2(-210));
    assert(xs * (1real + e) == xs + xs * e) by (nonlinear_arith);
    assert(xs * (1real - e) == xs - xs * e) by (nonlinear_arith);
    reals::lemma_rpow2_monotone(-210, -151);
    reals::lemma_rpow2_monotone(-155, -151);
    reals::lemma_rpow2_step(-151);
}

/// The digits are those of the iteration without rounding: after the planned
/// number of steps or any larger number, `v` is the integer part of
/// `10^(digits - 1)` times its quotient, up to the error [`mean_guard`].
pub proof fn law_digits_of_mean(
    v: int,
    digits: u64,
    run: Seq<(real, real, real)>,
    m: nat,
    y: real,
)
    requires
        digits > 0,
        precision::plan_error(digits) is None,
        algorithm::spells_gauss_legendre(v, digits as nat),
        agm::agm_run(run, 0real),
        gauss_legendre::iteration_count(precision::precision_for(digits as int)) <= m < run.len(),
        gauss_legendre::is_agm_quotient(y, run[m as int], 0real),
    ensures
        pins(v, digits as nat, y),
{
    let prec = precision::precision_for(digits as int);
    precision::lemma_precision_upper(digits as nat);
    precision::law_precision_suffices(digits as nat);
    let k = digits as nat;
    let x = choose|x: real| #[trigger]
        gauss_legendre::is_gauss_legendre(x, prec) && digits::is_scaled_floor(
            v,
            x,
            k,
            digits::scaling_error(k, prec),
        );
    law_iterations_suffice(x, prec, run, m, y);
    lemma_pinned(v, k, prec, x, y);
}

/// What the iteration may spell is settled but for one unit in the last digit,
/// which is open only where the digits behind it are all nines or all zeros.
pub proof fn law_digits_settled(v: int, w: int, digits: u64)
    requires
        digits > 0,
        precision::plan_error(digits) is None,
        algorithm::spells_gauss_legendre(v, digits as nat),
        algorithm::spells_gauss_legendre(w, digits as nat),
    ensures
        -1 <= v - w <= 1,
        exists|y: real| #[trigger] pins(v, digits as nat, y) && pins(w, digits as nat, y),
{
    let prec = precision::precision_for(digits as int);
    precision::lemma_precision_upper(digits as nat);
    precision::law_precision_suffices(digits as nat);
    let k = digits as nat;
    let e = digits::scaling_error(k, prec);
    let x = choose|x: real| #[trigger]
        gauss_legendre::is_gauss_legendre(x, prec) && digits::is_scaled_floor(v, x, k, e);
    let y = choose|y: real| #[trigger]
        gauss_legendre::is_gauss_legendre(y, prec) && digits::is_scaled_floor(w, y, k, e);
    law_runs_agree(x, y, prec);
    reals::lemma_rpow2_step(94 - prec);
    lemma_pinned(v, k, prec, x, y);
    lemma_pinned(w, k, prec, y, y);
    reals::lemma_rpow2_monotone(-150, -2);
    reals::lemma_rpow2_step(-2);
    reals::lemma_rpow2_step(-1);
}

/// The digits of `w` behind the first ones are further from all zeros and from
/// all nines than [`mean_guard`] units of the last of the first ones: `t` is the
/// power of ten that separates them.
pub open spec fn settled_behind(w: int, t: int) -> bool {
    let r = w % t;
    &&& ((t + 1) as real) * mean_guard() < (r as real)
    &&& ((t + 1) as real) * mean_guard() < ((t - r - 1) as real)
}

/// More digits keep the first ones: where the iteration without rounding has the
/// quotient `y` after enough steps, what is spelled to `b` digits begins with
/// what is spelled to `a` digits.
///
/// This holds where the digits behind the first `a` are neither all zeros nor
/// all nines as far as the computation looks.
pub proof fn law_more_digits_of_mean(
    v: int,
    a: u64,
    w: int,
    b: u64,
    run: Seq<(real, real, real)>,
    m: nat,
    y: real,
)
    requires
        1 <= a < b,
        precision::plan_error(a) is None,
        precision::plan_error(b) is None,
        algorithm::spells_gauss_legendre(v, a as nat),
        algorithm::spells_gauss_legendre(w, b as nat),
        agm::agm_run(run, 0real),
        gauss_legendre::iteration_count(precision::precision_for(a as int)) <= m < run.len(),
        gauss_legendre::iteration_count(precision::precision_for(b as int)) <= m,
        gauss_legendre::is_agm_quotient(y, run[m as int], 0real),
        v >= 1,
        settled_behind(w, pow(10, (b - a) as nat)),
    ensures
        v == w / pow(10, (b - a) as nat),
        digits::digit_text(w, b as nat).take(a as int) == digits::digit_text(v, a as nat),
{
    law_digits_of_mean(v, a, run, m, y);
    law_digits_of_mean(w, b, run, m, y);
    let n = (b - a) as nat;
    let t = pow(10, n);
    let p = pow(10, (a - 1) as nat);
    lemma_pow_positive(10, n);
    lemma_pow_adds(10, n, (a - 1) as nat);
    reals::lemma_int_product(t, p);
    let e = mean_guard();
    reals::lemma_rpow2_step(-150);
    let (tr, pr) = (t as real, p as real);
    let z = y * pr;
    let big = y * (tr * pr);
    assert(big == tr * z) by (nonlinear_arith)
        requires
            z == y * pr,
            big == y * (tr * pr),
    ;
    let q = w / t;
    let r = w % t;
    lemma_fundamental_div_mod(w, t);
    reals::lemma_int_product(t, v);
    reals::lemma_int_product(t, v + 1);
    reals::lemma_real_distrib(tr, 1real, e);
    let te = tr * e;
    let vr = v as real;
    accuracy::lemma_mul_le(vr - e, z, tr);
    accuracy::lemma_mul_le(z, vr + 1real + e, tr);
    assert(tr * (vr - e) == tr * vr - te) by (nonlinear_arith)
        requires
            te == tr * e,
    ;
    assert(tr * (vr + 1real + e) == tr * (vr + 1real) + te) by (nonlinear_arith)
        requires
            te == tr * e,
    ;
    if v >= q + 1 {
        assert(t * v >= t * q + t) by (nonlinear_arith)
            requires
                v >= q + 1,
                t > 0,
        ;
    }
    if v <= q - 1 {
        assert(t * (v + 1) <= t * q) by (nonlinear_arith)
            requires
                v + 1 <= q,
                t > 0,
        ;
    }
    digits::law_text_prefix(v, a as nat, w, b as nat);
}

/// The number `y` and the quotient of `426880 * sqrt(10005)` by the sum of `k`
/// terms of the Chudnovsky series agree to [`mean_guard`] units of the last of
/// so many digits.
pub open spec fn same_number(y: real, digits: nat, k: nat) -> bool {
    let p = pow(10, (digits - 1) as nat) as real;
    let c = chudnovsky_assembly::numerator_square() as real;
    let low = (y * p - mean_guard()) * terms::full_sum(k);
    let high = (y * p + mean_guard()) * terms::full_sum(k);
    low * low <= (p * p) * c && (p * p) * c <= high * high
}

/// How far `z` is from the integer `i`.
pub open spec fn gap(z: real, i: int) -> real {
    reals::rabs(z - (i as real))
}

/// `z` is further than twice [`mean_guard`] from every integer.
pub open spec fn clear_of_integers(z: real) -> bool {
    forall|i: int| #[trigger] gap(z, i) > 2real * mean_guard()
}

/// The two algorithms agree but for one unit in the last digit, where the number
/// that the iteration without rounding settles on is the number that the series
/// settles on.  They agree in every digit where that number, up to the last
/// digit, is clear of integers: where the digits behind are neither all zeros nor
/// all nines as far as the computations look.
pub proof fn law_algorithms_agree(
    v: int,
    w: int,
    digits: u64,
    run: Seq<(real, real, real)>,
    m: nat,
    y: real,
    k: nat,
)
    requires
        1 <= digits,
        precision::plan_error(digits) is None,
        algorithm::spells_chudnovsky(v, digits as nat),
        algorithm::spells_gauss_legendre(w, digits as nat),
        agm::agm_run(run, 0real),
        gauss_legendre::iteration_count(precision::precision_for(digits as int)) <= m < run.len(),
        gauss_legendre::is_agm_quotient(y, run[m as int], 0real),
        k >= algorithm::term_count(digits as int),
        same_number(y, digits as nat, k),
        w >= 1,
    ensures
        -1 <= v - w <= 1,
        clear_of_integers(y * (pow(10, (digits - 1) as nat) as real)) ==> v == w,
{
    law_digits_of_mean(w, digits, run, m, y);
    precision::lemma_precision_upper(digits as nat);
    terms::law_digits_of_series(v, digits as nat, k);
    let p = pow(10, (digits - 1) as nat);
    let g = accuracy::guard();
    let e = mean_guard();
    let b = terms::full_sum(k);
    lemma_pow_positive(10, (digits - 1) as nat);
    reals::lemma_rpow2_monotone(-150, -3);
    reals::lemma_rpow2_step(-150);
    reals::lemma_rpow2_step(-3);
    reals::lemma_rpow2_step(-2);
    reals::lemma_rpow2_step(-1);
    lemma_pow2_strictly_increases(5, 190);
    lemma2_to64();
    let (pr, gr) = (p as real, g as real);
    let c = chudnovsky_assembly::numerator_square() as real;
    let z = y * pr;
    let scale = (p * g) as real;
    reals::lemma_int_product(p, g);
    let square = (scale * scale) * c;
    // The bracket of the number, times the guard.
    let (low, high) = (z - e, z + e);
    accuracy::lemma_mul_positive(gr, gr);
    accuracy::lemma_regroup(pr, gr, pr, gr);
    let pp = pr * pr;
    assert((pp * (gr * gr)) * c == (gr * gr) * (pp * c)) by (nonlinear_arith);
    terms::lemma_bound_scales(low, b, gr);
    terms::lemma_bound_scales(high, b, gr);
    accuracy::lemma_mul_le((low * b) * (low * b), pp * c, gr * gr);
    accuracy::lemma_mul_le(pp * c, (high * b) * (high * b), gr * gr);
    reals::lemma_int_product(v, g);
    reals::lemma_int_product(v + 1, g);
    let (vl, vh) = ((v * g - 2) as real, ((v + 1) * g + 2) as real);
    let (vr, wr) = (v as real, w as real);
    assert(vh >= 0real) by {
        accuracy::lemma_mul_le_both(0real, vr + 1real, 0real, gr);
    }
    assert(high >= 0real);
    accuracy::lemma_mul_le_both(0real, gr, 0real, high);
    terms::lemma_bracketed(vl, gr * high, b, square);
    terms::lemma_bracketed(gr * low, vh, b, square);
    assert(vr <= high + 1real / 4real) by (nonlinear_arith)
        requires
            vr * gr - 2real <= gr * high,
            gr >= 8real,
    ;
    assert(low <= vr + 1real + 1real / 4real) by (nonlinear_arith)
        requires
            gr * low <= (vr + 1real) * gr + 2real,
            gr >= 8real,
    ;
    if clear_of_integers(z) {
        // Two units of the guard are less than the error of the iteration.
        reals::lemma_rpow2_nat(190);
        reals::lemma_rpow2_add(-150, 190);
        reals::lemma_rpow2_monotone(1, 40);
        reals::lemma_rpow2_step(0);
        assert(e * gr >= 2real);
        assert(vr <= high + e) by (nonlinear_arith)
            requires
                vr * gr - 2real <= gr * high,
                gr >= 8real,
                e * gr >= 2real,
        {
            assert(vr * gr <= (high + e) * gr);
        }
        assert(low <= vr + 1real + e) by (nonlinear_arith)
            requires
                gr * low <= (vr + 1real) * gr + 2real,
                gr >= 8real,
                e * gr >= 2real,
        {
            assert(low * gr <= (vr + 1real + e) * gr);
        }
        assert(gap(z, v) > 2real * e && gap(z, v + 1) > 2real * e);
        assert(gap(z, w) > 2real * e && gap(z, w + 1) > 2real * e);
        assert(vr < z < vr + 1real);
        assert(wr < z < wr + 1real);
    }
}

} // verus!
