//! The arithmetic-geometric mean iteration over the reals, with rounding
//! errors: what one step does, and the range in which all steps stay.
use crate::accuracy;
use crate::newton;
use crate::reals;
use vstd::arithmetic::mul::*;
use vstd::arithmetic::power2::*;
use vstd::prelude::*;

verus! {

/// One step up to relative errors of a few `u`: the arithmetic mean, the
/// geometric mean, and `t - p * (a - a')^2`.
pub open spec fn agm_step(s: (real, real, real), n: (real, real, real), p: real, u: real) -> bool {
    &&& accuracy::within(2real * n.0, s.0 + s.1, 4real, u)
    &&& n.1 > 0real
    &&& accuracy::within(n.1 * n.1, s.0 * s.1, 6real, u)
    &&& reals::rabs(n.2 - (s.2 - p * ((s.0 - n.0) * (s.0 - n.0)))) <= (s.2 + p * ((s.0 - n.0) * (s.0
        - n.0))) * (10real * u)
}

/// The start: one, the root of one half, one quarter.
pub open spec fn agm_start(s: (real, real, real), u: real) -> bool {
    &&& s.0 == 1real
    &&& s.1 > 0real
    &&& accuracy::within(s.1 * s.1, 1real / 2real, 4real, u)
    &&& s.2 == 1real / 4real
}

/// A run of steps, each with twice the factor of the one before.
pub open spec fn agm_run(run: Seq<(real, real, real)>, u: real) -> bool {
    &&& run.len() >= 1
    &&& agm_start(run[0], u)
    &&& forall|i: int|
        0 <= i < run.len() - 1 ==> agm_step(#[trigger] run[i], run[i + 1], reals::rpow2(i), u)
}

/// The range after `i` steps.
pub open spec fn in_range(s: (real, real, real), i: nat, p: real) -> bool {
    let slack = ((64 - i) as real) / 100_000_000real;
    let g = s.0 - s.1;
    &&& 7real / 10real + slack <= s.0 <= 11real / 10real - slack
    &&& 7real / 10real + slack <= s.1 <= 11real / 10real - slack
    &&& g * g <= 9real / 100real
    &&& s.2 - (26real / 100real) * (p * (g * g)) >= 22real / 100real + slack
    &&& s.2 <= 26real / 100real - slack
}

/// The range holds at the start.
pub proof fn lemma_range_start(s: (real, real, real), u: real)
    requires
        0real < u <= 1real / 10_000_000_000real,
        agm_start(s, u),
    ensures
        in_range(s, 0, 1real),
{
    let b = s.1;
    let e = 4real * u;
    assert((1real / 2real) * e <= 1real / 1_000_000_000real);
    let bb = b * b;
    // 0.707 < b < 0.708.
    if b <= 707real / 1000real {
        accuracy::lemma_mul_le_both(b, 707real / 1000real, b, 707real / 1000real);
        assert((707real / 1000real) * (707real / 1000real) == 499_849real / 1_000_000real);
    }
    if b >= 708real / 1000real {
        accuracy::lemma_mul_le_both(708real / 1000real, b, 708real / 1000real, b);
        assert((708real / 1000real) * (708real / 1000real) == 501_264real / 1_000_000real);
    }
    let g = 1real - b;
    accuracy::lemma_mul_le_both(g, 293real / 1000real, g, 293real / 1000real);
    assert((293real / 1000real) * (293real / 1000real) == 85_849real / 1_000_000real);
    assert(1real * (g * g) == g * g) by (nonlinear_arith);
}

/// The difference of the means: at most a fifth of the squared difference, up
/// to rounding.
pub proof fn lemma_gap(a: real, b: real, x: real, y: real, u: real)
    requires
        0real < u <= 1real / 1_000_000_000_000real,
        7real / 10real <= a <= 11real / 10real,
        7real / 10real <= b <= 11real / 10real,
        accuracy::within(2real * x, a + b, 4real, u),
        accuracy::within(y * y, a * b, 6real, u),
        y > 0real,
        (a - b) * (a - b) <= 9real / 100real,
    ensures
        reals::rabs(x - (a + b) / 2real) <= 5real * u,
        reals::rabs(x - y) <= ((a - b) * (a - b)) / 5real + 40real * u,
        7real / 10real - 10real * u <= x <= 11real / 10real + 10real * u,
        y >= 69real / 100real,
{
    let s = a + b;
    let m = s / 2real;
    let e = 4real * u;
    let f = 6real * u;
    let g = a - b;
    let gg = g * g;
    let ab = a * b;
    // x against the exact mean.
    accuracy::lemma_mul_le(s, 22real / 10real, e);
    assert((22real / 10real) * e <= 9real * u);
    assert(s * e <= 9real * u);
    assert(reals::rabs(x - m) <= 5real * u);
    // y^2 against the exact product.
    accuracy::lemma_mul_le_both(a, 11real / 10real, b, 11real / 10real);
    assert((11real / 10real) * (11real / 10real) == 121real / 100real);
    accuracy::lemma_mul_le(ab, 121real / 100real, f);
    assert((121real / 100real) * f <= 8real * u);
    let yy = y * y;
    assert(ab - 8real * u <= yy <= ab + 8real * u);
    accuracy::lemma_mul_le_both(7real / 10real, a, 7real / 10real, b);
    assert((7real / 10real) * (7real / 10real) == 49real / 100real);
    // m^2 - a * b == g^2 / 4.
    let mm = m * m;
    assert(4real * mm == 4real * ab + gg) by (nonlinear_arith)
        requires
            m == (a + b) / 2real,
            mm == m * m,
            ab == a * b,
            gg == (a - b) * (a - b),
    ;
    // x^2 against m^2.
    let d = x - m;
    let dd = d * d;
    let md = m * d;
    let xx = x * x;
    assert(xx == mm + 2real * md + dd) by (nonlinear_arith)
        requires
            x == m + d,
            xx == x * x,
            mm == m * m,
            md == m * d,
            dd == d * d,
    ;
    lemma_rabs_square(d, 5real * u);
    lemma_rabs_times(m, d, 11real / 10real, 5real * u);
    assert((5real * u) * (5real * u) <= u) by {
        accuracy::lemma_mul_le_both(5real * u, 1real / 1000real, 5real * u, 5real * u);
        assert((1real / 1000real) * (5real * u) <= u);
    }
    assert((11real / 10real) * (5real * u) <= 6real * u);
    assert(reals::rabs(xx - mm) <= 13real * u);
    // y >= 0.69.
    if y < 69real / 100real {
        accuracy::lemma_mul_le_both(y, 69real / 100real, y, 69real / 100real);
        assert((69real / 100real) * (69real / 100real) == 4761real / 10000real);
    }
    // x - y from x^2 - y^2.
    let w = x + y;
    let z = x - y;
    assert(xx - yy == z * w) by (nonlinear_arith)
        requires
            xx == x * x,
            yy == y * y,
            w == x + y,
            z == x - y,
    ;
    let bound = gg / 4real + 21real * u;
    lemma_square_nonnegative(g);
    assert(reals::rabs(xx - yy) <= bound);
    assert(w >= 138real / 100real);
    lemma_rabs_quotient(z, w, bound, 138real / 100real);
    let q = reals::rabs(z);
    assert(q * (138real / 100real) <= bound);
    assert(q <= gg / 5real + 40real * u);
}

pub proof fn lemma_square_nonnegative(x: real)
    ensures
        x * x >= 0real,
{
    assert(x * x >= 0real) by (nonlinear_arith);
}

pub proof fn lemma_rabs_square(d: real, e: real)
    requires
        reals::rabs(d) <= e,
    ensures
        0real <= d * d <= e * e,
{
    let x = reals::rabs(d);
    accuracy::lemma_mul_le_both(x, e, x, e);
    assert(d * d == x * x) by (nonlinear_arith)
        requires
            x == d || x == -d,
    ;
}

pub proof fn lemma_rabs_times(m: real, d: real, c: real, e: real)
    requires
        0real <= m <= c,
        reals::rabs(d) <= e,
    ensures
        reals::rabs(m * d) <= c * e,
{
    let x = reals::rabs(d);
    accuracy::lemma_mul_le_both(m, c, x, e);
    assert(m * (-d) == -(m * d)) by (nonlinear_arith);
}

pub proof fn lemma_rabs_quotient(z: real, w: real, bound: real, c: real)
    requires
        reals::rabs(z * w) <= bound,
        w >= c,
        c > 0real,
    ensures
        reals::rabs(z) * c <= bound,
{
    let q = reals::rabs(z);
    assert(reals::rabs(z * w) == q * w) by (nonlinear_arith)
        requires
            q == if z < 0real { -z } else { z },
            w > 0real,
            reals::rabs(z * w) == if z * w < 0real { -(z * w) } else { z * w },
    ;
    accuracy::lemma_mul_le(c, w, q);
}

/// The squared difference shrinks, also against the doubled factor.
proof fn lemma_gap_square(gg: real, q: real, p: real, u: real)
    requires
        0real <= gg <= 9real / 100real,
        0real <= q <= gg / 5real + 40real * u,
        0real < u <= 1real / 1_000_000_000_000real,
        0real < p,
        p * u <= 1real / 1_000_000_000_000real,
    ensures
        q * q <= 9real / 100real,
        (2real * p) * (q * q) <= (p * gg) / 100real + 1real / 1_000_000_000real,
{
    let k = gg / 5real;
    let e = 40real * u;
    let b = k + e;
    accuracy::lemma_mul_le_both(q, b, q, b);
    let kk = k * k;
    let ke = k * e;
    let ee = e * e;
    assert(b * b == kk + 2real * ke + ee) by (nonlinear_arith)
        requires
            b == k + e,
            kk == k * k,
            ke == k * e,
            ee == e * e,
    ;
    // k^2 <= k * 0.018.
    accuracy::lemma_mul_le(k, 18real / 1000real, k);
    assert(k * (18real / 1000real) == (k * 18real) / 1000real) by (nonlinear_arith);
    accuracy::lemma_mul_le(k, 18real / 1000real, e);
    accuracy::lemma_mul_le(e, 1real / 1000real, e);
    assert(e * (1real / 1000real) == e / 1000real) by (nonlinear_arith);
    assert((18real / 1000real) * e == (18real * e) / 1000real) by (nonlinear_arith);
    let qq = q * q;
    assert(qq <= (k * 18real) / 1000real + e);
    // Times 2 * p.
    let bound = (k * 18real) / 1000real + e;
    accuracy::lemma_mul_le(qq, bound, 2real * p);
    let pg = p * gg;
    let pu = p * u;
    assert((2real * p) * bound == (pg * 36real) / 5000real + 80real * pu) by (nonlinear_arith)
        requires
            bound == ((gg / 5real) * 18real) / 1000real + 40real * u,
            pg == p * gg,
            pu == p * u,
    ;
    accuracy::lemma_mul_le_both(0real, p, 0real, gg);
}

/// The range holds from step to step.
pub proof fn lemma_range_step(
    s: (real, real, real),
    n: (real, real, real),
    i: nat,
    p: real,
    u: real,
)
    requires
        i < 64,
        0real < u <= 1real / 1_000_000_000_000real,
        1real <= p,
        p * u <= 1real / 1_000_000_000_000real,
        in_range(s, i, p),
        agm_step(s, n, p, u),
    ensures
        in_range(n, i + 1, 2real * p),
{
    let (a, b, t) = s;
    let (x, y, w) = n;
    let g = a - b;
    let gg = g * g;
    let slack = ((64 - i) as real) / 100_000_000real;
    let next = ((64 - (i + 1)) as real) / 100_000_000real;
    assert(next == slack - 1real / 100_000_000real);
    lemma_gap(a, b, x, y, u);
    lemma_square_nonnegative(g);
    let q = reals::rabs(x - y);
    lemma_gap_square(gg, q, p, u);
    assert((x - y) * (x - y) == q * q) by (nonlinear_arith)
        requires
            q == x - y || q == -(x - y),
    ;
    // The means stay between the smaller and the larger, up to rounding.
    lemma_mean_range(a, b, x, y, slack, u);
    // t.
    let d = a - x;
    let dd = d * d;
    lemma_square_nonnegative(d);
    let h = g / 2real;
    let r = (a + b) / 2real - x;
    assert(d == h + r);
    let hh = h * h;
    let hr = h * r;
    let rr = r * r;
    assert(dd == hh + 2real * hr + rr) by (nonlinear_arith)
        requires
            d == h + r,
            dd == d * d,
            hh == h * h,
            hr == h * r,
            rr == r * r,
    ;
    assert(hh == gg / 4real) by (nonlinear_arith)
        requires
            hh == (g / 2real) * (g / 2real),
            gg == g * g,
    ;
    let ha = reals::rabs(h);
    assert(ha <= 2real / 10real);
    lemma_rabs_square(r, 5real * u);
    accuracy::lemma_mul_le_both(5real * u, 1real / 1000real, 5real * u, 5real * u);
    assert((1real / 1000real) * (5real * u) <= u);
    assert(hr <= u) by {
        accuracy::lemma_mul_le_both(ha, 2real / 10real, reals::rabs(r), 5real * u);
        assert((2real / 10real) * (5real * u) == u) by (nonlinear_arith);
        assert(h * r <= ha * reals::rabs(r)) by {
            assert(reals::rabs(h) * reals::rabs(r) == reals::rabs(h * r)) by {
                newton::lemma_rabs_multiplies(h, r);
            }
        }
    }
    assert(dd <= gg / 4real + 3real * u);
    let pd = p * dd;
    let pg = p * gg;
    let pu = p * u;
    accuracy::lemma_mul_le(dd, gg / 4real + 3real * u, p);
    assert(p * (gg / 4real + 3real * u) == pg / 4real + 3real * pu) by (nonlinear_arith)
        requires
            pg == p * gg,
            pu == p * u,
    ;
    accuracy::lemma_mul_le_both(0real, p, 0real, dd);
    accuracy::lemma_mul_le_both(0real, p, 0real, gg);
    // The rounding of t.
    let e = 10real * u;
    assert(t - (26real / 100real) * pg >= 22real / 100real + slack);
    assert(pg <= 1real);
    assert(t + pd <= 2real);
    accuracy::lemma_mul_le(t + pd, 2real, e);
    assert(w >= t - pd - 20real * u);
    assert(w <= t + 20real * u);
    let pq = (2real * p) * (q * q);
    assert((26real / 100real) * pq <= (26real / 100real) * (pg / 100real + 1real
        / 1_000_000_000real));
}

/// Both means lie between the bounds of the values, up to rounding.
proof fn lemma_mean_range(a: real, b: real, x: real, y: real, slack: real, u: real)
    requires
        0real < u <= 1real / 1_000_000_000_000real,
        0real <= slack <= 1real / 100real,
        7real / 10real + slack <= a <= 11real / 10real - slack,
        7real / 10real + slack <= b <= 11real / 10real - slack,
        reals::rabs(x - (a + b) / 2real) <= 5real * u,
        accuracy::within(y * y, a * b, 6real, u),
        y > 0real,
    ensures
        7real / 10real + slack - 1real / 100_000_000real <= x <= 11real / 10real - slack + 1real
            / 100_000_000real,
        7real / 10real + slack - 1real / 100_000_000real <= y <= 11real / 10real - slack + 1real
            / 100_000_000real,
{
    let lo = 7real / 10real + slack;
    let hi = 11real / 10real - slack;
    let ab = a * b;
    let f = 6real * u;
    accuracy::lemma_mul_le_both(lo, a, lo, b);
    accuracy::lemma_mul_le_both(a, hi, b, hi);
    accuracy::lemma_mul_le_both(hi, 11real / 10real, hi, 11real / 10real);
    assert((11real / 10real) * (11real / 10real) == 121real / 100real);
    accuracy::lemma_mul_le(ab, 121real / 100real, f);
    assert((121real / 100real) * f <= 8real * u);
    let e = 1real / 100_000_000real;
    let y0 = lo - e;
    let y1 = hi + e;
    if y < y0 {
        accuracy::lemma_mul_le_both(y, y0, y, y0);
        assert(y0 * y0 == lo * lo - 2real * (lo * e) + e * e) by (nonlinear_arith)
            requires
                y0 == lo - e,
        ;
        accuracy::lemma_mul_le(7real / 10real, lo, e);
        assert(e * e == 1real / 10_000_000_000_000_000real);
        assert((7real / 10real) * e == 7real / 1_000_000_000real);
    }
    if y > y1 {
        accuracy::lemma_mul_le_both(y1, y, y1, y);
        assert(y1 * y1 == hi * hi + 2real * (hi * e) + e * e) by (nonlinear_arith)
            requires
                y1 == hi + e,
        ;
        accuracy::lemma_mul_le(7real / 10real, hi, e);
        assert(e * e == 1real / 10_000_000_000_000_000real);
        assert((7real / 10real) * e == 7real / 1_000_000_000real);
    }
}

/// A run of the iteration begins with one, the square root of a half and a
/// quarter, and each step takes the arithmetic mean, the geometric mean, and
/// subtracts `2^i` times the squared step of the first from the third; each but for
/// a few units `u` of relative error.
pub proof fn law_run(run: Seq<(real, real, real)>, u: real, i: int)
    requires
        agm_run(run, u),
        0 <= i < run.len() - 1,
    ensures
        run[0].0 == 1real,
        run[0].1 > 0real,
        1real / 2real - (1real / 2real) * (4real * u) <= run[0].1 * run[0].1,
        run[0].1 * run[0].1 <= 1real / 2real + (1real / 2real) * (4real * u),
        run[0].2 == 1real / 4real,
        ({
            let (a, b, t) = run[i];
            let (c, d, s) = run[i + 1];
            let p = reals::rpow2(i);
            let moved = p * ((a - c) * (a - c));
            &&& (a + b) - (a + b) * (4real * u) <= 2real * c <= (a + b) + (a + b) * (4real * u)
            &&& d > 0real
            &&& a * b - (a * b) * (6real * u) <= d * d <= a * b + (a * b) * (6real * u)
            &&& -((t + moved) * (10real * u)) <= s - (t - moved) <= (t + moved) * (10real * u)
        }),
{
    assert(agm_step(run[i], run[i + 1], reals::rpow2(i), u));
}

/// Without rounding, the means are exact.
pub proof fn law_exact_run(run: Seq<(real, real, real)>, i: int)
    requires
        agm_run(run, 0real),
        0 <= i < run.len() - 1,
    ensures
        run[0].1 * run[0].1 == 1real / 2real,
        2real * run[i + 1].0 == run[i].0 + run[i].1,
        run[i + 1].1 * run[i + 1].1 == run[i].0 * run[i].1,
        run[i + 1].2 == run[i].2 - reals::rpow2(i) * ((run[i].0 - run[i + 1].0) * (run[i].0 - run[i
            + 1].0)),
{
    law_run(run, 0real, i);
    let (a, b, t) = run[i];
    let (c, d, s) = run[i + 1];
    let m = reals::rpow2(i) * ((a - c) * (a - c));
    assert((a + b) * (4real * 0real) == 0real) by (nonlinear_arith);
    assert((a * b) * (6real * 0real) == 0real) by (nonlinear_arith);
    assert((t + m) * (10real * 0real) == 0real) by (nonlinear_arith);
}

} // verus!
