//! Relative errors and what they mean for the digits of a result.
use crate::digits;
use crate::float;
use crate::reals;
use vstd::arithmetic::mul::*;
use vstd::arithmetic::power2::*;
use vstd::arithmetic::power::*;
use vstd::prelude::*;

verus! {

/// `x` is the positive `y` up to a relative error of `a * u`.
pub open spec fn within(x: real, y: real, a: real, u: real) -> bool {
    &&& y > 0real
    &&& y - y * (a * u) <= x <= y + y * (a * u)
}

/// Products with a factor that is not negative keep the order.
pub proof fn lemma_mul_le(a: real, b: real, c: real)
    requires
        a <= b,
        c >= 0real,
    ensures
        a * c <= b * c,
        c * a <= c * b,
{
    assert(a * c <= b * c && c * a <= c * b) by (nonlinear_arith)
        requires
            a <= b,
            c >= 0real,
    ;
}

/// Products of ordered numbers that are not negative are ordered.
pub proof fn lemma_mul_le_both(a: real, b: real, c: real, d: real)
    requires
        0real <= a <= b,
        0real <= c <= d,
    ensures
        0real <= a * c <= b * d,
{
    lemma_mul_le(a, b, c);
    lemma_mul_le(c, d, b);
    lemma_mul_le(0real, a, c);
    assert(0real * c == 0real) by (nonlinear_arith);
}

/// Products of positive numbers are positive.
pub proof fn lemma_mul_positive(a: real, b: real)
    requires
        a > 0real,
        b > 0real,
    ensures
        a * b > 0real,
{
    assert(a * b > 0real) by (nonlinear_arith)
        requires
            a > 0real,
            b > 0real,
    ;
}

/// A product of four factors, regrouped.
pub proof fn lemma_regroup(a: real, b: real, c: real, d: real)
    ensures
        (a * b) * (c * d) == (a * c) * (b * d),
{
    let x = b * d;
    assert((a * b) * (c * d) == a * (b * (c * d))) by (nonlinear_arith);
    assert(b * (c * d) == c * (b * d)) by (nonlinear_arith);
    assert(a * (c * x) == (a * c) * x) by (nonlinear_arith);
}

/// `y * (1 + e)`, multiplied out.
proof fn lemma_one_plus(y: real, e: real)
    ensures
        y * (1real + e) == y + y * e,
        y * (1real - e) == y - y * e,
{
    assert(y * (1real + e) == y + y * e) by (nonlinear_arith);
    assert(y * (1real - e) == y - y * e) by (nonlinear_arith);
}

/// Relative errors of factors add up.
pub proof fn lemma_within_product(
    x1: real,
    y1: real,
    a: real,
    x2: real,
    y2: real,
    b: real,
    u: real,
)
    requires
        0real < u <= 1real / 10000real,
        0real <= a <= 99real,
        0real <= b <= 99real,
        within(x1, y1, a, u),
        within(x2, y2, b, u),
    ensures
        within(x1 * x2, y1 * y2, a + b + 1real, u),
        x1 * x2 > 0real,
{
    let e = a * u;
    let f = b * u;
    lemma_mul_le_both(a, 99real, u, 1real / 10000real);
    lemma_mul_le_both(b, 99real, u, 1real / 10000real);
    lemma_mul_le_both(0real, a, 0real, u);
    lemma_mul_le_both(0real, b, 0real, u);
    assert(0real <= e <= 99real / 10000real);
    assert(0real <= f <= 99real / 10000real);
    // e * f <= 99 * u * f <= u.
    let g = e * f;
    lemma_mul_le(a, 99real, u);
    lemma_mul_le_both(e, 99real * u, f, 99real / 10000real);
    assert((99real * u) * (99real / 10000real) == (9801real / 10000real) * u)
        by (nonlinear_arith);
    assert(0real <= g <= u);
    let y = y1 * y2;
    lemma_mul_positive(y1, y2);
    let o1 = 1real + e;
    let o2 = 1real + f;
    let m1 = 1real - e;
    let m2 = 1real - f;
    lemma_one_plus(y1, e);
    lemma_one_plus(y2, f);
    lemma_mul_positive(y1, m1);
    lemma_mul_positive(y2, m2);
    lemma_mul_le_both(y1 * m1, x1, y2 * m2, x2);
    lemma_mul_le_both(x1, y1 * o1, x2, y2 * o2);
    lemma_mul_positive(y1 * m1, y2 * m2);
    lemma_regroup(y1, m1, y2, m2);
    lemma_regroup(y1, o1, y2, o2);
    assert(o1 * o2 == 1real + e + f + g) by (nonlinear_arith)
        requires
            o1 == 1real + e,
            o2 == 1real + f,
            g == e * f,
    ;
    assert(m1 * m2 == 1real - e - f + g) by (nonlinear_arith)
        requires
            m1 == 1real - e,
            m2 == 1real - f,
            g == e * f,
    ;
    let h = (a + b + 1real) * u;
    assert(h == a * u + b * u + u) by (nonlinear_arith)
        requires
            h == (a + b + 1real) * u,
    ;
    lemma_mul_le(o1 * o2, 1real + h, y);
    lemma_mul_le(1real - h, m1 * m2, y);
    lemma_one_plus(y, h);
}

/// Relative errors of steps one after the other add up.
pub proof fn lemma_within_chain(x: real, y: real, z: real, a: real, b: real, u: real)
    requires
        0real < u <= 1real / 10000real,
        0real <= a <= 99real,
        0real <= b <= 99real,
        within(x, y, a, u),
        within(y, z, b, u),
    ensures
        within(x, z, a + b + 1real, u),
{
    let q = x / y;
    assert(q * y == x) by (nonlinear_arith)
        requires
            q == x / y,
            y > 0real,
    ;
    let e = a * u;
    lemma_one_plus(y, e);
    assert(1real - e <= q) by (nonlinear_arith)
        requires
            y > 0real,
            y * (1real - e) <= q * y,
    ;
    assert(q <= 1real + e) by (nonlinear_arith)
        requires
            y > 0real,
            q * y <= y * (1real + e),
    ;
    assert(1real * e == e) by (nonlinear_arith);
    lemma_within_product(q, 1real, a, y, z, b, u);
    assert(1real * z == z) by (nonlinear_arith);
}

/// An exact factor keeps a relative error.
pub proof fn lemma_within_scale(x: real, y: real, a: real, u: real, c: real)
    requires
        within(x, y, a, u),
        c > 0real,
    ensures
        within(x * c, y * c, a, u),
        within(c * x, c * y, a, u),
{
    let e = a * u;
    lemma_mul_positive(y, c);
    lemma_one_plus(y, e);
    lemma_mul_le(y * (1real - e), x, c);
    lemma_mul_le(x, y * (1real + e), c);
    let m = 1real - e;
    let o = 1real + e;
    assert((y * m) * c == (y * c) * m) by (nonlinear_arith);
    assert((y * o) * c == (y * c) * o) by (nonlinear_arith);
    lemma_one_plus(y * c, e);
    assert(c * x == x * c && c * y == y * c) by (nonlinear_arith);
}

/// A rounded value as a relative error.
pub proof fn lemma_near_within(x: real, y: real, prec: int)
    requires
        float::near(x, y, prec),
        y > 0real,
    ensures
        within(x, y, 1real, reals::rpow2(-prec)),
{
    let u = reals::rpow2(-prec);
    assert(1real * u == u) by (nonlinear_arith);
}

/// The bits to which digits are pinned down behind the last one.
pub open spec fn guard() -> int {
    pow2(190) as int
}

/// `v` is the integer part of `10^(digits - 1) * sqrt(square) / d`, up to the
/// error `1 / guard()`: that number lies between `v - 1 / guard()` and
/// `v + 1 + 1 / guard()`.
pub open spec fn brackets(v: int, digits: nat, square: int, d: int) -> bool {
    let scale = pow(10, (digits - 1) as nat) * guard();
    let low = (v * guard() - 1) * d;
    let high = ((v + 1) * guard() + 1) * d;
    &&& v >= 1
    &&& low * low <= (scale * scale) * square
    &&& (scale * scale) * square <= high * high
}

/// The final comparison over the reals: with `z^2` close to `n` and
/// `w` between `z` and `z - d` up to the error `e`, `n` lies between
/// `(w - g)^2` and `(w + d + g)^2`.
proof fn lemma_bracket_real(z: real, n: real, w: real, d: real, g: real, e: real, u: real)
    requires
        0real < u <= 1real / 10000real,
        0real <= e <= 1real / 100real,
        d > 0real,
        w >= d,
        z > 0real,
        within(z * z, n, 20real, u),
        w <= z + z * e,
        w + d >= z - z * e,
        0real < g <= d,
        (32real * w) * (30real * u + 4real * e) <= g,
    ensures
        (w - g) * (w - g) <= n,
        n <= (w + d + g) * (w + d + g),
{
    let t = 30real * u + 4real * e;
    let zz = z * z;
    let k = 20real * u;
    lemma_mul_positive(z, z);
    lemma_mul_le(e, 1real / 100real, e);
    let ee = e * e;
    assert(ee <= e / 100real);
    lemma_mul_le(0real, e, e);
    assert(0real * e == 0real) by (nonlinear_arith);
    lemma_one_plus(z, e);
    let o = 1real + e;
    let m = 1real - e;
    assert(o * o == 1real + 2real * e + ee) by (nonlinear_arith)
        requires
            o == 1real + e,
            ee == e * e,
    ;
    assert(m * m == 1real - 2real * e + ee) by (nonlinear_arith)
        requires
            m == 1real - e,
            ee == e * e,
    ;
    // w^2 <= z^2 * (1 + e)^2.
    lemma_mul_le_both(w, z * o, w, z * o);
    lemma_regroup(z, o, z, o);
    // n <= 2 * z^2 and z <= 4 * w, so n <= 32 * w^2.
    lemma_mul_le(k, 1real / 500real, n);
    assert(n * k <= n / 500real) by {
        assert(n * (1real / 500real) == n / 500real) by (nonlinear_arith);
    }
    assert(n <= 2real * zz);
    lemma_mul_le(e, 1real / 100real, z);
    assert(z * (1real / 100real) == z / 100real) by (nonlinear_arith);
    assert(z <= 4real * w);
    lemma_mul_le_both(z, 4real * w, z, 4real * w);
    let ww = w * w;
    assert((4real * w) * (4real * w) == 16real * ww) by (nonlinear_arith)
        requires
            ww == w * w,
    ;
    assert(n <= 32real * ww);
    // n * t <= w * g.
    lemma_mul_le(n, 32real * ww, t);
    assert((32real * ww) * t == w * ((32real * w) * t)) by (nonlinear_arith)
        requires
            ww == w * w,
    ;
    lemma_mul_le((32real * w) * t, g, w);
    assert(n * t <= w * g);
    // w^2 <= n * (1 + k) * (1 + e)^2 <= n * (1 + t).
    let f = o * o;
    let q = 1real + k;
    lemma_one_plus(n, k);
    lemma_mul_le(zz, n * q, f);
    assert((n * q) * f == n * (q * f)) by (nonlinear_arith);
    lemma_mul_le(k, 1real / 500real, f);
    assert(f * (1real / 500real) == f / 500real) by (nonlinear_arith);
    assert(q * f == f + k * f) by (nonlinear_arith)
        requires
            q == 1real + k,
    ;
    lemma_mul_le(f, 11real / 10real, k);
    assert((11real / 10real) * k == (11real * k) / 10real) by (nonlinear_arith);
    assert(q * f <= 1real + t);
    lemma_mul_le(q * f, 1real + t, n);
    lemma_one_plus(n, t);
    assert(ww <= n + n * t);
    let wg = w * g;
    let gg = g * g;
    assert((w - g) * (w - g) == ww - 2real * wg + gg) by (nonlinear_arith)
        requires
            ww == w * w,
            wg == w * g,
            gg == g * g,
    ;
    lemma_mul_le(g, w, g);
    // (w + d)^2 >= z^2 * (1 - e)^2 >= n * (1 - k) * (1 - e)^2 >= n * (1 - t).
    let s = w + d;
    lemma_mul_positive(z, m);
    lemma_mul_le_both(z * m, s, z * m, s);
    lemma_regroup(z, m, z, m);
    let mm = m * m;
    let r = 1real - k;
    lemma_mul_le(n * r, zz, mm);
    assert((n * r) * mm == n * (r * mm)) by (nonlinear_arith);
    assert(r * mm == mm - k * mm) by (nonlinear_arith)
        requires
            r == 1real - k,
    ;
    lemma_mul_le(mm, 1real, k);
    assert(1real * k == k) by (nonlinear_arith);
    assert(r * mm >= 1real - t);
    lemma_mul_le(1real - t, r * mm, n);
    assert(s * s >= n - n * t);
    let sg = s * g;
    assert((s + g) * (s + g) == s * s + 2real * sg + gg) by (nonlinear_arith)
        requires
            sg == s * g,
            gg == g * g,
    ;
    lemma_mul_le(w, s, g);
    lemma_mul_positive(g, g);
    lemma_mul_positive(w, g);
}

/// The errors of a computation with `p` bits, where `2^(p - 250)` is at least
/// `10^digits`, are far below one unit of the last digit.
proof fn lemma_error_budget(v: real, s: real, digits: nat, p: int)
    requires
        p >= 256,
        1 <= digits <= 400_000_000_000,
        pow(10, digits) <= pow2((p - 250) as nat),
        s == pow(10, (digits - 1) as nat) as real,
        0real <= v <= 16real * s,
    ensures
        0real < reals::rpow2(-p) <= 1real / 10000real,
        0real <= digits::scaling_error(digits, p) <= 1real / 100real,
        (32real * v) * (30real * reals::rpow2(-p) + 4real * digits::scaling_error(digits, p))
            <= reals::rpow2(-190),
{
    let u = reals::rpow2(-p);
    let e = digits::scaling_error(digits, p);
    reals::lemma_rpow2_step(-p);
    reals::lemma_rpow2_monotone(-p, -60);
    reals::lemma_rpow2_nat(60);
    reals::lemma_rpow2_add(60, -60);
    reals::lemma_rpow2_step(-60);
    lemma2_to64();
    lemma2_to64_rest();
    let big = reals::rpow2(60);
    let small = reals::rpow2(-60);
    assert(big == 1152921504606846976real);
    assert(reals::rpow2(0) == 1real);
    assert(small <= 1real / 1152921504606846976real) by (nonlinear_arith)
        requires
            1152921504606846976real * small == 1real,
    ;
    let k = (2 * (digits + 1)) as real;
    assert(0real <= k <= 800_000_000_002real);
    lemma_mul_le_both(0real, k, 0real, u);
    lemma_mul_le_both(k, 800_000_000_002real, u, small);
    // 30 * u + 4 * e == c * u with c at most 2^43.
    let c = 30real + 4real * k;
    let t = 30real * u + 4real * e;
    assert(t == c * u) by (nonlinear_arith)
        requires
            t == 30real * u + 4real * (k * u),
            c == 30real + 4real * k,
    ;
    // v <= 2 * 10^digits <= 2^(p - 249).
    lemma_pow_adds(10, 1, (digits - 1) as nat);
    lemma_pow1(10);
    reals::lemma_int_product(10, pow(10, (digits - 1) as nat));
    let q = (p - 250) as nat;
    reals::lemma_rpow2_nat(q);
    let top = reals::rpow2(p - 250);
    assert(10real * s <= top);
    assert(v <= 2real * top);
    // top * u == 2^(-250).
    reals::lemma_rpow2_add(p - 250, -p);
    reals::lemma_rpow2_add(60, -250);
    let tu = top * u;
    assert(tu == reals::rpow2(-250));
    reals::lemma_rpow2_step(p - 250);
    lemma_mul_le(32real * v, 64real * top, t);
    assert(t >= 0real) by {
        lemma_mul_le_both(0real, c, 0real, u);
    }
    assert((64real * top) * t == (64real * c) * tu) by (nonlinear_arith)
        requires
            t == c * u,
            tu == top * u,
    ;
    assert(0real <= 64real * c <= 1152921504606846976real);
    lemma_mul_positive(top, u);
    lemma_mul_le(64real * c, big, tu);
}

/// The digits of a value close to a square root of a quotient of squares.
pub proof fn lemma_brackets(v: int, x: real, digits: nat, p: int, square: int, d: int)
    requires
        p >= 256,
        1 <= digits <= 400_000_000_000,
        pow(10, digits) <= pow2((p - 250) as nat),
        2real <= x <= 8real,
        d > 0,
        within((x * (d as real)) * (x * (d as real)), square as real, 20real, reals::rpow2(-p)),
        digits::is_scaled_floor(v, x, digits, digits::scaling_error(digits, p)),
        v >= 0,
    ensures
        brackets(v, digits, square, d),
{
    let u = reals::rpow2(-p);
    let e = digits::scaling_error(digits, p);
    let si = pow(10, (digits - 1) as nat);
    let s = si as real;
    let dr = d as real;
    let vr = v as real;
    lemma_pow_positive(10, (digits - 1) as nat);
    assert(s >= 1real);
    lemma_error_budget(0real, s, digits, p);
    let y = x * s;
    lemma_mul_le_both(2real, x, 1real, s);
    lemma_mul_le(x, 8real, s);
    lemma_mul_le(e, 1real / 100real, y);
    assert(y * (1real / 100real) == y / 100real) by (nonlinear_arith);
    lemma_one_plus(y, e);
    assert(y >= 2real);
    assert(vr <= 16real * s);
    assert(vr + 1real > 1real);
    assert(v >= 1) by {
        assert(y * (1real - e) >= 1real + 9real / 10real);
    }
    lemma_error_budget(vr, s, digits, p);
    let xd = x * dr;
    let z = y * dr;
    let w = vr * dr;
    let n = (s * s) * (square as real);
    lemma_mul_positive(y, dr);
    // z^2 is s^2 * (x * d)^2.
    assert(z == s * xd) by (nonlinear_arith)
        requires
            z == (x * s) * dr,
            xd == x * dr,
    ;
    lemma_regroup(s, xd, s, xd);
    lemma_mul_positive(s, s);
    lemma_within_scale(xd * xd, square as real, 20real, u, s * s);
    // The bounds on v, times d.
    lemma_mul_le(vr, y + y * e, dr);
    lemma_mul_le(y - y * e, vr + 1real, dr);
    assert((y + y * e) * dr == z + z * e) by (nonlinear_arith)
        requires
            z == y * dr,
    ;
    assert((y - y * e) * dr == z - z * e) by (nonlinear_arith)
        requires
            z == y * dr,
    ;
    assert((vr + 1real) * dr == w + dr) by (nonlinear_arith)
        requires
            w == vr * dr,
    ;
    lemma_mul_le(1real, vr, dr);
    assert(1real * dr == dr) by (nonlinear_arith);
    let t = 30real * u + 4real * e;
    // The guard, as a real number and as an integer.
    let q = reals::rpow2(-190);
    let gi = guard();
    let gr = gi as real;
    reals::lemma_rpow2_nat(190);
    reals::lemma_rpow2_step(-190);
    reals::lemma_rpow2_monotone(-190, 0);
    assert(reals::rpow2(0) == 1real);
    assert(q * gr == 1real);
    let g = dr * q;
    lemma_mul_positive(dr, q);
    lemma_mul_le(q, 1real, dr);
    lemma_mul_le((32real * vr) * t, q, dr);
    assert(((32real * vr) * t) * dr == (32real * w) * t) by (nonlinear_arith)
        requires
            w == vr * dr,
    ;
    reals::lemma_real_comm(q, dr);
    lemma_bracket_real(z, n, w, dr, g, e, u);
    // Times the guard: (w - g) * G == (v * G - 1) * d.
    reals::lemma_real_assoc(dr, q, gr);
    lemma_scale_bracket(w, g, dr, vr, gr);
    let (low, high) = ((v * gi - 1) * d, ((v + 1) * gi + 1) * d);
    reals::lemma_int_product(v, gi);
    reals::lemma_int_product(v + 1, gi);
    reals::lemma_int_product(v * gi - 1, d);
    reals::lemma_int_product((v + 1) * gi + 1, d);
    reals::lemma_int_product(low, low);
    reals::lemma_int_product(high, high);
    let sg = si * gi;
    reals::lemma_int_product(si, gi);
    reals::lemma_int_product(sg, sg);
    reals::lemma_int_product(sg * sg, square);
    assert((v * gi - 1) as real == vr * gr - 1real);
    assert(((v + 1) * gi + 1) as real == (vr + 1real) * gr + 1real);
    let (lr, hr) = ((w - g) * gr, (w + dr + g) * gr);
    let gg = gr * gr;
    lemma_regroup(w - g, gr, w - g, gr);
    lemma_regroup(w + dr + g, gr, w + dr + g, gr);
    lemma_mul_le(0real, 1real, gr);
    lemma_mul_positive(gr, gr);
    lemma_mul_le((w - g) * (w - g), n, gg);
    lemma_mul_le(n, (w + dr + g) * (w + dr + g), gg);
    // n * G^2 == (s * G)^2 * square
    lemma_regroup(s, gr, s, gr);
    let ss = s * s;
    let kr = square as real;
    reals::lemma_real_assoc(ss, kr, gg);
    reals::lemma_real_comm(kr, gg);
    reals::lemma_real_assoc(ss, gg, kr);
}

/// The bounds of a bracket, times the guard.
proof fn lemma_scale_bracket(w: real, g: real, d: real, v: real, t: real)
    requires
        w == v * d,
        g * t == d,
    ensures
        (w - g) * t == (v * t - 1real) * d,
        (w + d + g) * t == ((v + 1real) * t + 1real) * d,
{
    let wt = w * t;
    let dt = d * t;
    assert((w - g) * t == wt - g * t) by (nonlinear_arith)
        requires
            wt == w * t,
    ;
    assert((w + d + g) * t == wt + dt + g * t) by (nonlinear_arith)
        requires
            wt == w * t,
            dt == d * t,
    ;
    let vt = v * t;
    assert(wt == vt * d) by (nonlinear_arith)
        requires
            wt == w * t,
            w == v * d,
            vt == v * t,
    ;
    reals::lemma_real_distrib(vt, -1real, d);
    assert(-1real * d == -d) by (nonlinear_arith);
    reals::lemma_real_distrib(v, 1real, t);
    reals::lemma_real_distrib(vt + t, 1real, d);
    reals::lemma_real_distrib(vt, t, d);
    reals::lemma_real_comm(d, t);
}

/// The digits of a number are settled but for one unit in the last digit, which
/// is open only where the number is within `1 / guard()` of an integer.
pub proof fn law_bracket_settled(v: int, w: int, digits: nat, square: int, d: int)
    requires
        d > 0,
        brackets(v, digits, square, d),
        brackets(w, digits, square, d),
    ensures
        -1 <= v - w <= 1,
{
    lemma_bracket_order(v, w, digits, square, d);
    lemma_bracket_order(w, v, digits, square, d);
}

proof fn lemma_bracket_order(v: int, w: int, digits: nat, square: int, d: int)
    requires
        d > 0,
        brackets(v, digits, square, d),
        brackets(w, digits, square, d),
    ensures
        v <= w + 1,
{
    let g = guard();
    lemma_pow2_pos(188);
    lemma_pow2_unfold(189);
    lemma_pow2_unfold(190);
    let (x, y) = (v * g - 1, (w + 1) * g + 1);
    let (low, high) = (x * d, y * d);
    assert(high >= 0) by (nonlinear_arith)
        requires
            high == y * d,
            y == (w + 1) * g + 1,
            w >= 1,
            g >= 4,
            d > 0,
    ;
    assert(low <= high) by (nonlinear_arith)
        requires
            low * low <= high * high,
            high >= 0,
    ;
    assert(x <= y) by (nonlinear_arith)
        requires
            low <= high,
            low == x * d,
            high == y * d,
            d > 0,
    ;
    assert(v <= w + 1) by (nonlinear_arith)
        requires
            v * g - 1 <= (w + 1) * g + 1,
            g >= 4,
    ;
}

/// `x` is within `a * u` of `y`, as a share of `y`.
pub proof fn law_within(x: real, y: real, a: real, u: real)
    ensures
        within(x, y, a, u) <==> y > 0real && y * (a * u) >= x - y && y * (a * u) >= y - x,
        guard() == pow2(190),
{
}

} // verus!
