//! Square roots by Newton iteration with doubling precision.
use crate::accuracy;
use crate::bitlen;
use crate::float;
use crate::float::Float;
use crate::integer;
use crate::integer::Integer;
use crate::limbs;
use crate::newton;
use crate::newton::leading_bits;
use crate::reals;
use crate::rounding;
use vstd::arithmetic::div_mod::*;
use vstd::arithmetic::mul::*;
use vstd::arithmetic::power2::*;
use vstd::prelude::*;

verus! {

/// The integer nearest to the square root of `y`.
pub fn nearest_root(y: u128) -> (s: u64)
    requires
        y < 0x400_0000_0000_0000_0000_0000_0000,
    ensures
        s * s - s < y || y == 0 && s == 0,
        y <= s * s + s,
        s <= 0x20_0000_0000_0000,
{
    let mut r: u128 = 0;
    let mut step: u128 = 0x10_0000_0000_0000;
    let mut b: u32 = 53;
    proof {
        lemma_root_start();
    }
    while b > 0
        invariant
            b <= 53,
            b > 0 ==> step == pow2((b - 1) as nat),
            r + pow2(b as nat) <= 0x20_0000_0000_0000,
            r * r <= y,
            y < (r + pow2(b as nat)) * (r + pow2(b as nat)),
        decreases b,
    {
        proof {
            lemma_pow2_unfold(b as nat);
            lemma_pow2_pos((b - 1) as nat);
            if b > 1 {
                lemma_pow2_unfold((b - 1) as nat);
            }
            lemma2_to64();
        }
        let c: u128 = r + step;
        proof {
            assert(c * c <= 0x20_0000_0000_0000 * 0x20_0000_0000_0000) by (nonlinear_arith)
                requires
                    0 <= c <= 0x20_0000_0000_0000,
            ;
        }
        if c * c <= y {
            r = c;
        }
        step = step / 2;
        b = b - 1;
    }
    proof {
        lemma2_to64();
        assert((r + 1) * (r + 1) == r * r + 2 * r + 1) by (nonlinear_arith);
        assert(r * r <= 0x20_0000_0000_0000 * 0x20_0000_0000_0000) by (nonlinear_arith)
            requires
                0 <= r <= 0x20_0000_0000_0000,
        ;
    }
    if y - r * r > r {
        (r + 1) as u64
    } else {
        proof {
            assert(r > 0 ==> r * r - r < r * r);
            if r == 0 {
                assert(y == 0);
            }
        }
        r as u64
    }
}

proof fn lemma_root_start()
    ensures
        pow2(53) == 0x20_0000_0000_0000,
        pow2(52) == 0x10_0000_0000_0000,
{
    lemma2_to64();
    lemma2_to64_rest();
}

/// Rounding `x` keeps it a near square root of `n`.
proof fn lemma_root_rounded(n: real, x: real, x1: real, u: real, f: real)
    requires
        n > 0real,
        x > 0real,
        0real < u,
        65536real * u <= 1real,
        0real <= f,
        1024real * f <= 1real,
        reals::rabs(x * x - n) <= n * f,
        reals::rabs(x1 - x) <= x * u,
    ensures
        x1 > 0real,
        reals::rabs(x1 * x1 - n) <= n * (f + (201real / 100real) * u),
{
    let d = x1 - x;
    assert(x1 > 0real) by (nonlinear_arith)
        requires
            x1 >= x - x * u,
            x > 0real,
            65536real * u <= 1real,
    ;
    assert(x1 * x1 - x * x == 2real * (x * d) + d * d) by (nonlinear_arith)
        requires
            d == x1 - x,
    ;
    let q = x * x;
    assert(q >= 0real) by (nonlinear_arith)
        requires
            q == x * x,
    ;
    assert(x * d <= q * u && -(x * d) <= q * u) by (nonlinear_arith)
        requires
            -(x * u) <= d <= x * u,
            x > 0real,
            q == x * x,
    ;
    reals::lemma_rabs_product(d, d, x * u, x * u);
    assert((x * u) * (x * u) == q * (u * u)) by (nonlinear_arith)
        requires
            q == x * x,
    ;
    assert(q * (u * u) <= (1real / 1000real) * (q * u)) by (nonlinear_arith)
        requires
            q >= 0real,
            u > 0real,
            65536real * u <= 1real,
    {
        assert(u * u <= (1real / 1000real) * u);
        assert(q * (u * u) <= q * ((1real / 1000real) * u));
    }
    assert(n * f <= (1real / 1000real) * n) by (nonlinear_arith)
        requires
            1024real * f <= 1real,
            n > 0real,
    ;
    assert(q * u <= (1001real / 1000real) * (n * u)) by (nonlinear_arith)
        requires
            q <= (1001real / 1000real) * n,
            u > 0real,
    ;
    assert(n * (f + (201real / 100real) * u) == n * f + (201real / 100real) * (n * u)) by (nonlinear_arith);
    assert(n * u > 0real) by (nonlinear_arith)
        requires
            n > 0real,
            u > 0real,
    ;
}

/// The quotient `n / x1` computed from a rounded `n`.
proof fn lemma_root_quotient(n: real, n1: real, x1: real, q: real, u: real)
    requires
        n > 0real,
        0real < u,
        65536real * u <= 1real,
        reals::rabs(n1 - n) <= n * u,
        reals::rabs(q * x1 - n1) <= reals::rabs(n1) * (u / 128real),
    ensures
        reals::rabs(q * x1 - n) <= (101real / 100real) * (n * u),
{
    assert(n * u <= (1real / 1000real) * n) by (nonlinear_arith)
        requires
            65536real * u <= 1real,
            n > 0real,
    ;
    assert(n * u > 0real) by (nonlinear_arith)
        requires
            n > 0real,
            u > 0real,
    ;
    assert(reals::rabs(n1) <= (1001real / 1000real) * n);
    assert(reals::rabs(n1) * (u / 128real) <= (1real / 100real) * (n * u)) by (nonlinear_arith)
        requires
            0real <= reals::rabs(n1) <= (1001real / 1000real) * n,
            u > 0real,
            n > 0real,
    ;
}

/// The mean of `x1` and `n / x1` is nearer to the square root.
proof fn lemma_root_mean(n: real, x1: real, q: real, u: real, g: real)
    requires
        n > 0real,
        x1 > 0real,
        0real < u,
        65536real * u <= 1real,
        0real <= g,
        500real * g <= 1real,
        reals::rabs(x1 * x1 - n) <= n * g,
        reals::rabs(q * x1 - n) <= (101real / 100real) * (n * u),
    ensures
        reals::rabs(((x1 + q) / 2real) * ((x1 + q) / 2real) - n) <= n * ((3real / 10real) * (g * g) + (11real / 10real) * u),
        x1 + q > 0real,
{
    let sq = x1 * x1;
    let gg = sq / n - 1real;
    let h = (q * x1) / n - 1real;
    assert(sq == n * (1real + gg)) by (nonlinear_arith)
        requires
            gg == sq / n - 1real,
            n > 0real,
    ;
    let qx = q * x1;
    assert(qx == n * (1real + h)) by (nonlinear_arith)
        requires
            h == qx / n - 1real,
            n > 0real,
    ;
    assert(-g <= gg <= g) by (nonlinear_arith)
        requires
            -(n * g) <= sq - n <= n * g,
            sq == n * (1real + gg),
            n > 0real,
    ;
    assert(-((101real / 100real) * u) <= h <= (101real / 100real) * u) by (nonlinear_arith)
        requires
            -((101real / 100real) * (n * u)) <= qx - n <= (101real / 100real) * (n * u),
            qx == n * (1real + h),
            n > 0real,
    ;
    let y = (x1 + q) / 2real;
    let k = gg + h;
    // y * x1 = n * (1 + k / 2)
    assert(y * x1 == n * (1real + k / 2real)) by (nonlinear_arith)
        requires
            y == (x1 + q) / 2real,
            sq == x1 * x1,
            qx == q * x1,
            sq == n * (1real + gg),
            qx == n * (1real + h),
            k == gg + h,
    ;
    let d = y * y - n;
    let c = h + (k * k) / 4real;
    // d * (1 + gg) = n * c
    let yx = y * x1;
    assert((y * y) * sq == yx * yx) by (nonlinear_arith)
        requires
            yx == y * x1,
            sq == x1 * x1,
    ;
    assert(yx * yx == (n * n) * (1real + k + (k * k) / 4real)) by (nonlinear_arith)
        requires
            yx == n * (1real + k / 2real),
    ;
    assert(d * sq == (n * n) * c) by (nonlinear_arith)
        requires
            d == y * y - n,
            (y * y) * sq == (n * n) * (1real + k + (k * k) / 4real),
            sq == n * (1real + gg),
            c == h + (k * k) / 4real,
            k == gg + h,
    {
        assert(d * sq == (y * y) * sq - n * sq);
        assert(n * sq == (n * n) * (1real + gg));
    }
    let a = 1real + gg;
    assert(d * a == n * c) by (nonlinear_arith)
        requires
            d * sq == (n * n) * c,
            sq == n * a,
            n > 0real,
    ;
    // |c| is small.
    reals::lemma_rabs_product(k, k, g + (101real / 100real) * u, g + (101real / 100real) * u);
    assert((g + (101real / 100real) * u) * (g + (101real / 100real) * u) == g * g + (101real / 50real) * (g * u) + (10201real / 10000real) * (u
        * u)) by (nonlinear_arith);
    assert(g * u <= (1real / 500real) * u) by (nonlinear_arith)
        requires
            500real * g <= 1real,
            u > 0real,
    ;
    assert(u * u <= (1real / 10000real) * u) by (nonlinear_arith)
        requires
            65536real * u <= 1real,
            u > 0real,
    ;
    let lim = (1real / 4real) * (g * g) + (51real / 50real) * u;
    assert(g * g >= 0real) by (nonlinear_arith);
    assert(reals::rabs(c) <= lim);
    assert((99real / 100real) <= a);
    // |d| <= n * lim / 0.99
    let nl = n * lim;
    assert(n * c <= nl && -(n * c) <= nl) by (nonlinear_arith)
        requires
            -lim <= c <= lim,
            n > 0real,
            nl == n * lim,
    ;
    assert((99real / 100real) * d <= nl && -((99real / 100real) * d) <= nl) by (nonlinear_arith)
        requires
            d * a == n * c,
            n * c <= nl,
            -(n * c) <= nl,
            a >= (99real / 100real),
            nl >= 0real,
    ;
    let want = n * ((3real / 10real) * (g * g) + (11real / 10real) * u);
    assert(nl <= (99real / 100real) * want) by (nonlinear_arith)
        requires
            nl == n * lim,
            lim == (1real / 4real) * (g * g) + (51real / 50real) * u,
            want == n * ((3real / 10real) * (g * g) + (11real / 10real) * u),
            n > 0real,
            g * g >= 0real,
            u > 0real,
    {
        let r = (3real / 10real) * (g * g) + (11real / 10real) * u;
        assert(lim <= (99real / 100real) * r);
        assert(n * lim <= n * ((99real / 100real) * r));
        assert(n * ((99real / 100real) * r) == (99real / 100real) * (n * r));
    }
    assert(n * u <= n / 1000real) by (nonlinear_arith)
        requires
            65536real * u <= 1real,
            n > 0real,
    ;
    assert(x1 + q > 0real) by (nonlinear_arith)
        requires
            x1 > 0real,
            q * x1 > 0real,
    ;
}

/// The roundings after the mean.
proof fn lemma_root_final(n: real, y: real, s: real, xn: real, u: real, dl: real)
    requires
        n > 0real,
        y > 0real,
        0real < u,
        65536real * u <= 1real,
        0real <= dl,
        100real * dl <= 1real,
        reals::rabs(y * y - n) <= n * dl,
        reals::rabs(s - y) <= y * (u / 256real),
        reals::rabs(xn - s) <= reals::rabs(s) * u,
    ensures
        reals::rabs(xn * xn - n) <= n * (dl + (21real / 10real) * u),
        xn > 0real,
        s > 0real,
{
    let yu = y * u;
    assert(yu > 0real && yu <= (1real / 1000real) * y) by (nonlinear_arith)
        requires
            y > 0real,
            0real < u,
            65536real * u <= 1real,
            yu == y * u,
    ;
    assert(y * (u / 256real) == yu / 256real) by (nonlinear_arith)
        requires
            yu == y * u,
    ;
    assert(s > 0real);
    assert(s * u <= (1001real / 1000real) * yu) by (nonlinear_arith)
        requires
            s <= (1001real / 1000real) * y,
            yu == y * u,
            u > 0real,
    ;
    assert(reals::rabs(xn - y) <= (503real / 500real) * yu);
    let d = xn - y;
    assert(xn * xn - y * y == 2real * (y * d) + d * d) by (nonlinear_arith)
        requires
            d == xn - y,
    ;
    let q = y * y;
    assert(y * d <= (503real / 500real) * (q * u) && -(y * d) <= (503real / 500real) * (q * u)) by (nonlinear_arith)
        requires
            -((503real / 500real) * yu) <= d <= (503real / 500real) * yu,
            yu == y * u,
            q == y * y,
            y > 0real,
    ;
    reals::lemma_rabs_product(d, d, (503real / 500real) * yu, (503real / 500real) * yu);
    assert(((503real / 500real) * yu) * ((503real / 500real) * yu) <= (1real / 500real) * (q * u)) by (nonlinear_arith)
        requires
            yu == y * u,
            q == y * y,
            65536real * u <= 1real,
            u > 0real,
            y > 0real,
    {
        assert(((503real / 500real) * yu) * ((503real / 500real) * yu) == (253009real / 250000real) * ((q * u) * u));
        assert(q * u >= 0real);
        assert((q * u) * u <= (q * u) * (1real / 1000real));
    }
    assert(n * dl <= (1real / 100real) * n) by (nonlinear_arith)
        requires
            100real * dl <= 1real,
            n > 0real,
    ;
    assert(q * u <= (101real / 100real) * (n * u)) by (nonlinear_arith)
        requires
            q <= (101real / 100real) * n,
            u > 0real,
    ;
    assert(n * u > 0real) by (nonlinear_arith)
        requires
            n > 0real,
            u > 0real,
    ;
    assert(n * (dl + (21real / 10real) * u) == n * dl + (21real / 10real) * (n * u)) by (nonlinear_arith);
}

/// One Newton step for a square root: the error squares, up to rounding by `u`.
proof fn lemma_root_step(
    n: real,
    x: real,
    u: real,
    f: real,
    n1: real,
    x1: real,
    q: real,
    sum: real,
    half: real,
    xn: real,
)
    requires
        n > 0real,
        x > 0real,
        0real < u,
        65536real * u <= 1real,
        0real <= f,
        1024real * f <= 1real,
        reals::rabs(x * x - n) <= n * f,
        reals::rabs(n1 - n) <= n * u,
        reals::rabs(x1 - x) <= x * u,
        reals::rabs(q * x1 - n1) <= reals::rabs(n1) * (u / 128real),
        reals::rabs(sum - (x1 + q)) <= reals::rabs(x1 + q) * (u / 256real),
        half == sum / 2real,
        reals::rabs(xn - half) <= reals::rabs(half) * u,
    ensures
        reals::rabs(xn * xn - n) <= n * ((f * f) / 3real + (33real / 10real) * u),
        xn > 0real,
{
    lemma_root_rounded(n, x, x1, u, f);
    lemma_root_quotient(n, n1, x1, q, u);
    let g = f + (201real / 100real) * u;
    lemma_root_mean(n, x1, q, u, g);
    let y = (x1 + q) / 2real;
    let dl = (3real / 10real) * (g * g) + (11real / 10real) * u;
    assert(g * g == f * f + (201real / 50real) * (f * u) + (40401real / 10000real) * (u * u)) by (nonlinear_arith)
        requires
            g == f + (201real / 100real) * u,
    ;
    assert(f * u <= (1real / 1000real) * u) by (nonlinear_arith)
        requires
            1024real * f <= 1real,
            u > 0real,
    ;
    assert(u * u <= (1real / 10000real) * u) by (nonlinear_arith)
        requires
            65536real * u <= 1real,
            u > 0real,
    ;
    assert(f * f >= 0real) by (nonlinear_arith);
    assert(f * f <= (1real / 1000real)) by (nonlinear_arith)
        requires
            0real <= f,
            1024real * f <= 1real,
    ;
    assert(reals::rabs(half - y) <= y * (u / 256real)) by {
        let t = x1 + q;
        assert((t / 2real) * (u / 256real) == (t * (u / 256real)) / 2real) by (nonlinear_arith);
    }
    let gg = g * g;
    assert(gg >= 0real) by (nonlinear_arith)
        requires
            gg == g * g,
    ;
    assert(dl >= 0real) by (nonlinear_arith)
        requires
            dl == (3real / 10real) * gg + (11real / 10real) * u,
            gg >= 0real,
            u > 0real,
    ;
    lemma_root_final(n, y, half, xn, u, dl);
    let a = dl + (21real / 10real) * u;
    let b = (f * f) / 3real + (33real / 10real) * u;
    assert(a <= b);
    assert(n * a <= n * b) by (nonlinear_arith)
        requires
            a <= b,
            n > 0real,
    ;
}

/// A first guess for the square root of `f` from its leading bits.
fn root_seed(f: &Float) -> (x: Float)
    requires
        f.wf(),
        f.mantissa@ > 0,
        !f.sign,
        -0x1800_0000_0000_0000 <= f.exp <= 0x1800_0000_0000_0000,
    ensures
        x.wf(),
        x.prec == 64,
        !x.sign,
        x.mantissa@ > 0,
        reals::rabs(x.val() * x.val() - f.val()) <= f.val() * reals::rpow2(-50),
{
    let (top, k) = leading_bits(&f.mantissa);
    proof {
        limbs::lemma_limb_limit();
        integer::lemma_zero(f.mantissa);
        newton::lemma_bit_len_at_most_size(f.mantissa);
    }
    let total: i64 = k + 52 + f.exp;
    let odd: bool = total % 2 != 0;
    let half: i64 = if odd { (total - 1) / 2 } else { total / 2 };
    let y: u128 = if odd {
        top as u128 * 0x20_0000_0000_0000u128
    } else {
        top as u128 * 0x10_0000_0000_0000u128
    };
    let s: u64 = nearest_root(y);
    let x: Float = Float { prec: 64, sign: false, mantissa: Integer::from(s), exp: half - 52 };
    proof {
        newton::lemma_pow2_105();
        lemma_root_start();
        lemma2_to64();
        bitlen::lemma_bit_len_at_most(s as int, 64);
        assert(s > 0) by {
            if s == 0 {
                assert(0 * 0 == 0);
            }
        }
        let left: int = if odd { 1 } else { 0 };
        assert(2 * half + left == total);
        let scale: int = if odd { 0x20_0000_0000_0000 } else { 0x10_0000_0000_0000 };
        let t = top as int;
        let si = s as int;
        assert(y == t * scale);
        // In units of c = 2^(2 * half - 104), f is v * scale and x * x is s * s.
        let h2 = half - 52;
        let c = reals::rpow2(2 * half - 104);
        reals::lemma_rpow2_step(2 * half - 104);
        reals::lemma_rpow2_add(h2 as int, h2 as int);
        let sr = si as real;
        let wh = reals::rpow2(h2 as int);
        assert((sr * wh) * (sr * wh) == (sr * sr) * (wh * wh)) by (nonlinear_arith);
        reals::lemma_int_product(si, si);
        let fm = f.mantissa@ as real;
        let v = fm * reals::rpow2(-(k as int));
        newton::lemma_leading_value(f.mantissa@, t, k as int);
        let sc = scale as real;
        reals::lemma_rpow2_nat((52 + left) as nat);
        reals::lemma_rpow2_add(52 + left, 2 * half - 104);
        reals::lemma_rpow2_add(-(k as int), 2 * half + left - 52);
        reals::lemma_rpow2_add(-(k as int), k + f.exp);
        assert(2 * half + left - 52 == k + f.exp);
        // fm * 2^exp == v * 2^(k + exp) == v * (sc * c)
        reals::lemma_rpow2_add(k as int, f.exp as int);
        reals::lemma_rpow2_add(k as int, -(k as int));
        reals::lemma_rpow2_step(0);
        let ke = reals::rpow2(k + f.exp);
        assert(ke == sc * c);
        assert(v * ke == fm * (reals::rpow2(-(k as int)) * ke)) by (nonlinear_arith)
            requires
                v == fm * reals::rpow2(-(k as int)),
        ;
        assert(reals::rpow2(-(k as int)) * ke == reals::rpow2(f.exp as int));
        assert(f.val() == v * (sc * c));
        assert(v * (sc * c) == (v * sc) * c) by (nonlinear_arith);
        reals::lemma_int_product(t, scale);
        let yr = (t * scale) as real;
        let tr = t as real;
        assert(yr == tr * sc);
        let vs = v * sc;
        assert(yr <= vs && vs <= yr + sc) by (nonlinear_arith)
            requires
                tr <= v <= tr + 1real,
                yr == tr * sc,
                vs == v * sc,
                sc > 0real,
        ;
        let ss = (si * si) as real;
        assert(ss == sr * sr);
        assert(reals::rabs(ss - yr) <= sr);
        let d = ss - vs;
        let lim = sr + sc;
        assert(reals::rabs(d) <= lim);
        assert(x.val() * x.val() - f.val() == d * c) by (nonlinear_arith)
            requires
                x.val() * x.val() == ss * c,
                f.val() == vs * c,
                d == ss - vs,
        ;
        reals::lemma_rabs_product(d, c, lim, c);
        // lim is at most vs * 2^-50.
        let g = reals::rpow2(-50);
        reals::lemma_rpow2_nat(50);
        reals::lemma_rpow2_step(-50);
        lemma2_to64_rest();
        assert(sr <= (0x20_0000_0000_0000int as real));
        assert(yr >= (if odd {
            0x200_0000_0000_0000_0000_0000_0000int
        } else {
            0x100_0000_0000_0000_0000_0000_0000int
        } as real)) by {
            assert(t * scale >= 0x10_0000_0000_0000 * scale) by (nonlinear_arith)
                requires
                    t >= 0x10_0000_0000_0000,
                    scale > 0,
            ;
        }
        assert((lim) * (0x4_0000_0000_0000int as real) <= vs);
        assert(lim <= vs * g) by (nonlinear_arith)
            requires
                lim * (0x4_0000_0000_0000int as real) <= vs,
                g * (0x4_0000_0000_0000int as real) == 1real,
                g > 0real,
        ;
        assert(lim * c <= (vs * c) * g) by (nonlinear_arith)
            requires
                lim <= vs * g,
                c > 0real,
        ;
    }
    x
}

/// Accuracy after a step, where the precision has at most doubled.
proof fn lemma_root_accuracy(a: int, cur: int, next: int, bound: real)
    requires
        4 * a >= 3 * cur + 8,
        16 <= next <= 2 * cur,
        bound == (reals::rpow2(-a) * reals::rpow2(-a)) / 3real + (33real / 10real) * reals::rpow2(
            -next,
        ),
    ensures
        bound <= reals::rpow2(-float::imin(2 * a - 2, next - 2)),
        4 * float::imin(2 * a - 2, next - 2) >= 3 * next + 8,
{
    let b = float::imin(2 * a - 2, next - 2);
    reals::lemma_rpow2_add(-a, -a);
    reals::lemma_rpow2_monotone(-2 * a, -b - 2);
    reals::lemma_rpow2_monotone(-next, -b - 2);
    reals::lemma_rpow2_step(-b - 2);
    reals::lemma_rpow2_step(-b - 1);
}

/// A near square root of `n` lies between powers of two.
proof fn lemma_root_range(n: real, x: real, f: real, h: int)
    requires
        reals::rpow2(2 * h) <= n < reals::rpow2(2 * h + 2),
        x > 0real,
        0real <= f,
        1024real * f <= 1real,
        reals::rabs(x * x - n) <= n * f,
    ensures
        reals::rpow2(h - 1) <= x < reals::rpow2(h + 2),
{
    reals::lemma_rpow2_add(h, h);
    reals::lemma_rpow2_step(2 * h);
    reals::lemma_rpow2_step(2 * h + 1);
    reals::lemma_rpow2_step(h - 1);
    reals::lemma_rpow2_step(h);
    reals::lemma_rpow2_step(h + 1);
    let w = reals::rpow2(h);
    assert(n * f <= n / 1000real) by (nonlinear_arith)
        requires
            1024real * f <= 1real,
            n > 0real,
    ;
    let q = x * x;
    assert(q >= (w * w) / 2real);
    assert(q < 5real * (w * w));
    assert(2real * x >= w) by (nonlinear_arith)
        requires
            x * x >= (w * w) / 2real,
            x > 0real,
            w > 0real,
    ;
    assert(x < 4real * w) by (nonlinear_arith)
        requires
            x * x < 5real * (w * w),
            x > 0real,
            w > 0real,
    ;
}

/// The quotient of a Newton step lies between powers of two.
proof fn lemma_root_quotient_range(n: real, x1: real, q: real, u: real, h: int)
    requires
        reals::rpow2(2 * h) <= n < reals::rpow2(2 * h + 2),
        reals::rpow2(h - 2) <= x1 < reals::rpow2(h + 3),
        0real < u,
        65536real * u <= 1real,
        reals::rabs(q * x1 - n) <= (101real / 100real) * (n * u),
    ensures
        reals::rpow2(h - 4) <= q < reals::rpow2(h + 6),
{
    reals::lemma_rpow2_add(h, h);
    reals::lemma_rpow2_step(2 * h);
    reals::lemma_rpow2_step(2 * h + 1);
    reals::lemma_rpow2_step(h - 4);
    reals::lemma_rpow2_step(h - 3);
    reals::lemma_rpow2_step(h - 2);
    reals::lemma_rpow2_step(h - 1);
    reals::lemma_rpow2_step(h);
    reals::lemma_rpow2_step(h + 1);
    reals::lemma_rpow2_step(h + 2);
    reals::lemma_rpow2_step(h + 3);
    reals::lemma_rpow2_step(h + 4);
    reals::lemma_rpow2_step(h + 5);
    let w = reals::rpow2(h);
    assert(n * u <= n / 1000real) by (nonlinear_arith)
        requires
            65536real * u <= 1real,
            n > 0real,
    ;
    let p = q * x1;
    assert(p >= (w * w) / 2real);
    assert(p < 5real * (w * w));
    assert(q > 0real) by (nonlinear_arith)
        requires
            q * x1 > 0real,
            x1 > 0real,
    ;
    assert(16real * q >= w) by (nonlinear_arith)
        requires
            q * x1 >= (w * w) / 2real,
            x1 <= 8real * w,
            q > 0real,
            w > 0real,
    ;
    assert(q < 20real * w) by (nonlinear_arith)
        requires
            q * x1 < 5real * (w * w),
            4real * x1 >= w,
            q > 0real,
            w > 0real,
    ;
}

/// The last rounding of a square root.
proof fn lemma_root_last(n: real, x: real, y: real, acc: int, t: int)
    requires
        n > 0real,
        x > 0real,
        t >= 0,
        acc >= t + 14,
        reals::rabs(x * x - n) <= n * reals::rpow2(-acc),
        float::near(y, x, t),
    ensures
        reals::rabs(y * y - n) <= n * reals::rpow2(2 - t),
{
    let u = reals::rpow2(-t);
    reals::lemma_rpow2_monotone(-acc, -t - 10);
    reals::lemma_rpow2_add(-t, -10);
    reals::lemma_rpow2_nat(10);
    lemma2_to64();
    reals::lemma_rpow2_step(-t);
    reals::lemma_rpow2_step(1 - t);
    reals::lemma_rpow2_monotone(-t, 0);
    reals::lemma_rpow2_step(0);
    let f = reals::rpow2(-acc);
    assert(1024real * f <= u) by (nonlinear_arith)
        requires
            f <= u * reals::rpow2(-10),
            reals::rpow2(-10) * 1024real == 1real,
    ;
    let d = y - x;
    let q = x * x;
    assert(y * y - q == 2real * (x * d) + d * d) by (nonlinear_arith)
        requires
            d == y - x,
            q == x * x,
    ;
    assert(x * d <= q * u && -(x * d) <= q * u) by (nonlinear_arith)
        requires
            -(x * u) <= d <= x * u,
            x > 0real,
            q == x * x,
    ;
    reals::lemma_rabs_product(d, d, x * u, x * u);
    assert((x * u) * (x * u) <= q * u) by (nonlinear_arith)
        requires
            q == x * x,
            0real < u <= 1real,
    {
        assert((x * u) * (x * u) == (q * u) * u);
        assert(q * u >= 0real);
    }
    let nu = n * u;
    assert(nu > 0real) by (nonlinear_arith)
        requires
            nu == n * u,
            n > 0real,
            u > 0real,
    ;
    assert(n * f <= nu / 1000real) by (nonlinear_arith)
        requires
            1024real * f <= u,
            nu == n * u,
            nu > 0real,
            n > 0real,
    ;
    assert(nu <= n) by (nonlinear_arith)
        requires
            nu == n * u,
            u <= 1real,
            n > 0real,
    ;
    assert(q <= (1001real / 1000real) * n);
    assert(q * u <= (1001real / 1000real) * nu) by (nonlinear_arith)
        requires
            q <= (1001real / 1000real) * n,
            nu == n * u,
            u > 0real,
    ;
    assert(n * (4real * u) == 4real * nu) by (nonlinear_arith)
        requires
            nu == n * u,
    ;
}

/// `r` is a number whose square is `n` up to a relative error of
/// `2^(-prec - 14)`, rounded to `prec` bits.
#[verifier::opaque]
pub open spec fn is_root(r: Float, n: real, prec: nat) -> bool {
    exists|m: int, e: int| #[trigger]
        r.is_rounded(prec, false, m, e) && float::scaled(false, m, e) >= 0real && reals::rabs(
            float::scaled(false, m, e) * float::scaled(false, m, e) - n,
        ) <= n * reals::rpow2(-(prec as int) - 14)
}

/// A close value that is rounded is a root.
proof fn lemma_is_root(x: Float, r: Float, n: real, acc: int, prec: nat)
    requires
        !x.sign,
        x.val() >= 0real,
        n >= 0real,
        reals::rabs(x.val() * x.val() - n) <= n * reals::rpow2(-acc),
        acc >= prec + 14,
        r.is_rounded(prec, false, x.mantissa@, x.exp as int),
    ensures
        is_root(r, n, prec),
{
    reveal(is_root);
    let (m, e) = (x.mantissa@, x.exp as int);
    reals::lemma_rpow2_monotone(-acc, -(prec as int) - 14);
    accuracy::lemma_mul_le(reals::rpow2(-acc), reals::rpow2(-(prec as int) - 14), n);
    assert(float::scaled(false, m, e) == x.val());
    assert(r.is_rounded(prec, false, m, e));
}

impl Float {
    /// In-place square root to the precision of `self`.
    ///
    /// The square of the result is the old value up to a relative error of
    /// `2^(2 - prec)`.
    #[verifier::rlimit(60)]
    #[verifier::spinoff_prover]
    pub fn sqrt_mut(&mut self)
        requires
            old(self).wf(),
            !old(self).sign,
            -0x0a00_0000_0000_0000 <= old(self).exp <= 0x0a00_0000_0000_0000,
            old(self).prec / 8 + 512 <= limbs::limb_limit(),
        ensures
            final(self).wf(),
            final(self).prec == old(self).prec,
            !final(self).sign,
            old(self).mantissa@ == 0 ==> final(self).mantissa@ == 0,
            old(self).mantissa@ > 0 && old(self).prec > 0 ==> final(self).mantissa@ > 0,
            reals::rabs(final(self).val() * final(self).val() - old(self).val()) <= old(self).val()
                * reals::rpow2(2 - old(self).prec),
            old(self).mantissa@ > 0 ==> is_root(
                *final(self),
                old(self).val(),
                old(self).prec as nat,
            ),
    {
        proof {
            limbs::lemma_limb_limit();
            integer::lemma_zero(self.mantissa);
            newton::lemma_bit_len_at_most_size(self.mantissa);
            lemma_size_from_prec(*self);
            float::lemma_val_zero(*self);
        }
        if self.is_zero() {
            proof {
                assert(0real * 0real == 0real) by (nonlinear_arith);
                assert(0real * reals::rpow2(2 - self.prec) == 0real) by (nonlinear_arith);
            }
            return;
        }
        let target: u64 = self.prec;
        let ghost n = self.val();
        let ghost top = self.exp + bitlen::bit_len(self.mantissa@);
        let ghost h = (top - 1) / 2;
        proof {
            newton::lemma_val_bounds(*self);
            reals::lemma_rpow2_monotone(2 * h, top - 1);
            reals::lemma_rpow2_monotone(top, 2 * h + 2);
        }
        let mut x: Float = root_seed(self);
        let cap: u64 = target + 16;
        let mut cur: u64 = 64;
        let mut full: u32 = 0;
        let ghost mut acc: int = 50;
        while full < 2
            invariant
                full <= 2,
                self.wf(),
                self.mantissa@ > 0,
                !self.sign,
                self.prec == target,
                self.size() <= target / 64 + 1,
                limbs::limb_limit() <= 0x0010_0000_0000_0000,
                -0x0a00_0000_0000_0000 <= self.exp <= 0x0a00_0000_0000_0000,
                bitlen::bit_len(self.mantissa@) <= 64 * self.size(),
                cap == target + 16,
                target / 8 + 512 <= limbs::limb_limit(),
                n == self.val(),
                n > 0real,
                top == self.exp + bitlen::bit_len(self.mantissa@),
                h == (top - 1) / 2,
                reals::rpow2(top - 1) <= n < reals::rpow2(top),
                reals::rpow2(2 * h) <= n < reals::rpow2(2 * h + 2),
                16 <= cur,
                cur <= 64 || cur <= cap,
                full >= 1 ==> cur == cap,
                x.wf(),
                x.prec == cur,
                !x.sign,
                x.mantissa@ > 0,
                4 * acc >= 3 * cur + 8,
                full == 2 ==> acc >= cap - 2,
                reals::rabs(x.val() * x.val() - n) <= n * reals::rpow2(-acc),
            decreases 2 - full, if cur < cap { cap - cur } else { 0 },
        {
            let ghost prev = cur as int;
            let ghost x0 = x.val();
            let ghost xo = x;
            let ghost f = reals::rpow2(-acc);
            cur = if cur >= cap || 2 * cur >= cap { cap } else { 2 * cur };
            let ghost p = cur as int;
            let ghost u = reals::rpow2(-p);
            proof {
                reals::lemma_rpow2_monotone(-acc, -10);
                reals::lemma_rpow2_monotone(-p, -16);
                reals::lemma_rpow2_nat(10);
                reals::lemma_rpow2_nat(16);
                lemma2_to64();
                assert(1024real * f <= 1real) by (nonlinear_arith)
                    requires
                        f <= reals::rpow2(-10),
                        reals::rpow2(-10) * 1024real == 1real,
                ;
                assert(65536real * u <= 1real) by (nonlinear_arith)
                    requires
                        u <= reals::rpow2(-16),
                        reals::rpow2(-16) * 65536real == 1real,
                ;
                float::lemma_val_zero(x);
                lemma_root_range(n, x0, f, h);
                newton::lemma_exp_bounds(x, h - 1, h + 2);
            }
            let n1: Float = self.truncated_to_prec(cur);
            proof {
                newton::lemma_near_range(n1, n, top - 1, top, p);
            }
            x.prec = cur;
            x.round_to_prec();
            proof {
                float::lemma_rounded_near(x, cur as nat, xo.sign, xo.mantissa@, xo.exp as int);
                newton::lemma_near_range(x, x0, h - 1, h + 2, p);
                lemma_near_bounds(x.val(), x0, h - 1, h + 2, p);
            }
            let ghost x1 = x.val();
            let q: Float = n1.div_at_prec(&x, cur + 8);
            proof {
                reals::lemma_rpow2_add(-p, -7);
                reals::lemma_rpow2_nat(7);
                assert(reals::rpow2(1 - (p + 8)) == u / 128real) by (nonlinear_arith)
                    requires
                        reals::rpow2(-p - 7) == u * reals::rpow2(-7),
                        reals::rpow2(-7) * 128real == 1real,
                        reals::rpow2(1 - (p + 8)) == reals::rpow2(-p - 7),
                ;
                lemma_root_quotient(n, n1.val(), x1, q.val(), u);
                lemma_root_quotient_range(n, x1, q.val(), u, h);
                reals::lemma_rpow2_step(h - 4);
                newton::lemma_val_sign(q);
                newton::lemma_exp_bounds(q, h - 4, h + 6);
            }
            let mut sum: Float = x.add_at_prec(&q, cur + 8);
            let ghost sv = sum.val();
            proof {
                reals::lemma_rpow2_add(-p, -8);
                reals::lemma_rpow2_nat(8);
                assert(reals::rpow2(-(p + 8)) == u / 256real) by (nonlinear_arith)
                    requires
                        reals::rpow2(-p - 8) == u * reals::rpow2(-8),
                        reals::rpow2(-8) * 256real == 1real,
                        reals::rpow2(-(p + 8)) == reals::rpow2(-p - 8),
                ;
                lemma_sum_range(x1, q.val(), h);
                newton::lemma_near_range(sum, x1 + q.val(), h - 2, h + 7, p + 8);
            }
            sum.exp = sum.exp - 1;
            let ghost half = sum.val();
            proof {
                reals::lemma_rpow2_step(sum.exp as int);
                let m = sum.mantissa@ as real;
                let w = reals::rpow2(sum.exp as int);
                assert(m * (2real * w) == 2real * (m * w)) by (nonlinear_arith);
                assert(half == sv / 2real);
            }
            let ghost so = sum;
            sum.prec = cur;
            sum.round_to_prec();
            proof {
                float::lemma_rounded_near(sum, cur as nat, so.sign, so.mantissa@, so.exp as int);
            }
            x = sum;
            proof {
                lemma_root_step(n, x0, u, f, n1.val(), x1, q.val(), sv, half, x.val());
                newton::lemma_val_sign(x);
                let bound = (f * f) / 3real + (33real / 10real) * u;
                lemma_root_accuracy(acc, prev, p, bound);
                let acc1 = float::imin(2 * acc - 2, p - 2);
                assert(n * bound <= n * reals::rpow2(-acc1)) by (nonlinear_arith)
                    requires
                        bound <= reals::rpow2(-acc1),
                        n > 0real,
                ;
                acc = acc1;
            }
            if cur >= cap {
                full = full + 1;
            }
        }
        proof {
            float::lemma_val_zero(x);
            reals::lemma_rpow2_monotone(-acc, -10);
            reals::lemma_rpow2_nat(10);
            lemma2_to64();
            let f = reals::rpow2(-acc);
            assert(1024real * f <= 1real) by (nonlinear_arith)
                requires
                    f <= reals::rpow2(-10),
                    reals::rpow2(-10) * 1024real == 1real,
            ;
            lemma_root_range(n, x.val(), f, h);
            newton::lemma_exp_bounds(x, h - 1, h + 2);
        }
        let ghost x0 = x.val();
        let ghost xo = x;
        x.prec = target;
        x.round_to_prec();
        proof {
            float::lemma_rounded_near(x, target as nat, xo.sign, xo.mantissa@, xo.exp as int);
            lemma_root_last(n, x0, x.val(), acc, target as int);
            rounding::lemma_round_error(xo.mantissa@, target as nat);
            lemma_is_root(xo, x, n, acc, target as nat);
        }
        *self = x;
    }
}

/// A near value lies in twice the range.
proof fn lemma_near_bounds(x: real, v: real, lo: int, hi: int, p: int)
    requires
        p >= 1,
        reals::rpow2(lo) <= v < reals::rpow2(hi),
        float::near(x, v, p),
    ensures
        reals::rpow2(lo - 1) <= x < reals::rpow2(hi + 1),
{
    reals::lemma_rpow2_monotone(-p, -1);
    reals::lemma_rpow2_step(-1);
    reals::lemma_rpow2_step(lo - 1);
    reals::lemma_rpow2_step(hi);
    let u = reals::rpow2(-p);
    assert(v * u <= v / 2real) by (nonlinear_arith)
        requires
            v > 0real,
            2real * u <= 1real,
    ;
}

proof fn lemma_sum_range(x: real, q: real, h: int)
    requires
        reals::rpow2(h - 2) <= x < reals::rpow2(h + 3),
        reals::rpow2(h - 4) <= q < reals::rpow2(h + 6),
    ensures
        reals::rpow2(h - 2) <= x + q < reals::rpow2(h + 7),
{
    reals::lemma_rpow2_step(h - 4);
    reals::lemma_rpow2_step(h + 3);
    reals::lemma_rpow2_step(h + 4);
    reals::lemma_rpow2_step(h + 5);
    reals::lemma_rpow2_step(h + 6);
}

/// The size of a mantissa is bounded by the precision.
pub proof fn lemma_size_from_prec(f: Float)
    requires
        f.wf(),
    ensures
        f.size() <= f.prec / 64 + 1,
{
    bitlen::lemma_bit_len(f.mantissa@);
    let n: nat = f.prec as nat;
    if bitlen::bit_len(f.mantissa@) < n {
        lemma_pow2_strictly_increases(bitlen::bit_len(f.mantissa@), n);
    }
    integer::lemma_size_from_bits(f.mantissa, n);
}

/// A square root is rounded from a number `m * 2^e` that is not negative and whose
/// square is `n` but for a relative error of `2^-14` units in the last place.
pub proof fn law_root(r: Float, n: real, prec: nat) -> (x: (int, int))
    requires
        is_root(r, n, prec),
    ensures
        r.is_rounded(prec, false, x.0, x.1),
        float::scaled(false, x.0, x.1) >= 0real,
        reals::rabs(float::scaled(false, x.0, x.1) * float::scaled(false, x.0, x.1) - n) <= n
            * reals::rpow2(-(prec as int) - 14),
{
    reveal(is_root);
    choose|m: int, e: int| #[trigger]
        r.is_rounded(prec, false, m, e) && float::scaled(false, m, e) >= 0real && reals::rabs(
            float::scaled(false, m, e) * float::scaled(false, m, e) - n,
        ) <= n * reals::rpow2(-(prec as int) - 14)
}

} // verus!
