//! The discrete Fourier transform over the integers modulo `P`: finite sums,
//! roots of unity, the splitting that a butterfly pass uses, and the
//! inversion and convolution theorems.
use crate::field;
use crate::field::P;
use crate::limbs;
use vstd::arithmetic::div_mod::*;
use vstd::arithmetic::mul::*;
use vstd::arithmetic::power2::*;
use vstd::arithmetic::power::*;
use vstd::prelude::*;

verus! {

/// `f(0) + f(1) + ... + f(n - 1)`.
pub open spec fn sum(f: spec_fn(int) -> int, n: nat) -> int
    decreases n,
{
    if n == 0 {
        0
    } else {
        sum(f, (n - 1) as nat) + f(n - 1)
    }
}

/// Sums of pointwise equal functions are equal.
pub proof fn lemma_sum_same(f: spec_fn(int) -> int, g: spec_fn(int) -> int, n: nat)
    requires
        forall|i: int| 0 <= i < n ==> #[trigger] f(i) == g(i),
    ensures
        sum(f, n) == sum(g, n),
    decreases n,
{
    if n > 0 {
        lemma_sum_same(f, g, (n - 1) as nat);
        assert(f(n - 1) == g(n - 1));
    }
}

/// A sum of sums.
pub proof fn lemma_sum_adds(
    h: spec_fn(int) -> int,
    f: spec_fn(int) -> int,
    g: spec_fn(int) -> int,
    n: nat,
)
    requires
        forall|i: int| 0 <= i < n ==> #[trigger] h(i) == f(i) + g(i),
    ensures
        sum(h, n) == sum(f, n) + sum(g, n),
    decreases n,
{
    if n > 0 {
        lemma_sum_adds(h, f, g, (n - 1) as nat);
        assert(h(n - 1) == f(n - 1) + g(n - 1));
    }
}

/// A sum of multiples.
pub proof fn lemma_sum_scales(h: spec_fn(int) -> int, f: spec_fn(int) -> int, c: int, n: nat)
    requires
        forall|i: int| 0 <= i < n ==> #[trigger] h(i) == c * f(i),
    ensures
        sum(h, n) == c * sum(f, n),
    decreases n,
{
    if n > 0 {
        lemma_sum_scales(h, f, c, (n - 1) as nat);
        assert(h(n - 1) == c * f(n - 1));
        lemma_mul_is_distributive_add(c, sum(f, (n - 1) as nat), f(n - 1));
    }
}

/// A sum split at `k`.
pub proof fn lemma_sum_splits(
    h: spec_fn(int) -> int,
    f: spec_fn(int) -> int,
    g: spec_fn(int) -> int,
    k: nat,
    n: nat,
)
    requires
        forall|i: int| 0 <= i < k ==> #[trigger] f(i) == h(i),
        forall|i: int| 0 <= i < n ==> #[trigger] g(i) == h(k + i),
    ensures
        sum(h, k + n) == sum(f, k) + sum(g, n),
    decreases n,
{
    if n == 0 {
        lemma_sum_same(f, h, k);
    } else {
        lemma_sum_splits(h, f, g, k, (n - 1) as nat);
        assert(g(n - 1) == h(k + n - 1));
    }
}

/// Sums of functions with equal residues have equal residues.
pub proof fn lemma_sum_residues(f: spec_fn(int) -> int, g: spec_fn(int) -> int, n: nat)
    requires
        forall|i: int| 0 <= i < n ==> field::residue(#[trigger] f(i)) == field::residue(g(i)),
    ensures
        field::residue(sum(f, n)) == field::residue(sum(g, n)),
    decreases n,
{
    if n > 0 {
        lemma_sum_residues(f, g, (n - 1) as nat);
        assert(field::residue(f(n - 1)) == field::residue(g(n - 1)));
        field::lemma_sum_residue(sum(f, (n - 1) as nat), sum(g, (n - 1) as nat), f(n - 1), g(n - 1));
    }
}

/// A sum of zeros.
pub proof fn lemma_sum_zero(f: spec_fn(int) -> int, n: nat)
    requires
        forall|i: int| 0 <= i < n ==> #[trigger] f(i) == 0,
    ensures
        sum(f, n) == 0,
    decreases n,
{
    if n > 0 {
        lemma_sum_zero(f, (n - 1) as nat);
        assert(f(n - 1) == 0);
    }
}

/// The value of a digit sequence as a sum.
pub proof fn lemma_digits_sum(s: Seq<u64>, z: int)
    ensures
        limbs::digits_value(s, z) == sum(|i: int| s[i] * pow(z, i as nat), s.len()),
    decreases s.len(),
{
    let f = |i: int| s[i] * pow(z, i as nat);
    if s.len() > 0 {
        let t = s.drop_last();
        let g = |i: int| t[i] * pow(z, i as nat);
        lemma_digits_sum(t, z);
        assert forall|i: int| 0 <= i < t.len() implies #[trigger] f(i) == g(i) by {
            assert(t[i] == s[i]);
        }
        lemma_sum_same(f, g, t.len());
    }
}

/// `w` is a root of order `2^32`: half way through its powers stands minus one.
pub open spec fn is_root(w: int) -> bool {
    field::residue(pow(w, pow2(31))) == P - 1
}

/// The root of order `2^m` among the powers of `w`.
pub open spec fn root(w: int, m: nat) -> int {
    pow(w, pow2((32 - m) as nat))
}

/// `root(w, m)` to the power `e`.
pub open spec fn twiddle(w: int, m: nat, e: nat) -> int {
    pow(root(w, m), e)
}

/// Even powers of one root are the powers of the next.
pub proof fn lemma_twiddle_square(w: int, m: nat, e: nat)
    requires
        m < 32,
    ensures
        twiddle(w, m + 1, e) * twiddle(w, m + 1, e) == twiddle(w, m, e),
        twiddle(w, m + 1, 2 * e) == twiddle(w, m, e),
{
    let a = pow2((31 - m) as nat);
    let b = pow2((32 - m) as nat);
    lemma_pow2_unfold((32 - m) as nat);
    lemma_pow_adds(root(w, m + 1), e, e);
    lemma_pow_multiplies(w, a, 2 * e);
    lemma_pow_multiplies(w, b, e);
    assert(a * (2 * e) == b * e) by (nonlinear_arith)
        requires
            b == 2 * a,
    ;
}

/// Half way through its powers a root of order `2^m` reaches minus one.
pub proof fn lemma_twiddle_half(w: int, m: nat)
    requires
        is_root(w),
        1 <= m <= 32,
    ensures
        field::residue(twiddle(w, m, pow2((m - 1) as nat))) == P - 1,
{
    lemma_pow2_adds((32 - m) as nat, (m - 1) as nat);
    lemma_pow_multiplies(w, pow2((32 - m) as nat), pow2((m - 1) as nat));
}

/// The square of minus one.
pub proof fn lemma_minus_one_square(x: int)
    requires
        field::residue(x) == P - 1,
    ensures
        field::residue(x * x) == 1,
{
    lemma_mod_twice(x, P as int);
    field::lemma_product_residue(x, P - 1, x, P - 1);
    let p = P as int;
    assert((p - 1) * (p - 1) == p * (p - 2) + 1) by (nonlinear_arith);
    lemma_mod_multiples_vanish(p - 2, 1, p);
    lemma_small_mod(1, P as nat);
}

/// A root of order `2^m` to the power `2^m` is one.
pub proof fn lemma_twiddle_full(w: int, m: nat)
    requires
        is_root(w),
        m <= 32,
    ensures
        field::residue(twiddle(w, m, pow2(m))) == 1,
{
    lemma_pow2_adds((32 - m) as nat, m);
    lemma_pow_multiplies(w, pow2((32 - m) as nat), pow2(m));
    lemma_pow2_adds(31, 1);
    lemma2_to64();
    lemma_pow_adds(w, pow2(31), pow2(31));
    lemma_minus_one_square(pow(w, pow2(31)));
}

/// A factor with residue one changes no residue.
pub proof fn lemma_times_one(x: int, one: int)
    requires
        field::residue(one) == 1,
    ensures
        field::residue(x * one) == field::residue(x),
{
    lemma_small_mod(1, P as nat);
    field::lemma_product_residue(x, x, one, 1);
}

/// A factor with residue minus one turns a residue into that of the negation.
pub proof fn lemma_times_minus_one(x: int, y: int)
    requires
        field::residue(y) == P - 1,
    ensures
        field::residue(x * y) == field::residue(-x),
{
    lemma_small_mod((P - 1) as nat, P as nat);
    field::lemma_product_residue(x, x, y, P - 1);
    assert(x * (P - 1) == x * P + -x) by (nonlinear_arith);
    lemma_mod_multiples_vanish(x, -x, P as int);
    lemma_mul_is_commutative(x, P as int);
}

/// The polynomial with coefficients `a[r], a[r + s], a[r + 2 * s], ...`
/// (`count` of them), at `z`.
pub open spec fn strided(a: Seq<u64>, s: nat, r: nat, count: nat, z: int) -> int
    decreases count,
{
    if count == 0 {
        0
    } else {
        strided(a, s, r, (count - 1) as nat, z) + a[r + s * (count - 1)] * pow(
            z,
            (count - 1) as nat,
        )
    }
}

/// Even and odd coefficients apart.
pub proof fn lemma_strided_splits(a: Seq<u64>, s: nat, r: nat, c: nat, z: int)
    ensures
        strided(a, s, r, 2 * c, z) == strided(a, 2 * s, r, c, z * z) + z * strided(
            a,
            2 * s,
            r + s,
            c,
            z * z,
        ),
    decreases c,
{
    if c == 0 {
        assert(z * 0 == 0);
    } else {
        let d = (c - 1) as nat;
        lemma_strided_splits(a, s, r, d, z);
        let zz = pow(z * z, d);
        lemma_pow_multiplies(z, 2, d);
        lemma_pow_adds(z, 1, 1);
        lemma_pow1(z);
        assert(pow(z, 2 * d) == zz);
        lemma_pow_adds(z, 2 * d, 1);
        assert(s * (2 * c - 2) == (2 * s) * d) by (nonlinear_arith)
            requires
                d == c - 1,
        ;
        assert(r + s * (2 * c - 1) == (r + s) + (2 * s) * d) by (nonlinear_arith)
            requires
                d == c - 1,
        ;
        let even = strided(a, 2 * s, r, d, z * z);
        let odd = strided(a, 2 * s, r + s, d, z * z);
        let x = a[r + (2 * s) * (d as int)];
        let y = a[(r + s) + (2 * s) * (d as int)];
        assert((2 * c - 1) as nat == 2 * d + 1);
        assert((2 * c) as nat == 2 * d + 2);
        assert(strided(a, s, r, 2 * d + 1, z) == strided(a, s, r, 2 * d, z) + x * zz);
        assert(strided(a, s, r, 2 * c, z) == strided(a, s, r, 2 * d + 1, z) + y * pow(
            z,
            2 * d + 1,
        ));
        assert(even + z * odd + x * zz + y * (zz * z) == (even + x * zz) + z * (odd + y * zz))
            by (nonlinear_arith);
    }
}

/// Polynomials at points with equal residues have equal residues.
pub proof fn lemma_strided_residue(a: Seq<u64>, s: nat, r: nat, c: nat, y: int, z: int)
    requires
        field::residue(y) == field::residue(z),
    ensures
        field::residue(strided(a, s, r, c, y)) == field::residue(strided(a, s, r, c, z)),
    decreases c,
{
    if c > 0 {
        let d = (c - 1) as nat;
        lemma_strided_residue(a, s, r, d, y, z);
        field::lemma_pow_residue(y, z, d);
        let k = a[r + s * (c - 1)] as int;
        field::lemma_product_residue(k, k, pow(y, d), pow(z, d));
        field::lemma_sum_residue(
            strided(a, s, r, d, y),
            strided(a, s, r, d, z),
            k * pow(y, d),
            k * pow(z, d),
        );
    }
}

/// With stride one the polynomial is the whole digit sequence.
pub proof fn lemma_strided_whole(a: Seq<u64>, c: nat, z: int)
    requires
        c <= a.len(),
    ensures
        strided(a, 1, 0, c, z) == limbs::digits_value(a.take(c as int), z),
    decreases c,
{
    if c > 0 {
        lemma_strided_whole(a, (c - 1) as nat, z);
        assert(a.take(c as int).drop_last() =~= a.take(c - 1));
        assert(a.take(c as int).last() == a[c - 1]);
    }
}

/// Entry `k` of the transform of `a` (of length `2^m`) by the root
/// `root(w, m)`.
pub open spec fn dft_at(a: Seq<u64>, w: int, m: nat, k: nat) -> int {
    field::residue(limbs::digits_value(a, twiddle(w, m, k)))
}

/// `x` is the transform of `a`.
pub open spec fn is_dft(a: Seq<u64>, x: Seq<u64>, w: int, m: nat) -> bool {
    &&& x.len() == a.len()
    &&& forall|k: int| 0 <= k < x.len() ==> #[trigger] x[k] as int == dft_at(a, w, m, k as nat)
}

/// All entries are residues.
pub open spec fn canonical(a: Seq<u64>) -> bool {
    forall|i: int| 0 <= i < a.len() ==> #[trigger] a[i] < P
}

/// `1 + q + q^2 + ... + q^(n - 1)`.
pub open spec fn geometric(q: int, n: nat) -> int {
    sum(|k: int| pow(q, k as nat), n)
}

/// A geometric sum in two halves.
proof fn lemma_geometric_halves(q: int, h: nat)
    ensures
        geometric(q, 2 * h) == geometric(q, h) + pow(q, h) * geometric(q, h),
{
    let f = |k: int| pow(q, k as nat);
    let g = |k: int| pow(q, h) * pow(q, k as nat);
    assert forall|k: int| 0 <= k < h implies #[trigger] g(k) == f(h + k) by {
        lemma_pow_adds(q, h, k as nat);
    }
    lemma_sum_splits(f, f, g, h, h);
    lemma_sum_scales(g, f, pow(q, h), h);
}

/// Over all powers of a root but the zeroth, the geometric sum vanishes.
proof fn lemma_geometric_vanishes(u: int, m: nat, d: nat)
    requires
        is_root(u),
        m <= 32,
        0 < d < pow2(m),
    ensures
        field::residue(geometric(twiddle(u, m, d), pow2(m))) == 0,
    decreases m,
{
    if m == 0 {
        lemma2_to64();
    } else {
        let h = pow2((m - 1) as nat);
        let q = twiddle(u, m, d);
        lemma_pow2_unfold(m);
        lemma_geometric_halves(q, h);
        let g = geometric(q, h);
        lemma_pow_multiplies(root(u, m), d, h);
        lemma_pow_multiplies(root(u, m), h, d);
        lemma_mul_is_commutative(d as int, h as int);
        // q^h is (-1)^d.
        let mid = twiddle(u, m, h);
        lemma_twiddle_half(u, m);
        assert(pow(q, h) == pow(mid, d));
        lemma_fundamental_div_mod(d as int, 2);
        let e = (d / 2) as nat;
        lemma_pow_multiplies(mid, 2, e);
        lemma_pow_adds(mid, 1, 1);
        lemma_pow1(mid);
        lemma_minus_one_square(mid);
        lemma_small_mod(1, P as nat);
        field::lemma_pow_residue(mid * mid, 1, e);
        lemma1_pow(e);
        assert(field::residue(pow(mid, 2 * e)) == 1);
        if d % 2 == 1 {
            lemma_pow_adds(mid, 2 * e, 1);
            lemma_mul_is_commutative(pow(mid, 2 * e), mid);
            lemma_times_one(mid, pow(mid, 2 * e));
            assert(field::residue(pow(q, h)) == P - 1);
            lemma_times_minus_one(g, pow(q, h));
            lemma_mul_is_commutative(g, pow(q, h));
            field::lemma_sum_residue(g, g, pow(q, h) * g, -g);
            lemma_small_mod(0, P as nat);
        } else {
            lemma_times_one(g, pow(q, h));
            lemma_mul_is_commutative(g, pow(q, h));
            lemma_twiddle_square(u, (m - 1) as nat, e);
            assert(q == twiddle(u, (m - 1) as nat, e));
            lemma_geometric_vanishes(u, (m - 1) as nat, e);
            lemma_small_mod(0, P as nat);
            field::lemma_sum_residue(g, 0, pow(q, h) * g, 0);
        }
    }
}

/// Powers of a root and of its inverse: `w^i * v^j` has the residue of
/// `w^(i - j)` or of `v^(j - i)`.
proof fn lemma_twiddle_cancels(w: int, v: int, m: nat, i: nat, j: nat)
    requires
        field::residue(w * v) == 1,
        m <= 32,
    ensures
        i >= j ==> field::residue(twiddle(w, m, i) * twiddle(v, m, j)) == field::residue(
            twiddle(w, m, (i - j) as nat),
        ),
        i <= j ==> field::residue(twiddle(w, m, i) * twiddle(v, m, j)) == field::residue(
            twiddle(v, m, (j - i) as nat),
        ),
{
    let a = root(w, m);
    let b = root(v, m);
    lemma_pow_distributes(w, v, pow2((32 - m) as nat));
    lemma_small_mod(1, P as nat);
    field::lemma_pow_residue(w * v, 1, pow2((32 - m) as nat));
    lemma1_pow(pow2((32 - m) as nat));
    assert(field::residue(a * b) == 1);
    let low = if i <= j { i } else { j };
    lemma_pow_distributes(a, b, low);
    field::lemma_pow_residue(a * b, 1, low);
    lemma1_pow(low);
    let one = pow(a, low) * pow(b, low);
    assert(field::residue(one) == 1);
    if i >= j {
        let x = pow(a, (i - j) as nat);
        lemma_pow_adds(a, (i - j) as nat, j);
        lemma_times_one(x, one);
        assert(x * (pow(a, j) * pow(b, j)) == (x * pow(a, j)) * pow(b, j)) by (nonlinear_arith);
    }
    if i <= j {
        let y = pow(b, (j - i) as nat);
        lemma_pow_adds(b, (j - i) as nat, i);
        lemma_times_one(y, one);
        assert(y * (pow(a, i) * pow(b, i)) == pow(a, i) * (y * pow(b, i))) by (nonlinear_arith);
    }
}

/// Orthogonality: `1 + q + ... + q^(n - 1)` for `q = w^i * v^j` is `n` where
/// `i == j` and zero elsewhere.
proof fn lemma_orthogonal(w: int, v: int, m: nat, i: nat, j: nat)
    requires
        is_root(w),
        is_root(v),
        field::residue(w * v) == 1,
        m <= 32,
        i < pow2(m),
        j < pow2(m),
    ensures
        field::residue(geometric(twiddle(w, m, i) * twiddle(v, m, j), pow2(m))) == if i == j {
            field::residue(pow2(m) as int)
        } else {
            0
        },
{
    let q = twiddle(w, m, i) * twiddle(v, m, j);
    lemma_twiddle_cancels(w, v, m, i, j);
    let r = if i >= j {
        twiddle(w, m, (i - j) as nat)
    } else {
        twiddle(v, m, (j - i) as nat)
    };
    let f = |k: int| pow(q, k as nat);
    let g = |k: int| pow(r, k as nat);
    assert forall|k: int| 0 <= k < pow2(m) implies field::residue(#[trigger] f(k)) == field::residue(g(k)) by {
        field::lemma_pow_residue(q, r, k as nat);
    }
    lemma_sum_residues(f, g, pow2(m));
    if i == j {
        lemma_pow0(root(w, m));
        lemma_geometric_one(pow2(m));
    } else if i > j {
        lemma_geometric_vanishes(w, m, (i - j) as nat);
    } else {
        lemma_geometric_vanishes(v, m, (j - i) as nat);
    }
}

proof fn lemma_geometric_one(n: nat)
    ensures
        geometric(1, n) == n,
    decreases n,
{
    if n > 0 {
        let f = |k: int| pow(1, k as nat);
        lemma_geometric_one((n - 1) as nat);
        lemma1_pow((n - 1) as nat);
        assert(f(n - 1) == 1);
    }
}

/// The sum that the inverse transform forms, over the first `t` coefficients.
proof fn lemma_inversion_prefix(c: Seq<u64>, w: int, v: int, m: nat, j: nat, t: nat)
    requires
        is_root(w),
        is_root(v),
        field::residue(w * v) == 1,
        m <= 32,
        c.len() == pow2(m),
        j < pow2(m),
        t <= c.len(),
    ensures
        field::residue(
            sum(
                |k: int|
                    limbs::digits_value(c.take(t as int), twiddle(w, m, k as nat)) * pow(
                        twiddle(v, m, j),
                        k as nat,
                    ),
                pow2(m),
            ),
        ) == if j < t {
            field::residue(pow2(m) * c[j as int])
        } else {
            0
        },
    decreases t,
{
    let n = pow2(m);
    let z = twiddle(v, m, j);
    let h = |k: int| limbs::digits_value(c.take(t as int), twiddle(w, m, k as nat)) * pow(z, k as nat);
    lemma_small_mod(0, P as nat);
    if t == 0 {
        assert forall|k: int| 0 <= k < n implies #[trigger] h(k) == 0 by {
            assert(c.take(0).len() == 0);
            lemma_mul_basics(pow(z, k as nat));
        }
        lemma_sum_zero(h, n);
    } else {
        let i = (t - 1) as nat;
        let f = |k: int|
            limbs::digits_value(c.take(i as int), twiddle(w, m, k as nat)) * pow(z, k as nat);
        let q = twiddle(w, m, i) * z;
        let e = |k: int| pow(q, k as nat);
        let x = c[i as int] as int;
        let g = |k: int| x * e(k);
        assert forall|k: int| 0 <= k < n implies #[trigger] h(k) == f(k) + g(k) by {
            let kk = k as nat;
            let tw = twiddle(w, m, kk);
            assert(c.take(t as int).drop_last() =~= c.take(i as int));
            assert(c.take(t as int).last() == c[i as int]);
            let d = limbs::digits_value(c.take(i as int), tw);
            // The power tw^i is (w^i)^k.
            lemma_pow_multiplies(root(w, m), kk, i);
            lemma_pow_multiplies(root(w, m), i, kk);
            lemma_mul_is_commutative(kk as int, i as int);
            lemma_pow_distributes(twiddle(w, m, i), z, kk);
            let a = pow(tw, i);
            let b = pow(z, kk);
            assert((d + x * a) * b == d * b + x * (a * b)) by (nonlinear_arith);
        }
        lemma_sum_adds(h, f, g, n);
        lemma_sum_scales(g, e, x, n);
        lemma_inversion_prefix(c, w, v, m, j, i);
        lemma_orthogonal(w, v, m, i, j);
        let o = geometric(q, n);
        if i == j {
            field::lemma_product_residue(x, x, o, n as int);
            lemma_mul_is_commutative(x, n as int);
            field::lemma_sum_residue(sum(f, n), 0, x * o, n * x);
        } else {
            field::lemma_product_residue(x, x, o, 0);
            let prev = if j < i {
                n * c[j as int]
            } else {
                0
            };
            field::lemma_sum_residue(sum(f, n), prev, x * o, 0);
        }
    }
}

/// Transforming by `w` and back by its inverse `v` multiplies every entry by
/// the length.
pub proof fn lemma_inversion(c: Seq<u64>, x: Seq<u64>, w: int, v: int, m: nat, j: nat)
    requires
        is_root(w),
        is_root(v),
        field::residue(w * v) == 1,
        m <= 32,
        c.len() == pow2(m),
        is_dft(c, x, w, m),
        j < pow2(m),
    ensures
        dft_at(x, v, m, j) == field::residue(pow2(m) * c[j as int]),
{
    let n = pow2(m);
    let z = twiddle(v, m, j);
    let f = |k: int| x[k] * pow(z, k as nat);
    let h = |k: int| limbs::digits_value(c.take(n as int), twiddle(w, m, k as nat)) * pow(z, k as nat);
    lemma_digits_sum(x, z);
    assert(c.take(n as int) =~= c);
    assert forall|k: int| 0 <= k < n implies field::residue(#[trigger] f(k)) == field::residue(h(k)) by {
        assert(x[k] as int == dft_at(c, w, m, k as nat));
        lemma_mod_twice(limbs::digits_value(c, twiddle(w, m, k as nat)), P as int);
        field::lemma_product_residue(
            x[k] as int,
            limbs::digits_value(c, twiddle(w, m, k as nat)),
            pow(z, k as nat),
            pow(z, k as nat),
        );
    }
    lemma_sum_residues(f, h, n);
    lemma_inversion_prefix(c, w, v, m, j, n);
}

/// Coefficient `i` of a polynomial, zero outside its range.
pub open spec fn coeff(a: Seq<u64>, i: int) -> int {
    if 0 <= i < a.len() {
        a[i] as int
    } else {
        0
    }
}

/// Coefficient `t` of the product of two polynomials.
pub open spec fn conv_at(a: Seq<u64>, b: Seq<u64>, t: int) -> int {
    sum(|j: int| coeff(a, t - j) * b[j], b.len())
}

/// A shifted polynomial, coefficient by coefficient.
proof fn lemma_shifted_sum(a: Seq<u64>, k: nat, z: int, n: nat)
    requires
        n >= k + a.len(),
    ensures
        sum(|t: int| coeff(a, t - k) * pow(z, t as nat), n) == pow(z, k) * limbs::digits_value(a, z),
{
    let h = |t: int| coeff(a, t - k) * pow(z, t as nat);
    let low = |t: int| 0int;
    let mid = |t: int| pow(z, k) * (a[t] * pow(z, t as nat));
    let high = |t: int| 0int;
    let rest = |t: int| h(k + t);
    let poly = |t: int| a[t] * pow(z, t as nat);
    assert forall|t: int| 0 <= t < k implies #[trigger] low(t) == h(t) by {
        lemma_mul_basics(pow(z, t as nat));
    }
    lemma_sum_splits(h, low, rest, k, (n - k) as nat);
    lemma_sum_zero(low, k);
    assert forall|t: int| 0 <= t < a.len() implies #[trigger] mid(t) == rest(t) by {
        lemma_pow_adds(z, k, t as nat);
        let x = a[t] as int;
        let y = pow(z, t as nat);
        assert(x * (pow(z, k) * y) == pow(z, k) * (x * y)) by (nonlinear_arith);
    }
    let top = (n - k - a.len()) as nat;
    assert forall|t: int| 0 <= t < top implies #[trigger] high(t) == rest(a.len() + t) by {
        lemma_mul_basics(pow(z, (k + a.len() + t) as nat));
    }
    lemma_sum_splits(rest, mid, high, a.len(), top);
    lemma_sum_zero(high, top);
    lemma_sum_scales(mid, poly, pow(z, k), a.len());
    lemma_digits_sum(a, z);
}

/// The product polynomial: its value is the product of the values.
pub proof fn lemma_convolution(a: Seq<u64>, b: Seq<u64>, z: int, n: nat)
    requires
        n + 1 >= a.len() + b.len(),
    ensures
        sum(|t: int| conv_at(a, b, t) * pow(z, t as nat), n) == limbs::digits_value(a, z)
            * limbs::digits_value(b, z),
    decreases b.len(),
{
    let h = |t: int| conv_at(a, b, t) * pow(z, t as nat);
    if b.len() == 0 {
        assert forall|t: int| 0 <= t < n implies #[trigger] h(t) == 0 by {
            lemma_mul_basics(pow(z, t as nat));
        }
        lemma_sum_zero(h, n);
        lemma_mul_basics(limbs::digits_value(a, z));
    } else {
        let c = b.drop_last();
        let y = b.last() as int;
        let k = c.len();
        let f = |t: int| conv_at(a, c, t) * pow(z, t as nat);
        let shifted = |t: int| coeff(a, t - k) * pow(z, t as nat);
        let g = |t: int| y * shifted(t);
        assert forall|t: int| 0 <= t < n implies #[trigger] h(t) == f(t) + g(t) by {
            let u = |j: int| coeff(a, t - j) * b[j];
            let v = |j: int| coeff(a, t - j) * c[j];
            assert forall|j: int| 0 <= j < k implies #[trigger] u(j) == v(j) by {
                assert(c[j] == b[j]);
            }
            lemma_sum_same(u, v, k);
            assert(conv_at(a, b, t) == conv_at(a, c, t) + coeff(a, t - k) * y);
            let p = pow(z, t as nat);
            let d = conv_at(a, c, t);
            let e = coeff(a, t - k);
            assert((d + e * y) * p == d * p + y * (e * p)) by (nonlinear_arith);
        }
        lemma_sum_adds(h, f, g, n);
        lemma_sum_scales(g, shifted, y, n);
        lemma_convolution(a, c, z, n);
        lemma_shifted_sum(a, k, z, n);
        let av = limbs::digits_value(a, z);
        let cv = limbs::digits_value(c, z);
        let p = pow(z, k);
        assert(av * cv + y * (p * av) == av * (cv + y * p)) by (nonlinear_arith);
    }
}

/// Products of small coefficients stay small.
pub proof fn lemma_conv_bound(a: Seq<u64>, b: Seq<u64>, t: int)
    requires
        forall|i: int| 0 <= i < a.len() ==> #[trigger] a[i] <= 0xFFFF,
        forall|i: int| 0 <= i < b.len() ==> #[trigger] b[i] <= 0xFFFF,
    ensures
        0 <= conv_at(a, b, t) <= b.len() * 0xFFFE_0001,
    decreases b.len(),
{
    if b.len() > 0 {
        let c = b.drop_last();
        let u = |j: int| coeff(a, t - j) * b[j];
        let v = |j: int| coeff(a, t - j) * c[j];
        assert forall|j: int| 0 <= j < c.len() implies #[trigger] u(j) == v(j) by {
            assert(c[j] == b[j]);
        }
        lemma_sum_same(u, v, c.len());
        lemma_conv_bound(a, c, t);
        let x = coeff(a, t - (b.len() - 1));
        let y = b.last() as int;
        assert(0 <= x <= 0xFFFF);
        assert(0 <= x * y <= 0xFFFE_0001) by (nonlinear_arith)
            requires
                0 <= x <= 0xFFFF,
                0 <= y <= 0xFFFF,
        ;
        assert(c.len() * 0xFFFE_0001 + 0xFFFE_0001 == b.len() * 0xFFFE_0001) by (nonlinear_arith)
            requires
                b.len() == c.len() + 1,
        ;
    }
}

/// The lowest `k` bits of `j` in reverse order.
pub open spec fn rev(k: nat, j: nat) -> nat
    decreases k,
{
    if k == 0 {
        0
    } else {
        (j % 2) * pow2((k - 1) as nat) + rev((k - 1) as nat, j / 2)
    }
}

/// Reversed indices stay in range.
pub proof fn lemma_rev_bound(k: nat, j: nat)
    ensures
        rev(k, j) < pow2(k),
    decreases k,
{
    if k == 0 {
        lemma2_to64();
    } else {
        lemma_rev_bound((k - 1) as nat, j / 2);
        lemma_pow2_unfold(k);
        lemma_pow2_pos((k - 1) as nat);
        let h = pow2((k - 1) as nat);
        assert((j % 2) * h <= h) by (nonlinear_arith)
            requires
                j % 2 == 0 || j % 2 == 1,
        ;
    }
}

/// The topmost bit becomes the lowest.
proof fn lemma_rev_top(k: nat, top: nat, low: nat)
    requires
        low < pow2(k),
        top <= 1,
    ensures
        rev(k + 1, top * pow2(k) + low) == 2 * rev(k, low) + top,
    decreases k,
{
    let j = top * pow2(k) + low;
    if k == 0 {
        lemma2_to64();
        assert(rev(0, j / 2) == 0);
        assert(j == top);
        lemma_small_mod(top, 2);
    } else {
        let k1 = (k - 1) as nat;
        lemma_pow2_unfold(k);
        let h = pow2(k1);
        lemma_fundamental_div_mod(low as int, 2);
        assert(j == 2 * (top * h + low / 2) + low % 2) by (nonlinear_arith)
            requires
                j == top * (2 * h) + low,
                low == 2 * (low / 2) + low % 2,
        ;
        lemma_fundamental_div_mod_converse(
            j as int,
            2,
            (top * h + low / 2) as int,
            (low % 2) as int,
        );
        lemma_rev_top(k1, top, low / 2);
        assert(rev(k + 1, j) == (j % 2) * pow2(k) + rev(k, j / 2));
        assert((low % 2) * (2 * h) + (2 * rev(k1, low / 2) + top) == 2 * ((low % 2) * h + rev(
            k1,
            low / 2,
        )) + top) by (nonlinear_arith);
    }
}

/// Reversing twice gives the index back.
pub proof fn lemma_rev_involution(k: nat, j: nat)
    requires
        j < pow2(k),
    ensures
        rev(k, rev(k, j)) == j,
    decreases k,
{
    if k == 0 {
        lemma2_to64();
    } else {
        let k1 = (k - 1) as nat;
        lemma_pow2_unfold(k);
        lemma_rev_bound(k1, j / 2);
        lemma_rev_top(k1, j % 2, rev(k1, j / 2));
        lemma_rev_involution(k1, j / 2);
    }
}

/// The sequence with its indices bit-reversed.
pub open spec fn reversed(a: Seq<u64>, k: nat) -> Seq<u64> {
    Seq::new(a.len(), |i: int| a[rev(k, i as nat) as int])
}

/// Entry `p` after one pass of butterflies with half-length `half`.
pub open spec fn butterfly_at(x: Seq<u64>, tw: Seq<u64>, half: int, p: int) -> int {
    let j = p % (2 * half);
    if j < half {
        field::residue(x[p] + field::residue(tw[j] * x[p + half]))
    } else {
        field::residue(x[p - half] - field::residue(tw[j - half] * x[p]))
    }
}

/// `y` is `x` after one pass of butterflies.
pub open spec fn is_pass(x: Seq<u64>, y: Seq<u64>, tw: Seq<u64>, half: int) -> bool {
    &&& y.len() == x.len()
    &&& forall|p: int| 0 <= p < x.len() ==> #[trigger] y[p] as int == butterfly_at(x, tw, half, p)
}

/// The first `count` powers of `root(w, m)`.
pub open spec fn is_table(tw: Seq<u64>, w: int, m: nat, count: nat) -> bool {
    &&& tw.len() == count
    &&& forall|j: int|
        0 <= j < count ==> #[trigger] tw[j] as int == field::residue(twiddle(w, m, j as nat))
}

/// After `m` passes over the bit-reversed `a` (of length `2^k`), each block of
/// length `2^m` holds the transform of one strided part of `a`.
pub open spec fn is_level(a: Seq<u64>, x: Seq<u64>, w: int, k: nat, m: nat) -> bool {
    &&& m <= k
    &&& a.len() == pow2(k)
    &&& x.len() == pow2(k)
    &&& forall|p: int|
        0 <= p < x.len() ==> #[trigger] x[p] as int == field::residue(
            strided(
                a,
                pow2((k - m) as nat),
                rev((k - m) as nat, (p / pow2(m) as int) as nat),
                pow2(m),
                twiddle(w, m, (p % pow2(m) as int) as nat),
            ),
        )
}

/// The bit-reversed sequence is level zero.
pub proof fn lemma_level_start(a: Seq<u64>, w: int, k: nat)
    requires
        a.len() == pow2(k),
        canonical(a),
    ensures
        is_level(a, reversed(a, k), w, k, 0),
{
    let x = reversed(a, k);
    lemma2_to64();
    assert forall|p: int| 0 <= p < x.len() implies #[trigger] x[p] as int == field::residue(
        strided(a, pow2(k), rev(k, (p / 1) as nat), 1, twiddle(w, 0, (p % 1) as nat)),
    ) by {
        let r = rev(k, p as nat);
        lemma_rev_bound(k, p as nat);
        lemma_div_basics(p);
        let z = twiddle(w, 0, (p % 1) as nat);
        assert(strided(a, pow2(k), r, 0, z) == 0);
        lemma_pow0(z);
        assert(pow2(k) * 0 == 0);
        assert(strided(a, pow2(k), r, 1, z) == a[r as int] * 1);
        assert(a[r as int] < P);
        lemma_small_mod(a[r as int] as nat, P as nat);
    }
}

/// The last level is the transform.
pub proof fn lemma_level_end(a: Seq<u64>, x: Seq<u64>, w: int, k: nat)
    requires
        is_level(a, x, w, k, k),
    ensures
        is_dft(a, x, w, k),
{
    lemma2_to64();
    assert forall|p: int| 0 <= p < x.len() implies #[trigger] x[p] as int == dft_at(
        a,
        w,
        k,
        p as nat,
    ) by {
        lemma_small_mod(p as nat, pow2(k));
        lemma_basic_div(p, pow2(k) as int);
        lemma_strided_whole(a, a.len(), twiddle(w, k, p as nat));
        assert(a.take(a.len() as int) =~= a);
        assert(rev(0, 0) == 0);
    }
}

/// One butterfly: the two values at the points `z` and `-z`.
proof fn lemma_butterfly(
    a: Seq<u64>,
    w: int,
    m: nat,
    s: nat,
    r: nat,
    t: nat,
    u: int,
    v: int,
    tw: int,
)
    requires
        is_root(w),
        m < 32,
        u == field::residue(strided(a, 2 * s, r, pow2(m), twiddle(w, m, t))),
        v == field::residue(strided(a, 2 * s, r + s, pow2(m), twiddle(w, m, t))),
        tw == field::residue(twiddle(w, m + 1, t)),
    ensures
        field::residue(u + field::residue(tw * v)) == field::residue(
            strided(a, s, r, pow2(m + 1), twiddle(w, m + 1, t)),
        ),
        field::residue(u - field::residue(tw * v)) == field::residue(
            strided(a, s, r, pow2(m + 1), twiddle(w, m + 1, t + pow2(m))),
        ),
{
    let p = P as int;
    let h = pow2(m);
    lemma_pow2_unfold(m + 1);
    let z = twiddle(w, m + 1, t);
    let y = twiddle(w, m, t);
    let even = strided(a, 2 * s, r, h, y);
    let odd = strided(a, 2 * s, r + s, h, y);
    lemma_twiddle_square(w, m, t);
    lemma_strided_splits(a, s, r, h, z);
    lemma_mod_twice(even, p);
    lemma_mod_twice(odd, p);
    lemma_mod_twice(z, p);
    field::lemma_product_residue(tw, z, v, odd);
    lemma_mod_twice(tw * v, p);
    field::lemma_sum_residue(u, even, field::residue(tw * v), z * odd);
    // The point z * (-1).
    let z2 = twiddle(w, m + 1, t + h);
    let minus = twiddle(w, m + 1, h);
    lemma_pow_adds(root(w, m + 1), t, h);
    lemma_twiddle_half(w, m + 1);
    lemma_twiddle_square(w, m, t + h);
    lemma_pow_adds(root(w, m), t, h);
    lemma_twiddle_full(w, m);
    lemma_times_one(y, twiddle(w, m, h));
    lemma_strided_splits(a, s, r, h, z2);
    lemma_strided_residue(a, 2 * s, r, h, z2 * z2, y);
    lemma_strided_residue(a, 2 * s, r + s, h, z2 * z2, y);
    let even2 = strided(a, 2 * s, r, h, z2 * z2);
    let odd2 = strided(a, 2 * s, r + s, h, z2 * z2);
    lemma_times_minus_one(z, minus);
    assert(field::residue(z2) == field::residue(-z));
    field::lemma_product_residue(z2, -z, odd2, odd);
    assert((-z) * odd == -(z * odd)) by (nonlinear_arith);
    field::lemma_sum_residue(even2, even, z2 * odd2, -(z * odd));
}

/// One pass of butterflies leads to the next level.
pub proof fn lemma_level_next(
    a: Seq<u64>,
    x: Seq<u64>,
    y: Seq<u64>,
    tw: Seq<u64>,
    w: int,
    k: nat,
    m: nat,
)
    requires
        is_root(w),
        is_level(a, x, w, k, m),
        m < k <= 32,
        is_table(tw, w, m + 1, pow2(m)),
        is_pass(x, y, tw, pow2(m) as int),
    ensures
        is_level(a, y, w, k, m + 1),
{
    let h = pow2(m) as int;
    let l = pow2(m + 1) as int;
    let kk = (k - m) as nat;
    let k1 = (kk - 1) as nat;
    let s = pow2(k1);
    lemma_pow2_unfold(m + 1);
    lemma_pow2_unfold(kk);
    lemma_pow2_adds(k1, m + 1);
    lemma_pow2_pos(m);
    lemma_pow2_pos(k1);
    assert forall|p: int| 0 <= p < y.len() implies #[trigger] y[p] as int == field::residue(
        strided(a, s, rev(k1, (p / l) as nat), pow2(m + 1), twiddle(w, m + 1, (p % l) as nat)),
    ) by {
        let b = p / l;
        let t2 = p % l;
        lemma_fundamental_div_mod(p, l);
        lemma_mod_bound(p, l);
        let t = if t2 < h { t2 } else { t2 - h };
        let lo = if t2 < h { p } else { p - h };
        assert(y[p] as int == butterfly_at(x, tw, h, p));
        assert(0 <= b < s) by (nonlinear_arith)
            requires
                0 <= p < s * l,
                p == l * b + t2,
                0 <= t2 < l,
        ;
        assert(lo == (2 * b) * h + t && lo + h == (2 * b + 1) * h + t) by (nonlinear_arith)
            requires
                l == 2 * h,
                p == l * b + t2,
                t2 < h ==> t == t2 && lo == p,
                t2 >= h ==> t == t2 - h && lo == p - h,
        ;
        assert(0 <= lo && lo + h < s * l) by (nonlinear_arith)
            requires
                lo == (2 * b) * h + t,
                0 <= t < h,
                0 <= b < s,
                l == 2 * h,
        ;
        lemma_fundamental_div_mod_converse(lo, h, 2 * b, t);
        lemma_fundamental_div_mod_converse(lo + h, h, 2 * b + 1, t);
        let bn = b as nat;
        lemma_rev_pair(kk, bn);
        let u = x[lo] as int;
        let v = x[lo + h] as int;
        let r = rev(k1, bn);
        assert(u == field::residue(strided(a, 2 * s, r, pow2(m), twiddle(w, m, t as nat))));
        assert(v == field::residue(strided(a, 2 * s, r + s, pow2(m), twiddle(w, m, t as nat))));
        assert(tw[t] as int == field::residue(twiddle(w, m + 1, t as nat)));
        lemma_butterfly(a, w, m, s, r, t as nat, u, v, tw[t] as int);
        if t2 >= h {
            assert(t2 as nat == t as nat + pow2(m));
        }
    }
}

proof fn lemma_rev_pair(k: nat, b: nat)
    requires
        k > 0,
    ensures
        rev(k, 2 * b) == rev((k - 1) as nat, b),
        rev(k, 2 * b + 1) == rev((k - 1) as nat, b) + pow2((k - 1) as nat),
{
    let h = pow2((k - 1) as nat);
    assert((2 * b) % 2 == 0 && (2 * b) / 2 == b);
    assert((2 * b + 1) % 2 == 1 && (2 * b + 1) / 2 == b);
    assert(0 * h == 0 && 1 * h == h);
}

/// A polynomial of `m` interleaved parts: the sum of the parts, each at the
/// power `m` of the point and shifted to its place.
pub proof fn lemma_decimation(a: Seq<u64>, y: int, m: nat, r: nat)
    requires
        m > 0,
        r * m <= a.len(),
    ensures
        limbs::digits_value(a.take((r * m) as int), y) == sum(
            |c: int| pow(y, c as nat) * strided(a, m, c as nat, r, pow(y, m)),
            m,
        ),
    decreases r,
{
    let f = |c: int| pow(y, c as nat) * strided(a, m, c as nat, r, pow(y, m));
    if r == 0 {
        assert(0 * m == 0);
        assert(a.take(0).len() == 0);
        assert forall|c: int| 0 <= c < m implies #[trigger] f(c) == 0 by {
            lemma_mul_basics(pow(y, c as nat));
        }
        lemma_sum_zero(f, m);
    } else {
        let q = (r - 1) as nat;
        assert(r * m == q * m + m && q * m >= 0) by (nonlinear_arith)
            requires
                q == r - 1,
                q >= 0,
                m > 0,
        ;
        let g = |c: int| pow(y, c as nat) * strided(a, m, c as nat, q, pow(y, m));
        let s = a.take((r * m) as int);
        let low = a.take((q * m) as int);
        let h = |t: int| s[t] * pow(y, t as nat);
        let h0 = |t: int| low[t] * pow(y, t as nat);
        let h1 = |c: int| s[q * m + c] * pow(y, (q * m + c) as nat);
        lemma_decimation(a, y, m, q);
        lemma_digits_sum(s, y);
        lemma_digits_sum(low, y);
        assert forall|t: int| 0 <= t < q * m implies #[trigger] h0(t) == h(t) by {
            assert(low[t] == s[t]);
        }
        lemma_sum_splits(h, h0, h1, q * m, m);
        assert forall|c: int| 0 <= c < m implies #[trigger] f(c) == g(c) + h1(c) by {
            let x = a[c + m * (r - 1)] as int;
            assert(c + m * (r - 1) == q * m + c) by (nonlinear_arith)
                requires
                    q == r - 1,
            ;
            assert(s[q * m + c] == a[q * m + c]);
            lemma_pow_multiplies(y, m, q);
            lemma_mul_is_commutative(m as int, q as int);
            lemma_pow_adds(y, q * m, c as nat);
            let d = strided(a, m, c as nat, q, pow(y, m));
            let e = pow(y, c as nat);
            let p = pow(y, q * m);
            assert(e * (d + x * p) == e * d + x * (p * e)) by (nonlinear_arith);
        }
        lemma_sum_adds(f, g, h1, m);
    }
}

/// Element `k` of a transform is the polynomial with the given coefficients at power
/// `k` of a root of unity, which is `w` to the power `2^(32 - m)`.
pub proof fn law_dft(a: Seq<u64>, x: Seq<u64>, w: int, m: nat, k: int)
    requires
        is_dft(a, x, w, m),
        0 <= k < x.len(),
    ensures
        x.len() == a.len(),
        x[k] == limbs::digits_value(a, pow(pow(w, pow2((32 - m) as nat)), k as nat))
            % 18_446_744_069_414_584_321,
{
}

/// Reversing bits turns the lowest bit into the highest and reverses the others
/// below it.
pub proof fn law_rev(k: nat, j: nat)
    ensures
        rev(0, j) == 0,
        rev(k + 1, 2 * j) == rev(k, j),
        rev(k + 1, 2 * j + 1) == pow2(k) + rev(k, j),
{
    let p = pow2(k);
    assert(0 * p == 0 && 1 * p == p) by (nonlinear_arith);
    assert((2 * j) % 2 == 0 && (2 * j) / 2 == j);
    assert((2 * j + 1) % 2 == 1 && (2 * j + 1) / 2 == j);
}

/// A reversed sequence has at each index the element at the index with its bits
/// reversed.
pub proof fn law_reversed(a: Seq<u64>, k: nat, i: int)
    requires
        0 <= i < a.len(),
    ensures
        reversed(a, k).len() == a.len(),
        reversed(a, k)[i] == a[rev(k, i as nat) as int],
{
}

} // verus!
