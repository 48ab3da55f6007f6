//! Powers of two and relative errors over the real numbers.
use vstd::arithmetic::power2::*;
use vstd::prelude::*;

verus! {

/// `2^e` for any integer `e`.
pub open spec fn rpow2(e: int) -> real {
    if e >= 0 {
        pow2(e as nat) as real
    } else {
        1real / (pow2((-e) as nat) as real)
    }
}

/// The absolute value of a real number.
pub open spec fn rabs(x: real) -> real {
    if x < 0real {
        -x
    } else {
        x
    }
}

pub proof fn lemma_real_assoc(a: real, b: real, c: real)
    ensures
        (a * b) * c == a * (b * c),
{
    assert((a * b) * c == a * (b * c)) by (nonlinear_arith);
}

pub proof fn lemma_real_distrib(a: real, b: real, c: real)
    ensures
        (a + b) * c == a * c + b * c,
{
    assert((a + b) * c == a * c + b * c) by (nonlinear_arith);
}

pub proof fn lemma_real_comm(a: real, b: real)
    ensures
        a * b == b * a,
{
    assert(a * b == b * a) by (nonlinear_arith);
}

/// The product of two integers as a real number.
pub proof fn lemma_int_product(a: int, b: int)
    ensures
        (a * b) as real == (a as real) * (b as real),
    decreases if b < 0 { -b } else { b },
{
    let x = a as real;
    if b > 0 {
        lemma_int_product(a, b - 1);
        let y = (b - 1) as real;
        assert(a * b == a * (b - 1) + a) by (nonlinear_arith);
        assert((b as real) == y + 1real);
        assert(x * (y + 1real) == x * y + x) by (nonlinear_arith);
    } else if b < 0 {
        lemma_int_product(a, b + 1);
        let y = (b + 1) as real;
        assert(a * b == a * (b + 1) - a) by (nonlinear_arith);
        assert((b as real) == y - 1real);
        assert(x * (y - 1real) == x * y - x) by (nonlinear_arith);
    } else {
        assert(a * 0 == 0);
        assert(x * 0real == 0real) by (nonlinear_arith);
    }
}

/// Powers of two are positive and step by a factor of two.
pub proof fn lemma_rpow2_step(e: int)
    ensures
        rpow2(e) > 0real,
        rpow2(e + 1) == 2real * rpow2(e),
        rpow2(0) == 1real,
{
    lemma2_to64();
    if e >= 0 {
        lemma_pow2_pos(e as nat);
        lemma_pow2_unfold((e + 1) as nat);
        assert(((2 * pow2(e as nat)) as int) as real == 2real * (pow2(e as nat) as real));
    } else {
        lemma_pow2_pos((-e) as nat);
        lemma_pow2_pos((-e - 1) as nat);
        lemma_pow2_unfold((-e) as nat);
        let p = pow2((-e - 1) as nat) as real;
        assert((pow2((-e) as nat) as real) == 2real * p);
        assert(p > 0real);
        assert(1real / p == 2real * (1real / (2real * p))) by (nonlinear_arith)
            requires
                p > 0real,
        ;
        assert(1real / (2real * p) > 0real) by (nonlinear_arith)
            requires
                p > 0real,
        ;
        if e == -1 {
            assert(p == 1real);
            assert(1real / p == 1real) by (nonlinear_arith)
                requires
                    p == 1real,
            ;
        }
    }
}

/// `2^(a + b) = 2^a * 2^b`.
pub proof fn lemma_rpow2_add(a: int, b: int)
    ensures
        rpow2(a + b) == rpow2(a) * rpow2(b),
        rpow2(a) > 0real,
    decreases if b < 0 { -b } else { b },
{
    lemma_rpow2_step(a);
    let x = rpow2(a);
    if b == 0 {
        assert(x * 1real == x) by (nonlinear_arith);
    } else if b > 0 {
        lemma_rpow2_add(a, b - 1);
        lemma_rpow2_step(b - 1);
        lemma_rpow2_step(a + b - 1);
        let y = rpow2(b - 1);
        assert(2real * (x * y) == x * (2real * y)) by (nonlinear_arith);
    } else {
        lemma_rpow2_add(a, b + 1);
        lemma_rpow2_step(b);
        lemma_rpow2_step(a + b);
        let y = rpow2(b);
        let z = rpow2(a + b);
        assert(z == x * y) by (nonlinear_arith)
            requires
                2real * z == x * (2real * y),
        ;
    }
}

/// Powers of two grow with the exponent.
pub proof fn lemma_rpow2_monotone(a: int, b: int)
    requires
        a <= b,
    ensures
        0real < rpow2(a) <= rpow2(b),
    decreases b - a,
{
    lemma_rpow2_step(a);
    if a < b {
        lemma_rpow2_monotone(a, b - 1);
        lemma_rpow2_step(b - 1);
    }
}

/// `2^e` for a natural exponent is the integer power.
pub proof fn lemma_rpow2_nat(e: nat)
    ensures
        rpow2(e as int) == pow2(e) as real,
        rpow2(-(e as int)) * (pow2(e) as real) == 1real,
{
    lemma_rpow2_add(-(e as int), e as int);
    lemma_rpow2_step(0);
}

/// A product of bounded numbers is bounded.
pub proof fn lemma_rabs_product(x: real, y: real, a: real, b: real)
    requires
        rabs(x) <= a,
        rabs(y) <= b,
    ensures
        rabs(x * y) <= a * b,
{
    assert(x * y <= a * b && -(x * y) <= a * b) by (nonlinear_arith)
        requires
            -a <= x <= a,
            -b <= y <= b,
    ;
}

/// `x^n`.
pub open spec fn rpow(x: real, n: nat) -> real
    decreases n,
{
    if n == 0 {
        1real
    } else {
        x * rpow(x, (n - 1) as nat)
    }
}

/// `x^(m + n) = x^m * x^n`.
pub proof fn lemma_rpow_add(x: real, m: nat, n: nat)
    ensures
        rpow(x, m + n) == rpow(x, m) * rpow(x, n),
    decreases m,
{
    let b = rpow(x, n);
    if m == 0 {
        assert(1real * b == b) by (nonlinear_arith);
    } else {
        lemma_rpow_add(x, (m - 1) as nat, n);
        let a = rpow(x, (m - 1) as nat);
        assert(x * (a * b) == (x * a) * b) by (nonlinear_arith);
    }
}

/// Powers of numbers that are not negative keep their order.
pub proof fn lemma_rpow_monotone(x: real, y: real, n: nat)
    requires
        0real <= x <= y,
    ensures
        0real <= rpow(x, n) <= rpow(y, n),
    decreases n,
{
    if n > 0 {
        lemma_rpow_monotone(x, y, (n - 1) as nat);
        let a = rpow(x, (n - 1) as nat);
        let b = rpow(y, (n - 1) as nat);
        assert(0real <= x * a <= y * b) by (nonlinear_arith)
            requires
                0real <= x <= y,
                0real <= a <= b,
        ;
    }
}

/// `1^n = 1`.
pub proof fn lemma_rpow_one(n: nat)
    ensures
        rpow(1real, n) == 1real,
    decreases n,
{
    if n > 0 {
        lemma_rpow_one((n - 1) as nat);
    }
}

/// Powers of a power of two.
pub proof fn lemma_rpow_pow2(e: int, n: nat)
    ensures
        rpow(rpow2(e), n) == rpow2(e * n),
    decreases n,
{
    if n == 0 {
        lemma_rpow2_step(0);
        assert(e * 0 == 0);
    } else {
        lemma_rpow_pow2(e, (n - 1) as nat);
        lemma_rpow2_add(e, e * (n - 1));
        assert(e * n == e + e * (n - 1)) by (nonlinear_arith);
    }
}

/// Accumulated relative errors: `(1 - u)^n` and `(1 + u)^n` stay near one.
pub proof fn lemma_rpow_error(u: real, n: nat)
    requires
        0real <= u,
        (n as real) * u <= 1real / 2real,
    ensures
        rpow(1real + u, n) <= 1real + 2real * ((n as real) * u),
        u <= 1real ==> rpow(1real - u, n) >= 1real - (n as real) * u,
    decreases n,
{
    if n == 0 {
        assert(0real * u == 0real) by (nonlinear_arith);
    } else {
        let m: nat = (n - 1) as nat;
        let k = m as real;
        let t = (n as real) * u;
        let s = k * u;
        assert(t == s + u) by (nonlinear_arith)
            requires
                t == (k + 1real) * u,
                s == k * u,
        ;
        assert(s >= 0real) by (nonlinear_arith)
            requires
                s == k * u,
                k >= 0real,
                u >= 0real,
        ;
        lemma_rpow_error(u, m);
        let a = rpow(1real + u, m);
        assert((1real + u) * a <= (1real + u) * (1real + 2real * s)) by (nonlinear_arith)
            requires
                a <= 1real + 2real * s,
                u >= 0real,
        ;
        assert((1real + u) * (1real + 2real * s) <= 1real + 2real * t) by (nonlinear_arith)
            requires
                t == s + u,
                0real <= u,
                2real * s <= 1real,
        ;
        if u <= 1real {
            let b = rpow(1real - u, m);
            assert((1real - u) * b >= (1real - u) * (1real - s)) by (nonlinear_arith)
                requires
                    b >= 1real - s,
                    u <= 1real,
            ;
            assert((1real - u) * (1real - s) >= 1real - t) by (nonlinear_arith)
                requires
                    t == s + u,
                    0real <= u,
                    0real <= s,
            ;
        }
    }
}

/// Powers of two over the reals: the first is one, each is twice the one before,
/// and those with exponents from zero on are integers.
pub proof fn law_powers_of_two(e: int, n: nat)
    ensures
        rpow2(0) == 1real,
        rpow2(e + 1) == 2real * rpow2(e),
        rpow2(e) > 0real,
        rpow2(n as int) == pow2(n) as real,
{
    lemma_rpow2_step(e);
    lemma_rpow2_nat(n);
    lemma2_to64();
}

/// Distances: never negative, and one of the number and its opposite.
pub proof fn law_distance(x: real)
    ensures
        rabs(x) >= 0real,
        rabs(x) == x || rabs(x) == -x,
{
}

/// Powers over the reals: the first is one, and each is the one before it times the
/// base.
pub proof fn law_powers(x: real, n: nat)
    ensures
        rpow(x, 0) == 1real,
        rpow(x, n + 1) == x * rpow(x, n),
{
}

} // verus!
