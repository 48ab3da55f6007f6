//! Conversions to and from floating-point numbers, and powers.
use crate::bitlen;
use crate::float;
use crate::float::{Float, bit_at, has_low_bits};
use crate::integer;
use crate::integer::{Integer, add_signed};
use crate::limbs;
use crate::magnitude::{shl_mag, shr_mag};
use crate::newton;
use crate::reals;
use crate::rounding;
use core::cmp::Ordering;
use vstd::arithmetic::div_mod::*;
use vstd::arithmetic::mul::*;
use vstd::arithmetic::power2::*;
use vstd::arithmetic::power::*;
use vstd::prelude::*;

verus! {

/// Direction in which a conversion to an integer rounds.
#[derive(Debug, Clone, Copy, PartialEq, Eq, Structural)]
pub enum Round {
    /// Toward minus infinity.
    Down,
}

/// Maximum precision, in bits, that a plan may ask for.
pub fn prec_max_64() -> (r: u64)
    ensures
        r == pow2(40),
{
    proof {
        lemma2_to64_rest();
    }
    0x100_0000_0000
}

impl Float {
    /// The exponent of the power of two just above the magnitude.
    pub open spec fn top(&self) -> int {
        self.exp + bitlen::bit_len(self.mantissa@)
    }

    /// The mantissa with the sign.
    pub open spec fn signed_mantissa(&self) -> int {
        if self.sign {
            -self.mantissa@
        } else {
            self.mantissa@
        }
    }

    /// The largest integer that is not above the value.
    pub open spec fn floor(&self) -> int {
        if self.exp >= 0 {
            self.signed_mantissa() * pow2(self.exp as nat)
        } else {
            self.signed_mantissa() / (pow2((-self.exp) as nat) as int)
        }
    }

    /// Whether the value is an integer.
    pub open spec fn is_integral(&self) -> bool {
        self.exp >= 0 || self.mantissa@ % (pow2((-self.exp) as nat) as int) == 0
    }

    /// Limbs that the integer part may need.
    pub open spec fn floor_fits(&self) -> bool {
        self.exp >= 0 ==> self.size() + self.exp / 64 + 2 <= limbs::limb_limit()
    }

    /// The floor, and whether it is exact.
    fn floor_parts(&self) -> (r: (Integer, bool))
        requires
            self.wf(),
            self.floor_fits(),
            self.size() + 2 <= limbs::limb_limit(),
        ensures
            r.0.wf(),
            r.0@ == self.floor(),
            r.1 == self.is_integral(),
    {
        let ghost m = self.mantissa@;
        proof {
            limbs::lemma_limb_limit();
            integer::lemma_zero(self.mantissa);
        }
        if self.exp >= 0 {
            let limbs: Vec<u64> = shl_mag(&self.mantissa.limbs, self.exp as u64);
            proof {
                let p = pow2(self.exp as nat) as int;
                assert((-m) * p == -(m * p)) by (nonlinear_arith);
            }
            return (Integer::from_parts(limbs, self.sign), true);
        }
        let shift: u64 = (-self.exp) as u64;
        let ghost p = pow2(shift as nat) as int;
        let truncated: Vec<u64> = shr_mag(&self.mantissa.limbs, shift);
        let any_low: bool = has_low_bits(&self.mantissa.limbs, shift);
        proof {
            lemma_pow2_pos(shift as nat);
            lemma_floor_negated(m, p);
        }
        let mut part: Integer = Integer::from_parts(truncated, false);
        if self.sign && any_low {
            let one: Integer = Integer::from(1u64);
            part = add_signed(&part, &one);
        }
        proof {
            integer::lemma_zero(part);
            lemma_div_pos_is_pos(m, p);
        }
        (Integer::from_parts(part.limbs, self.sign), !any_low)
    }

    /// The value rounded down to an integer, and how the integer compares with
    /// the value.
    pub fn to_integer_round(&self, round: Round) -> (r: Option<(Integer, Ordering)>)
        requires
            self.wf(),
            self.floor_fits(),
            self.size() + 2 <= limbs::limb_limit(),
        ensures
            match r {
                Some((n, ord)) => {
                    &&& n.wf()
                    &&& n@ == self.floor()
                    &&& self.is_integral() ==> ord == Ordering::Equal
                    &&& !self.is_integral() ==> ord == Ordering::Less
                },
                None => false,
            },
    {
        let (int_part, exact) = self.floor_parts();
        if exact {
            Some((int_part, Ordering::Equal))
        } else {
            Some((int_part, Ordering::Less))
        }
    }
}

/// The floor of a negated quotient.
proof fn lemma_floor_negated(m: int, p: int)
    requires
        m >= 0,
        p > 0,
    ensures
        (-m) / p == if m % p == 0 {
            -(m / p)
        } else {
            -(m / p) - 1
        },
{
    lemma_fundamental_div_mod(m, p);
    lemma_mod_bound(m, p);
    let q = m / p;
    let r = m % p;
    if r == 0 {
        assert(-m == (-q) * p) by (nonlinear_arith)
            requires
                m == p * q,
        ;
        lemma_fundamental_div_mod_converse(-m, p, -q, 0);
    } else {
        assert(-m == (-q - 1) * p + (p - r)) by (nonlinear_arith)
            requires
                m == p * q + r,
        ;
        lemma_fundamental_div_mod_converse(-m, p, -q - 1, p - r);
    }
}

/// The floor of a value is at most the value, and less than one below it; it
/// equals the value exactly where the value is an integer.
pub proof fn law_floor(f: Float)
    requires
        f.wf(),
    ensures
        (f.floor() as real) <= f.val() < (f.floor() as real) + 1real,
        f.is_integral() == ((f.floor() as real) == f.val()),
{
    let m = f.signed_mantissa();
    let w = reals::rpow2(f.exp as int);
    let mr = m as real;
    assert(f.val() == mr * w) by {
        let a = f.mantissa@ as real;
        assert((-a) * w == -(a * w)) by (nonlinear_arith);
    }
    if f.exp >= 0 {
        reals::lemma_rpow2_nat(f.exp as nat);
        reals::lemma_int_product(m, pow2(f.exp as nat) as int);
    } else {
        let s: nat = (-f.exp) as nat;
        let p = pow2(s) as int;
        lemma_pow2_pos(s);
        reals::lemma_rpow2_nat(s);
        reals::lemma_rpow2_step(f.exp as int);
        lemma_fundamental_div_mod(m, p);
        lemma_mod_bound(m, p);
        let q = m / p;
        reals::lemma_int_product(p, q);
        let pr = p as real;
        let qr = q as real;
        let rest = (m % p) as real;
        assert(mr == pr * qr + rest);
        assert(mr * w == qr + rest * w) by (nonlinear_arith)
            requires
                mr == pr * qr + rest,
                w * pr == 1real,
        ;
        assert(0real <= rest * w < 1real) by (nonlinear_arith)
            requires
                0real <= rest < pr,
                w * pr == 1real,
                w > 0real,
        ;
        assert((rest * w == 0real) == (rest == 0real)) by (nonlinear_arith)
            requires
                w > 0real,
                rest >= 0real,
        ;
        // The remainders of m and of the mantissa vanish together.
        if f.sign {
            lemma_floor_negated(f.mantissa@, p);
            lemma_fundamental_div_mod(f.mantissa@, p);
            let k = f.mantissa@ / p;
            assert(p * (-k) == -(p * k)) by (nonlinear_arith);
            assert(p * (-k - 1) == -(p * k) - p) by (nonlinear_arith);
        }
    }
}

/// Values that convert to a floating-point number without rounding.
pub trait ToFloat: Sized {
    /// Whether the conversion is defined.
    spec fn convertible(&self) -> bool;

    /// Sign of the result.
    spec fn float_sign(&self) -> bool;

    /// Mantissa of the result.
    spec fn float_mantissa(&self) -> int;

    /// Exponent of the result.
    spec fn float_exp(&self) -> int;

    /// Convert without rounding.
    fn to_float(self) -> (f: Float)
        requires
            self.convertible(),
        ensures
            f.wf(),
            f.mantissa@ == self.float_mantissa(),
            f.mantissa@ != 0 ==> f.sign == self.float_sign() && f.exp == self.float_exp(),
            float::exp_ok(f.exp + 64 * f.size() + 1),
    ;
}

impl ToFloat for u64 {
    open spec fn convertible(&self) -> bool {
        true
    }

    open spec fn float_sign(&self) -> bool {
        false
    }

    open spec fn float_mantissa(&self) -> int {
        *self as int
    }

    open spec fn float_exp(&self) -> int {
        0
    }

    fn to_float(self) -> (f: Float) {
        proof {
            limbs::lemma_limb_limit();
        }
        Float::from(self)
    }
}

impl ToFloat for u32 {
    open spec fn convertible(&self) -> bool {
        true
    }

    open spec fn float_sign(&self) -> bool {
        false
    }

    open spec fn float_mantissa(&self) -> int {
        *self as int
    }

    open spec fn float_exp(&self) -> int {
        0
    }

    fn to_float(self) -> (f: Float) {
        proof {
            limbs::lemma_limb_limit();
        }
        Float::from(self)
    }
}

impl ToFloat for i64 {
    open spec fn convertible(&self) -> bool {
        true
    }

    open spec fn float_sign(&self) -> bool {
        *self < 0
    }

    open spec fn float_mantissa(&self) -> int {
        integer::abs(*self as int)
    }

    open spec fn float_exp(&self) -> int {
        0
    }

    fn to_float(self) -> (f: Float) {
        proof {
            limbs::lemma_limb_limit();
        }
        Float::from(self)
    }
}

impl ToFloat for i32 {
    open spec fn convertible(&self) -> bool {
        true
    }

    open spec fn float_sign(&self) -> bool {
        *self < 0
    }

    open spec fn float_mantissa(&self) -> int {
        integer::abs(*self as int)
    }

    open spec fn float_exp(&self) -> int {
        0
    }

    fn to_float(self) -> (f: Float) {
        proof {
            limbs::lemma_limb_limit();
        }
        Float::from(self)
    }
}

impl ToFloat for Integer {
    open spec fn convertible(&self) -> bool {
        self.wf()
    }

    open spec fn float_sign(&self) -> bool {
        self@ < 0
    }

    open spec fn float_mantissa(&self) -> int {
        integer::abs(self@)
    }

    open spec fn float_exp(&self) -> int {
        0
    }

    fn to_float(self) -> (f: Float) {
        proof {
            limbs::lemma_limb_limit();
        }
        Float::from(self)
    }
}

impl<'a> ToFloat for &'a Integer {
    open spec fn convertible(&self) -> bool {
        self.wf()
    }

    open spec fn float_sign(&self) -> bool {
        self@ < 0
    }

    open spec fn float_mantissa(&self) -> int {
        integer::abs(self@)
    }

    open spec fn float_exp(&self) -> int {
        0
    }

    fn to_float(self) -> (f: Float) {
        proof {
            limbs::lemma_limb_limit();
        }
        Float::from(self)
    }
}

impl ToFloat for Float {
    open spec fn convertible(&self) -> bool {
        self.wf() && float::exp_ok(self.exp + 64 * self.size() + 1)
    }

    open spec fn float_sign(&self) -> bool {
        self.sign
    }

    open spec fn float_mantissa(&self) -> int {
        self.mantissa@
    }

    open spec fn float_exp(&self) -> int {
        self.exp as int
    }

    fn to_float(self) -> (f: Float) {
        self
    }
}

impl<'a> ToFloat for &'a Float {
    open spec fn convertible(&self) -> bool {
        self.wf() && float::exp_ok(self.exp + 64 * self.size() + 1)
    }

    open spec fn float_sign(&self) -> bool {
        self.sign
    }

    open spec fn float_mantissa(&self) -> int {
        self.mantissa@
    }

    open spec fn float_exp(&self) -> int {
        self.exp as int
    }

    fn to_float(self) -> (f: Float) {
        Clone::clone(self)
    }
}

/// A binary64 number, given by its bit pattern.
#[derive(Debug, Clone, Copy, PartialEq, Eq, Structural)]
pub struct F64Bits(pub u64);

impl F64Bits {
    /// The exponent field.
    pub open spec fn exponent_field(&self) -> int {
        (self.0 as int / 0x10_0000_0000_0000) % 0x800
    }

    /// The fraction field.
    pub open spec fn fraction_field(&self) -> int {
        self.0 as int % 0x10_0000_0000_0000
    }
}

impl ToFloat for F64Bits {
    /// Finite numbers only.
    open spec fn convertible(&self) -> bool {
        self.exponent_field() != 0x7ff
    }

    open spec fn float_sign(&self) -> bool {
        self.0 >= 0x8000_0000_0000_0000
    }

    open spec fn float_mantissa(&self) -> int {
        if self.exponent_field() == 0 {
            self.fraction_field()
        } else {
            self.fraction_field() + 0x10_0000_0000_0000
        }
    }

    open spec fn float_exp(&self) -> int {
        if self.exponent_field() == 0 {
            -1074
        } else {
            self.exponent_field() - 1075
        }
    }

    fn to_float(self) -> (f: Float) {
        let bits: u64 = self.0;
        let sign: bool = bits >= 0x8000_0000_0000_0000;
        let field: u64 = (bits / 0x10_0000_0000_0000) % 0x800;
        let fraction: u64 = bits % 0x10_0000_0000_0000;
        let m: u64 = if field == 0 { fraction } else { fraction + 0x10_0000_0000_0000 };
        let e: i64 = if field == 0 { -1074 } else { field as i64 - 1075 };
        proof {
            lemma2_to64();
            bitlen::lemma_bit_len_at_most(m as int, 64);
        }
        if m == 0 {
            Float::zero(64)
        } else {
            Float { prec: 64, sign, mantissa: Integer::from(m), exp: e }
        }
    }
}

impl Float {
    /// `value`, rounded to `prec` bits.
    pub fn with_val_64<T: ToFloat>(prec: u64, value: T) -> (r: Float)
        requires
            value.convertible(),
        ensures
            r.is_rounded(
                prec as nat,
                value.float_sign(),
                value.float_mantissa(),
                value.float_exp(),
            ),
    {
        let mut f: Float = value.to_float();
        f.prec = prec;
        f.round_to_prec();
        proof {
            rounding::lemma_round_error(0, prec as nat);
        }
        f
    }

    /// Replace the value, keeping the precision.
    pub fn assign<T: ToFloat>(&mut self, value: T)
        requires
            value.convertible(),
        ensures
            final(self).is_rounded(
                old(self).prec as nat,
                value.float_sign(),
                value.float_mantissa(),
                value.float_exp(),
            ),
    {
        let prec: u64 = self.prec;
        *self = Float::with_val_64(prec, value);
    }

    /// A binary64 number given by its bits, rounded to `prec` bits.
    pub fn from_f64_at_prec(v: F64Bits, prec: u64) -> (r: Float)
        requires
            v.convertible(),
        ensures
            r.is_rounded(prec as nat, v.float_sign(), v.float_mantissa(), v.float_exp()),
    {
        Float::with_val_64(prec, v)
    }
}

/// `v` is `x^n` up to `k` relative errors of `u`.
pub open spec fn power_near(v: real, x: real, n: nat, u: real, k: nat) -> bool {
    exists|t: real|
        v == reals::rpow(x, n) * t && reals::rpow(1real - u, k) <= t <= #[trigger] rpow_at_most(u, k, t)
}

/// `(1 + u)^k`, for a factor `t`.
pub open spec fn rpow_at_most(u: real, k: nat, t: real) -> real {
    reals::rpow(1real + u, k)
}

/// Whether `x^n` and every smaller power of `x` are integers that fit the
/// precision of `x`.
pub open spec fn power_fits(x: Float, n: nat) -> bool {
    x.is_integral() && pow(integer::abs(x.floor()), n) < pow2(x.prec as nat)
}

/// `r` is `x^n` at the precision of `x`, by squaring and multiplying: exact
/// where it fits, and otherwise off by at most `n` relative errors of
/// `2^-prec`.
pub open spec fn is_power(x: Float, n: nat, r: Float) -> bool {
    &&& r.wf()
    &&& r.prec == x.prec
    &&& n == 0 ==> r.is_rounded(x.prec as nat, false, 1, 0)
    &&& n > 0 ==> (r.mantissa@ == 0) == (x.mantissa@ == 0)
    &&& n > 0 && x.mantissa@ != 0 ==> power_near(
        r.val(),
        x.val(),
        n,
        reals::rpow2(-(x.prec as int)),
        n,
    )
    &&& power_fits(x, n) ==> r.val() == pow(x.floor(), n) as real
}

/// Powers of integers as reals.
pub proof fn lemma_pow_real(v: int, n: nat)
    ensures
        reals::rpow(v as real, n) == pow(v, n) as real,
    decreases n,
{
    if n == 0 {
        lemma_pow0(v);
    } else {
        lemma_pow_real(v, (n - 1) as nat);
        lemma_pow_adds(v, 1, (n - 1) as nat);
        lemma_pow1(v);
        reals::lemma_int_product(v, pow(v, (n - 1) as nat));
    }
}

/// Rounding keeps a value that is an integer of at most `prec` bits times a
/// power of two.
pub proof fn lemma_rounded_exact(f: Float, prec: nat, sign: bool, m: int, e: int, w: int, k: int)
    requires
        f.is_rounded(prec, sign, m, e),
        m >= 0,
        0 <= w < pow2(prec),
        (m as real) * reals::rpow2(e) == (w as real) * reals::rpow2(k),
    ensures
        f.val() == float::scaled(sign, m, e),
{
    let mr = m as real;
    let wr = w as real;
    let (a, t) = if e >= k {
        let d = (e - k) as nat;
        reals::lemma_rpow2_add(k, d as int);
        reals::lemma_rpow2_nat(d);
        reals::lemma_rpow2_step(k);
        lemma_pow2_pos(d);
        reals::lemma_int_product(m, pow2(d) as int);
        let x = reals::rpow2(k);
        let y = reals::rpow2(d as int);
        assert(mr * y == wr) by (nonlinear_arith)
            requires
                mr * (x * y) == wr * x,
                x > 0real,
        ;
        assert(m * pow2(d) == w);
        assert(m <= m * pow2(d)) by (nonlinear_arith)
            requires
                m >= 0,
                pow2(d) >= 1,
        ;
        (m, 0nat)
    } else {
        let d = (k - e) as nat;
        reals::lemma_rpow2_add(e, d as int);
        reals::lemma_rpow2_nat(d);
        reals::lemma_rpow2_step(e);
        reals::lemma_int_product(w, pow2(d) as int);
        let x = reals::rpow2(e);
        let y = reals::rpow2(d as int);
        assert(mr == wr * y) by (nonlinear_arith)
            requires
                mr * x == wr * (x * y),
                x > 0real,
        ;
        (w, d)
    };
    lemma2_to64();
    assert(m * 1 == m);
    assert(m == a * pow2(t));
    rounding::lemma_round_exact(a, t, prec);
    let s = rounding::round_shift(m, prec);
    let r = rounding::round_mantissa(m, prec);
    rounding::lemma_round_error(m, prec);
    reals::lemma_rpow2_add(e, s as int);
    reals::lemma_rpow2_nat(s);
    reals::lemma_int_product(r, pow2(s) as int);
    let x = reals::rpow2(e);
    let y = reals::rpow2(s as int);
    let rr = r as real;
    assert(rr * y == mr);
    assert(rr * (x * y) == mr * x) by (nonlinear_arith)
        requires
            rr * y == mr,
    ;
    if r == 0 {
        assert(mr == 0real) by (nonlinear_arith)
            requires
                rr * y == mr,
                rr == 0real,
        ;
        assert(mr * x == 0real) by (nonlinear_arith)
            requires
                mr == 0real,
        ;
        float::lemma_val_zero(f);
    }
}

/// A product of two exact powers that fits is exact.
proof fn lemma_exact_step(f: Float, a: Float, b: Float, v: int, i: nat, j: nat, total: nat)
    requires
        a.wf(),
        b.wf(),
        f.is_rounded(
            f.prec as nat,
            a.sign != b.sign,
            a.mantissa@ * b.mantissa@,
            a.exp + b.exp,
        ),
        a.val() == reals::rpow(v as real, i),
        b.val() == reals::rpow(v as real, j),
        v != 0,
        i + j <= total,
        pow(integer::abs(v), total) < pow2(f.prec as nat),
    ensures
        f.val() == reals::rpow(v as real, i + j),
{
    let m = a.mantissa@ * b.mantissa@;
    let e = a.exp + b.exp;
    let sign = a.sign != b.sign;
    float::lemma_scaled_product(
        a.sign,
        a.mantissa@,
        a.exp as int,
        b.sign,
        b.mantissa@,
        b.exp as int,
    );
    assert(m >= 0) by (nonlinear_arith)
        requires
            a.mantissa@ >= 0,
            b.mantissa@ >= 0,
            m == a.mantissa@ * b.mantissa@,
    ;
    reals::lemma_rpow_add(v as real, i, j);
    let u = integer::abs(v);
    let w = pow(u, i + j);
    lemma_rpow_abs(v as real, i + j);
    assert(reals::rabs(v as real) == u as real);
    lemma_pow_real(u, i + j);
    lemma_pow_increases(u as nat, i + j, total);
    lemma_pow_positive(u, i + j);
    let x = (m as real) * reals::rpow2(e);
    reals::lemma_rpow2_step(e);
    let mr = m as real;
    let p = reals::rpow2(e);
    assert(x >= 0real) by (nonlinear_arith)
        requires
            x == mr * p,
            mr >= 0real,
            p > 0real,
    ;
    assert(reals::rabs(float::scaled(sign, m, e)) == x);
    reals::lemma_rpow2_step(0);
    let wr = w as real;
    assert(wr * 1real == wr) by (nonlinear_arith);
    lemma_rounded_exact(f, f.prec as nat, sign, m, e, w, 0);
}

/// A rounded product of two powers is a power, with the errors added up.
proof fn lemma_power_product(
    r: real,
    v: real,
    w: real,
    x: real,
    m: nat,
    n: nat,
    u: real,
    j: nat,
    k: nat,
    prec: int,
)
    requires
        0real < u <= 1real,
        u == reals::rpow2(-prec),
        power_near(v, x, m, u, j),
        power_near(w, x, n, u, k),
        float::near(r, v * w, prec),
    ensures
        power_near(r, x, m + n, u, j + k + 1),
{
    let s = choose|t: real|
        v == reals::rpow(x, m) * t && reals::rpow(1real - u, j) <= t <= #[trigger] rpow_at_most(u, j, t);
    let t = choose|t: real|
        w == reals::rpow(x, n) * t && reals::rpow(1real - u, k) <= t <= #[trigger] rpow_at_most(u, k, t);
    let a = reals::rpow(x, m);
    let b = reals::rpow(x, n);
    let p = v * w;
    // r = p * c with |c - 1| <= u.
    let c = if p == 0real { 1real } else { r / p };
    assert(r == p * c && 1real - u <= c <= 1real + u) by {
        if p == 0real {
            assert(0real * u == 0real) by (nonlinear_arith);
        } else if p > 0real {
            assert(r == p * c && 1real - u <= c <= 1real + u) by (nonlinear_arith)
                requires
                    p > 0real,
                    c == r / p,
                    -(p * u) <= r - p <= p * u,
            ;
        } else {
            assert(r == p * c && 1real - u <= c <= 1real + u) by (nonlinear_arith)
                requires
                    p < 0real,
                    c == r / p,
                    -((-p) * u) <= r - p <= (-p) * u,
            ;
        }
    }
    reals::lemma_rpow_add(x, m, n);
    let q = (s * t) * c;
    assert(r == (a * b) * q) by (nonlinear_arith)
        requires
            r == p * c,
            p == v * w,
            v == a * s,
            w == b * t,
            q == (s * t) * c,
    {
        assert((a * s) * (b * t) == (a * b) * (s * t));
        assert(((a * b) * (s * t)) * c == (a * b) * ((s * t) * c));
    }
    let lo = 1real - u;
    let hi = 1real + u;
    reals::lemma_rpow_add(lo, j, k);
    reals::lemma_rpow_add(lo, j + k, 1);
    reals::lemma_rpow_add(hi, j, k);
    reals::lemma_rpow_add(hi, j + k, 1);
    assert(reals::rpow(lo, 1) == lo && reals::rpow(hi, 1) == hi) by {
        reveal_with_fuel(reals::rpow, 2);
        assert(lo * 1real == lo && hi * 1real == hi) by (nonlinear_arith);
    }
    reals::lemma_rpow_monotone(lo, hi, j);
    reals::lemma_rpow_monotone(lo, hi, k);
    reals::lemma_rpow_monotone(lo, hi, j + k);
    let a1 = reals::rpow(lo, j);
    let a2 = reals::rpow(lo, k);
    let b1 = reals::rpow(hi, j);
    let b2 = reals::rpow(hi, k);
    let st = s * t;
    assert(a1 * a2 <= st <= b1 * b2) by (nonlinear_arith)
        requires
            0real <= a1 <= s <= b1,
            0real <= a2 <= t <= b2,
            st == s * t,
    ;
    let l = a1 * a2;
    let h = b1 * b2;
    assert(l * lo <= st * c <= h * hi) by (nonlinear_arith)
        requires
            0real <= l <= st <= h,
            0real <= lo <= c <= hi,
    ;
    assert(reals::rpow(lo, j + k + 1) <= q <= rpow_at_most(u, j + k + 1, q));
}

/// The relative errors of a power keep its magnitude within powers of two.
pub proof fn lemma_power_range(v: real, x: real, n: nat, u: real, k: nat, l: int)
    requires
        0real < u <= 1real / 2real,
        power_near(v, x, n, u, k),
        reals::rpow2(-l) <= reals::rabs(x) < reals::rpow2(l),
        k <= n,
    ensures
        reals::rpow2(-((l + 1) * n)) <= reals::rabs(v) <= reals::rpow2((l + 1) * n),
{
    let t = choose|t: real|
        v == reals::rpow(x, n) * t && reals::rpow(1real - u, k) <= t <= #[trigger] rpow_at_most(u, k, t);
    reals::lemma_rpow2_step(-l);
    lemma_rpow_abs(x, n);
    reals::lemma_rpow_monotone(reals::rpow2(-l), reals::rabs(x), n);
    reals::lemma_rpow_monotone(reals::rabs(x), reals::rpow2(l), n);
    reals::lemma_rpow_pow2(-l, n);
    reals::lemma_rpow_pow2(l, n);
    assert((-l) * n == -(l * n)) by (nonlinear_arith);
    reals::lemma_rpow2_step(-1);
    reals::lemma_rpow2_step(0);
    reals::lemma_rpow_monotone(reals::rpow2(-1), 1real - u, k);
    reals::lemma_rpow_monotone(1real + u, reals::rpow2(1), k);
    reals::lemma_rpow_pow2(-1, k);
    reals::lemma_rpow_pow2(1, k);
    reals::lemma_rpow2_monotone(-(n as int), -(k as int));
    reals::lemma_rpow2_monotone(k as int, n as int);
    reals::lemma_rpow2_add(-(l * n), -(n as int));
    reals::lemma_rpow2_add(l * n, n as int);
    assert((l + 1) * n == l * n + n) by (nonlinear_arith);
    let a = reals::rabs(reals::rpow(x, n));
    newton::lemma_rabs_multiplies(reals::rpow(x, n), t);
    let a1 = reals::rpow2(-(l * n));
    let a2 = reals::rpow2(l * n);
    let b1 = reals::rpow2(-(n as int));
    let b2 = reals::rpow2(n as int);
    reals::lemma_rpow2_step(-(l * n));
    reals::lemma_rpow2_step(-(n as int));
    assert(a1 * b1 <= a * t <= a2 * b2) by (nonlinear_arith)
        requires
            0real < a1 <= a <= a2,
            0real < b1 <= t <= b2,
    ;
}

/// The absolute value of a power.
proof fn lemma_rpow_abs(x: real, n: nat)
    ensures
        reals::rabs(reals::rpow(x, n)) == reals::rpow(reals::rabs(x), n),
    decreases n,
{
    if n > 0 {
        lemma_rpow_abs(x, (n - 1) as nat);
        newton::lemma_rabs_multiplies(x, reals::rpow(x, (n - 1) as nat));
    }
}

impl Float {
    /// In-place `self^exp`, by squaring and multiplying.
    ///
    /// The result is the power up to at most `exp` relative errors of `2^-prec`,
    /// and the power itself where every partial power is an integer that fits
    /// the precision.
    #[verifier::rlimit(60)]
    #[verifier::spinoff_prover]
    pub fn pow_assign_integer(&mut self, exp: &Integer)
        requires
            old(self).wf(),
            exp.wf(),
            exp@ >= 0,
            old(self).prec / 16 + 64 <= limbs::limb_limit(),
            exp@ * (integer::abs(old(self).top()) + 3) <= 0x0a00_0000_0000_0000,
        ensures
            is_power(*old(self), exp@ as nat, *final(self)),
    {
        let prec: u64 = self.prec;
        proof {
            limbs::lemma_limb_limit();
            integer::lemma_zero(*exp);
        }
        let ghost v = self.floor();
        let ghost fits = power_fits(*self, exp@ as nat);
        proof {
            law_floor(*self);
            float::lemma_val_zero(*self);
        }
        if exp.is_zero() {
            *self = Float::with_val_64(prec, 1u32);
            proof {
                lemma_pow0(integer::abs(v));
                lemma_pow0(v);
                if fits {
                    if prec == 0 {
                        lemma2_to64();
                    }
                    lemma_one(*self, prec as nat);
                }
            }
            return;
        }
        if self.is_zero() {
            // A power of zero is zero.
            proof {
                if fits {
                    lemma_pow_real(v, exp@ as nat);
                    reveal_with_fuel(reals::rpow, 2);
                }
            }
            return;
        }
        let ghost x = self.val();
        let ghost p = prec as int;
        let ghost u = reals::rpow2(-p);
        let ghost e0 = self.exp as int;
        let ghost l = integer::abs(self.top()) + 1;
        let ghost total = exp@;
        let mut result: Float = Float::with_val_64(prec, 1u32);
        let mut base: Float = self.clone();
        let bits: u64 = exp.bits();
        let mut i: u64 = 0;
        let ghost mut done: nat = 0;
        let ghost mut step: nat = 1;
        proof {
            newton::lemma_val_bounds(*self);
            bitlen::lemma_bit_len(self.mantissa@);
            assert(p >= 1);
            reals::lemma_rpow2_monotone(-l, e0 + bitlen::bit_len(self.mantissa@) - 1);
            reals::lemma_rpow2_monotone(e0 + bitlen::bit_len(self.mantissa@), l);
            reals::lemma_rpow2_monotone(-p, -1);
            reals::lemma_rpow2_step(-1);
            reals::lemma_rpow2_step(-p);
            lemma_one(result, prec as nat);
            // Both start without errors.
            reveal_with_fuel(reals::rpow, 2);
            assert(x * 1real == x) by (nonlinear_arith);
            assert(1real * 1real == 1real) by (nonlinear_arith);
            assert(1real <= rpow_at_most(u, 0, 1real));
            assert(power_near(result.val(), x, 0, u, 0));
            assert(power_near(base.val(), x, 1, u, 0));
            bitlen::lemma_bit_len(total);
            lemma2_to64();
            assert(total % 1 == 0);
        }
        while i < bits
            invariant
                i <= bits,
                self.wf(),
                exp.wf(),
                exp@ == total > 0,
                bits == bitlen::bit_len(total),
                total < pow2(bits as nat),
                bits >= 1 ==> pow2((bits - 1) as nat) <= total,
                integer::abs(exp@) == limbs::value(exp.limbs@),
                prec == p >= 1,
                u == reals::rpow2(-p),
                0real < u <= 1real / 2real,
                l >= 1,
                total * (l + 2) <= 0x0a00_0000_0000_0000,
                p / 16 + 64 <= limbs::limb_limit() <= 0x0010_0000_0000_0000,
                reals::rpow2(-l) <= reals::rabs(x) < reals::rpow2(l),
                result.wf(),
                base.wf(),
                result.prec == prec,
                base.prec == prec,
                result.mantissa@ > 0,
                base.mantissa@ > 0,
                done == total % (pow2(i as nat) as int),
                i < bits ==> step == pow2(i as nat),
                1 <= step <= total,
                done <= total,
                power_near(result.val(), x, done, u, done),
                power_near(base.val(), x, step, u, (step - 1) as nat),
                fits ==> v != 0 && x == v as real && pow(integer::abs(v), total as nat) < pow2(
                    prec as nat,
                ),
                fits ==> result.val() == reals::rpow(x, done),
                fits ==> base.val() == reals::rpow(x, step),
            decreases bits - i,
        {
            proof {
                lemma_power_range(base.val(), x, step, u, (step - 1) as nat, l);
                lemma_power_range(result.val(), x, done, u, done, l);
                let bb = (l + 1) * step;
                let rb = (l + 1) * done;
                assert(0 <= bb <= total * (l + 2)) by (nonlinear_arith)
                    requires
                        bb == (l + 1) * step,
                        1 <= step <= total,
                        l >= 1,
                ;
                assert(0 <= rb <= total * (l + 2)) by (nonlinear_arith)
                    requires
                        rb == (l + 1) * done,
                        0 <= done <= total,
                        l >= 1,
                ;
                reals::lemma_rpow2_step(bb);
                reals::lemma_rpow2_step(rb);
                newton::lemma_exp_bounds(base, -bb, bb + 1);
                newton::lemma_exp_bounds(result, -rb, rb + 1);
                bitlen::lemma_low_bits_next(total, i as nat);
                rounding::lemma_round_error(result.mantissa@ * base.mantissa@, prec as nat);
                rounding::lemma_round_error(base.mantissa@ * base.mantissa@, prec as nat);
                let rm = result.mantissa@;
                let bm = base.mantissa@;
                assert(rm * bm > 0 && bm * bm > 0) by (nonlinear_arith)
                    requires
                        rm > 0,
                        bm > 0,
                ;
            }
            let bit: u64 = bit_at(&exp.limbs, i);
            proof {
                assert(1 * pow2(i as nat) == pow2(i as nat));
                assert(0 * pow2(i as nat) == 0);
                lemma_pow2_pos((i + 1) as nat);
                lemma_mod_bound(total, pow2((i + 1) as nat) as int);
                lemma_mod_decreases(total as nat, pow2((i + 1) as nat));
            }
            if bit == 1 {
                let ghost r0 = result.val();
                let ghost before = result;
                result = result.mul_at_prec(&base, prec);
                proof {
                    if fits {
                        lemma_exact_step(result, before, base, v, done, step, total as nat);
                    }
                    lemma_power_product(
                        result.val(),
                        r0,
                        base.val(),
                        x,
                        done,
                        step,
                        u,
                        done,
                        (step - 1) as nat,
                        p,
                    );
                    assert(done + (step - 1) as nat + 1 == done + step);
                    done = done + step;
                }
            }
            if i + 1 < bits {
                let ghost b0 = base.val();
                let ghost before = base;
                base = base.mul_at_prec(&base, prec);
                proof {
                    if fits {
                        lemma_next_power(total, i as nat, bits as nat);
                        lemma_exact_step(base, before, before, v, step, step, total as nat);
                    }
                    lemma_power_product(
                        base.val(),
                        b0,
                        b0,
                        x,
                        step,
                        step,
                        u,
                        (step - 1) as nat,
                        (step - 1) as nat,
                        p,
                    );
                    lemma_pow2_unfold((i + 1) as nat);
                    if i + 1 < bits - 1 {
                        lemma_pow2_strictly_increases((i + 1) as nat, (bits - 1) as nat);
                    }
                    assert((step - 1) as nat + (step - 1) as nat + 1 == (step + step - 1) as nat);
                    step = step + step;
                }
            }
            i = i + 1;
        }
        proof {
            lemma_small_mod(total as nat, pow2(bits as nat));
            float::lemma_val_zero(result);
            if fits {
                lemma_pow_real(v, total as nat);
            }
        }
        *self = result;
    }
}

/// Powers of two below the bit length of a number are at most the number.
proof fn lemma_next_power(total: int, i: nat, bits: nat)
    requires
        i + 1 < bits,
        pow2((bits - 1) as nat) <= total,
    ensures
        pow2(i) + pow2(i) <= total,
{
    lemma_pow2_unfold(i + 1);
    if i + 1 < bits - 1 {
        lemma_pow2_strictly_increases(i + 1, (bits - 1) as nat);
    }
}

/// One, as a floating-point number.
pub proof fn lemma_one(f: Float, prec: nat)
    requires
        prec >= 1,
        f.is_rounded(prec, false, 1, 0),
    ensures
        f.val() == 1real,
        f.mantissa@ == 1,
{
    lemma2_to64();
    bitlen::lemma_bit_len_unique(1, 1);
    reals::lemma_rpow2_step(0);
    assert(1real * 1real == 1real) by (nonlinear_arith);
}

/// The product does not depend on the order of the factors, and is zero exactly
/// where a factor is.
pub proof fn law_product(a: Float, b: Float, prec: nat, r: Float, s: Float)
    requires
        a.wf(),
        b.wf(),
        prec >= 1,
        r.is_rounded(prec, a.sign != b.sign, a.mantissa@ * b.mantissa@, a.exp + b.exp),
        s.is_rounded(prec, b.sign != a.sign, b.mantissa@ * a.mantissa@, b.exp + a.exp),
    ensures
        r.prec == s.prec && r.sign == s.sign && r.exp == s.exp,
        integer::same(r.mantissa, s.mantissa),
        r.val() == 0real <==> a.val() == 0real || b.val() == 0real,
{
    lemma_mul_is_commutative(a.mantissa@, b.mantissa@);
    integer::lemma_unique(r.mantissa, s.mantissa);
    let m = a.mantissa@ * b.mantissa@;
    assert(m >= 0 && (m == 0 <==> a.mantissa@ == 0 || b.mantissa@ == 0)) by (nonlinear_arith)
        requires
            m == a.mantissa@ * b.mantissa@,
            a.mantissa@ >= 0,
            b.mantissa@ >= 0,
    ;
    rounding::lemma_round_error(m, prec);
    float::lemma_val_zero(a);
    float::lemma_val_zero(b);
    float::lemma_val_zero(r);
}

/// The product is exact where it is an integer of at most `prec` bits times a
/// power of two.
pub proof fn law_product_exact(a: Float, b: Float, prec: nat, r: Float, w: int, k: int)
    requires
        a.wf(),
        b.wf(),
        r.is_rounded(prec, a.sign != b.sign, a.mantissa@ * b.mantissa@, a.exp + b.exp),
        0 <= w < pow2(prec),
        reals::rabs(a.val() * b.val()) == (w as real) * reals::rpow2(k),
    ensures
        r.val() == a.val() * b.val(),
{
    let m = a.mantissa@ * b.mantissa@;
    let e = a.exp + b.exp;
    assert(m >= 0) by (nonlinear_arith)
        requires
            m == a.mantissa@ * b.mantissa@,
            a.mantissa@ >= 0,
            b.mantissa@ >= 0,
    ;
    float::lemma_scaled_product(
        a.sign,
        a.mantissa@,
        a.exp as int,
        b.sign,
        b.mantissa@,
        b.exp as int,
    );
    reals::lemma_rpow2_step(e);
    let mr = m as real;
    let p = reals::rpow2(e);
    assert(mr * p >= 0real) by (nonlinear_arith)
        requires
            mr >= 0real,
            p > 0real,
    ;
    lemma_rounded_exact(r, prec, a.sign != b.sign, m, e, w, k);
}

/// What converts to a floating-point number keeps its value.
pub proof fn law_conversions(a: u64, b: u32, c: i64, d: i32, n: Integer, f: Float)
    ensures
        float::scaled(a.float_sign(), a.float_mantissa(), a.float_exp()) == a as real,
        float::scaled(b.float_sign(), b.float_mantissa(), b.float_exp()) == b as real,
        float::scaled(c.float_sign(), c.float_mantissa(), c.float_exp()) == c as real,
        float::scaled(d.float_sign(), d.float_mantissa(), d.float_exp()) == d as real,
        float::scaled(n.float_sign(), n.float_mantissa(), n.float_exp()) == n@ as real,
        float::scaled(f.float_sign(), f.float_mantissa(), f.float_exp()) == f.val(),
{
    reals::lemma_rpow2_step(0);
    let x = integer::abs(n@) as real;
    assert(x * 1real == x) by (nonlinear_arith);
    let (p, q) = (a as real, b as real);
    assert(p * 1real == p && q * 1real == q) by (nonlinear_arith);
    let (r, s) = (integer::abs(c as int) as real, integer::abs(d as int) as real);
    assert(r * 1real == r && s * 1real == s) by (nonlinear_arith);
}

/// The bit patterns of binary64: one is `0x3ff0000000000000`, the next pattern is
/// one unit of the mantissa more, a step of the exponent field of a normal number
/// doubles it, and the topmost bit is the sign alone.
pub proof fn law_f64_bits(b: u64)
    requires
        b < 0x7fe0_0000_0000_0000,
    ensures
        ({
            let one = F64Bits(0x3ff0_0000_0000_0000);
            &&& one.convertible()
            &&& !one.float_sign()
            &&& one.float_mantissa() == 0x10_0000_0000_0000
            &&& one.float_exp() == -52
        }),
        F64Bits(0).float_mantissa() == 0,
        F64Bits(b).convertible(),
        !F64Bits(b).float_sign(),
        b % 0x10_0000_0000_0000 < 0xf_ffff_ffff_ffff ==> F64Bits((b + 1) as u64).float_mantissa()
            == F64Bits(b).float_mantissa() + 1 && F64Bits((b + 1) as u64).float_exp() == F64Bits(
            b,
        ).float_exp(),
        b >= 0x10_0000_0000_0000 ==> {
            let c = F64Bits((b + 0x10_0000_0000_0000) as u64);
            c.float_mantissa() == F64Bits(b).float_mantissa() && c.float_exp() == F64Bits(
                b,
            ).float_exp() + 1
        },
        b < 0x10_0000_0000_0000 ==> F64Bits(b).float_mantissa() == b && F64Bits(b).float_exp()
            == -1074,
        ({
            let m = F64Bits((b + 0x8000_0000_0000_0000) as u64);
            &&& m.float_sign()
            &&& m.convertible()
            &&& m.float_mantissa() == F64Bits(b).float_mantissa()
            &&& m.float_exp() == F64Bits(b).float_exp()
        }),
        forall|k: u64|
            0x7ff0_0000_0000_0000 <= k < 0x8000_0000_0000_0000 ==> !(#[trigger] F64Bits(
                k,
            ).convertible()),
{
}

/// A power: one for the exponent zero, exact where it is an integer that fits, and
/// else off by a relative error of at most `2n` units in the last place.
pub proof fn law_power(x: Float, n: nat, r: Float)
    requires
        x.wf(),
        x.prec >= 1,
        is_power(x, n, r),
        (n as real) * reals::rpow2(-(x.prec as int)) <= 1real / 2real,
    ensures
        r.prec == x.prec,
        (x.floor() as real) == x.val() && pow(integer::abs(x.floor()), n) < pow2(x.prec as nat)
            ==> r.val() == pow(x.floor(), n) as real,
        n == 0 ==> r.val() == 1real,
        n > 0 && x.mantissa@ == 0 ==> r.mantissa@ == 0,
        n > 0 && x.mantissa@ != 0 ==> {
            let p = reals::rpow(x.val(), n);
            let e = 2real * ((n as real) * reals::rpow2(-(x.prec as int)));
            reals::rabs(r.val() - p) <= reals::rabs(p) * e
        },
{
    let u = reals::rpow2(-(x.prec as int));
    reals::lemma_rpow2_step(-(x.prec as int));
    law_floor(x);
    if n == 0 {
        let s = float::law_rounded(r, x.prec as nat, false, 1, 0);
        lemma_pow2_pos(x.prec as nat);
        lemma2_to64();
        if x.prec > 1 {
            lemma_pow2_strictly_increases(1, x.prec as nat);
        }
        assert(s == 0 && r.mantissa@ == 1);
        reals::lemma_rpow2_step(0);
    } else if x.mantissa@ != 0 {
        reals::lemma_rpow2_monotone(-(x.prec as int), 0);
        reals::lemma_rpow2_step(0);
        let p = reals::rpow(x.val(), n);
        let t = choose|t: real|
            r.val() == reals::rpow(x.val(), n) * t && reals::rpow(1real - u, n) <= t
                <= #[trigger] rpow_at_most(u, n, t);
        reals::lemma_rpow_error(u, n);
        let nu = (n as real) * u;
        assert(nu >= 0real) by (nonlinear_arith)
            requires
                nu == (n as real) * u,
                (n as real) >= 0real,
                u > 0real,
        ;
        let d = t - 1real;
        assert(-(2real * nu) <= d <= 2real * nu);
        assert(r.val() - p == p * d) by (nonlinear_arith)
            requires
                r.val() == p * t,
                d == t - 1real,
        ;
        let a = reals::rabs(p);
        let e = 2real * nu;
        assert(p * d <= a * e && -(p * d) <= a * e) by (nonlinear_arith)
            requires
                -e <= d <= e,
                e >= 0real,
                a >= 0real,
                a == p || a == -p,
        ;
    }
}

} // verus!
