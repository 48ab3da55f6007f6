//! Hexadecimal digits of pi at any position, by the Bailey-Borwein-Plouffe
//! formula: pi is the sum over `k` of
//! `16^-k * (4 / (8k + 1) - 2 / (8k + 4) - 1 / (8k + 5) - 1 / (8k + 6))`.
//!
//! Times `16^n` and modulo one, the terms up to `n` are quotients of a modular
//! power, and a few terms beyond `n`, added up in double precision, suffice.
//! Fractions are held as multiples of `2^-64`.
use crate::accuracy;
use crate::bitlen;
use crate::double;
use crate::double::Double;
use crate::limbs::low_limb;
use crate::reals;
use vstd::arithmetic::div_mod::*;
use vstd::arithmetic::mul::*;
use vstd::arithmetic::power2::*;
use vstd::arithmetic::power::*;
use vstd::prelude::*;

verus! {

/// `2^64`, the unit of the fractions.
pub open spec fn unit() -> int {
    0x1_0000_0000_0000_0000
}

/// The last position whose denominators fit 64 bits.
pub const MAX_POSITION: u64 = 0x1fff_ffff_ffff_ffeb;

/// `16^exp` modulo `m`, by squaring and multiplying.
pub fn mod_pow_16(exp: u64, m: u64) -> (r: u64)
    requires
        m >= 1,
    ensures
        r as int == pow(16, exp as nat) % (m as int),
{
    if m == 1 {
        proof {
            lemma_mod_bound(pow(16, exp as nat), 1);
        }
        return 0;
    }
    let wide: u128 = m as u128;
    let ghost mi = m as int;
    let mut result: u128 = 1;
    let mut base: u128 = 16 % wide;
    let mut e: u64 = exp;
    let ghost mut done: nat = 0;
    let ghost mut step: nat = 1;
    proof {
        lemma_pow0(16);
        lemma_pow1(16);
        lemma_small_mod(1, m as nat);
    }
    while e > 0
        invariant
            wide == m,
            mi == m as int,
            mi > 1,
            result < m,
            base < m,
            result as int == pow(16, done) % mi,
            e > 0 ==> base as int == pow(16, step) % mi,
            done + step * e == exp,
        decreases e,
    {
        let bit: u64 = e % 2;
        let half: u64 = e / 2;
        let ghost done0 = done as int;
        if bit == 1 {
            proof {
                lemma_pow_adds(16, done, step);
                lemma_mul_mod_noop_general(pow(16, done), pow(16, step), mi);
                lemma_fits(result as int, base as int, mi);
                done = done + step;
            }
            result = (result * base) % wide;
        }
        e = half;
        if e > 0 {
            proof {
                lemma_pow_adds(16, step, step);
                lemma_mul_mod_noop_general(pow(16, step), pow(16, step), mi);
                lemma_fits(base as int, base as int, mi);
            }
            base = (base * base) % wide;
        }
        proof {
            let s0 = step as int;
            step = step + step;
            assert(done + step * half == exp) by (nonlinear_arith)
                requires
                    exp == done0 + s0 * (2 * half + bit),
                    done == done0 + s0 * bit,
                    step == 2 * s0,
            ;
        }
    }
    proof {
        assert(step * 0 == 0);
    }
    result as u64
}

/// Products of numbers below a limb fit two limbs.
proof fn lemma_fits(a: int, b: int, m: int)
    requires
        0 <= a < m,
        0 <= b < m,
        m <= 0x1_0000_0000_0000_0000,
    ensures
        0 <= a * b < 0x1_0000_0000_0000_0000_0000_0000_0000_0000,
{
    assert(0 <= a * b < 0x1_0000_0000_0000_0000 * 0x1_0000_0000_0000_0000) by (nonlinear_arith)
        requires
            0 <= a < m,
            0 <= b < m,
            m <= 0x1_0000_0000_0000_0000,
    ;
}

/// The denominator of term `k`.
pub open spec fn denom(j: int, k: int) -> int {
    8 * k + j
}

/// Term `k <= n` as a fraction: `16^(n - k)` modulo the denominator, over the
/// denominator, rounded down.
pub open spec fn head_term(j: int, n: int, k: int) -> int {
    (unit() * (pow(16, (n - k) as nat) % denom(j, k))) / denom(j, k)
}

/// Term `n + o` in double precision: one over `16^o` times the denominator.
pub open spec fn tail_term(j: int, n: int, o: int) -> Double {
    Double::quotient(
        Double { mant: 1, exp: 0 },
        Double::of(denom(j, n + o), 0).scaled(4 * o),
    )
}

/// The terms `0..m`.
pub open spec fn head_sum(j: int, n: int, m: nat) -> int
    decreases m,
{
    if m == 0 {
        0
    } else {
        head_sum(j, n, (m - 1) as nat) + head_term(j, n, m - 1)
    }
}

/// The terms `n + 1..n + m + 1`, added up in double precision.
pub open spec fn tail_sum(j: int, n: int, m: nat) -> Double
    decreases m,
{
    if m == 0 {
        Double { mant: 0, exp: 0 }
    } else {
        Double::sum(tail_sum(j, n, (m - 1) as nat), tail_term(j, n, m as int))
    }
}

/// Terms beyond `n` that are added up.
pub const TAIL_TERMS: u32 = 20;

/// The fractional part of the sum over `k` of `16^(n - k) / (8k + j)`.
pub open spec fn fixed_series(j: int, n: int) -> int {
    (head_sum(j, n, (n + 1) as nat) + tail_sum(j, n, TAIL_TERMS as nat).whole(64)) % unit()
}

/// Add the terms `from..to` of the head to `start`, modulo one.
fn add_head(j: u64, n: u64, from: u64, to: u64, start: u64) -> (r: u64)
    requires
        1 <= j <= 6,
        n <= MAX_POSITION,
        from <= to <= n + 1,
        start as int == head_sum(j as int, n as int, from as nat) % unit(),
    ensures
        r as int == head_sum(j as int, n as int, to as nat) % unit(),
{
    let mut sum: u64 = start;
    let mut k: u64 = from;
    let ghost ji = j as int;
    let ghost ni = n as int;
    while k < to
        invariant
            1 <= j <= 6,
            n <= MAX_POSITION,
            ji == j as int,
            ni == n as int,
            k <= to <= n + 1,
            sum as int == head_sum(ji, ni, k as nat) % unit(),
        decreases to - k,
    {
        let d: u64 = 8 * k + j;
        let power: u64 = mod_pow_16(n - k, d);
        proof {
            lemma_mod_bound(pow(16, (n - k) as nat), d as int);
            lemma_quotient_fits(power as int, d as int);
        }
        let term: u128 = (power as u128 * 0x1_0000_0000_0000_0000) / d as u128;
        proof {
            lemma_mul_is_commutative(power as int, unit());
            lemma_add_mod_noop(head_sum(ji, ni, k as nat), term as int, unit());
            lemma_small_mod(term as nat, unit() as nat);
        }
        sum = low_limb(sum as u128 + term);
        k += 1;
    }
    sum
}

/// Add the tail to the whole head, modulo one.
fn add_tail(j: u64, n: u64, head: u64) -> (r: u64)
    requires
        1 <= j <= 6,
        n <= MAX_POSITION,
        head as int == head_sum(j as int, n as int, (n + 1) as nat) % unit(),
    ensures
        r as int == fixed_series(j as int, n as int),
{
    let ghost ji = j as int;
    let ghost ni = n as int;
    let mut tail: Double = Double { mant: 0, exp: 0 };
    let mut o: u32 = 0;
    while o < TAIL_TERMS
        invariant
            1 <= j <= 6,
            n <= MAX_POSITION,
            ji == j as int,
            ni == n as int,
            o <= 20,
            tail == tail_sum(ji, ni, o as nat),
            tail_shape(tail, o as nat),
        decreases TAIL_TERMS - o,
    {
        proof {
            lemma_tail_value(ji, ni, (o + 1) as nat);
        }
        o += 1;
        let d: u64 = 8 * (n + o as u64) + j;
        let rounded: Double = Double::from_u64(d);
        let scaled: Double = Double { mant: rounded.mant, exp: rounded.exp + 4 * o as i32 };
        let term: Double = Double { mant: 1, exp: 0 }.over(scaled);
        tail = tail.plus(term);
    }
    proof {
        lemma_tail_fits(ji, ni);
    }
    let rest: u64 = tail.to_whole(64);
    proof {
        lemma_add_mod_noop(head_sum(ji, ni, (n + 1) as nat), rest as int, unit());
        lemma_small_mod(rest as nat, unit() as nat);
    }
    low_limb(head as u128 + rest as u128)
}

/// The fractional part of the sum over `k` of `16^(n - k) / (8k + j)`, as a
/// multiple of `2^-64`.
pub fn series_fixed(j: u64, n: u64) -> (r: u64)
    requires
        1 <= j <= 6,
        n <= MAX_POSITION,
    ensures
        r as int == fixed_series(j as int, n as int),
{
    proof {
        lemma_small_mod(0, unit() as nat);
    }
    let head: u64 = add_head(j, n, 0, n + 1, 0);
    add_tail(j, n, head)
}

/// A fraction below one is below the unit.
proof fn lemma_quotient_fits(p: int, d: int)
    requires
        0 <= p < d,
        d <= 0x1_0000_0000_0000_0000,
    ensures
        0 <= (unit() * p) / d < unit(),
        0 <= p * unit() < 0x1_0000_0000_0000_0000_0000_0000_0000_0000,
{
    let x = unit() * p;
    assert(0 <= x < unit() * d) by (nonlinear_arith)
        requires
            x == unit() * p,
            0 <= p < d,
            unit() > 0,
    ;
    lemma_div_pos_is_pos(x, d);
    lemma_div_by_multiple_is_strongly_ordered(x, unit() * d, unit(), d);
    lemma_div_multiples_vanish(unit(), d);
    lemma_mul_is_commutative(unit(), d);
    lemma_mul_is_commutative(unit(), p);
}

/// `4 * S(1) - 2 * S(4) - S(5) - S(6)` modulo one.
pub open spec fn fixed_pi(n: int) -> int {
    (4 * fixed_series(1, n) - 2 * fixed_series(4, n) - fixed_series(5, n) - fixed_series(6, n))
        % unit()
}

/// Eight hexadecimal digits of pi after the point, from position `n` on, the
/// first in the topmost nibble: the top 32 bits of the fraction.
pub fn hex_digits_at(n: u64) -> (r: u32)
    requires
        n <= MAX_POSITION,
    ensures
        r as int == fixed_pi(n as int) / 0x1_0000_0000,
        r * 4_294_967_296 <= fixed_pi(n as int) < (r + 1) * 4_294_967_296,
{
    let s1: u64 = series_fixed(1, n);
    let s4: u64 = series_fixed(4, n);
    let s5: u64 = series_fixed(5, n);
    let s6: u64 = series_fixed(6, n);
    // Four units more keep the difference from going below zero.
    let total: u128 = 4 * (s1 as u128) + 0x4_0000_0000_0000_0000 - 2 * (s4 as u128) - s5 as u128
        - s6 as u128;
    let combined: u64 = low_limb(total);
    proof {
        let x = 4 * s1 - 2 * s4 - s5 - s6;
        lemma_mod_multiples_vanish(4, x, unit());
        assert(unit() * 4 + x == total as int);
    }
    (combined / 0x1_0000_0000) as u32
}

/// The series of the formula, in order.
pub open spec fn series_at(i: int) -> int {
    if i == 0 {
        1
    } else {
        i + 3
    }
}

/// The part of the formula that the first `i` series make up.
pub open spec fn partial_pi(n: int, i: int) -> int {
    let a = if i > 0 { 4 * fixed_series(1, n) } else { 0 };
    let b = if i > 1 { -2 * fixed_series(4, n) } else { 0 };
    let c = if i > 2 { -fixed_series(5, n) } else { 0 };
    let d = if i > 3 { -fixed_series(6, n) } else { 0 };
    a + b + c + d
}

/// The digits at one position, worked out in steps, so that the work can be given
/// up between two of them.
#[derive(Debug)]
pub struct DigitSearch {
    /// The position.
    pub n: u64,
    /// Series that are complete, of four.
    pub series: u64,
    /// Terms of the next series that have been added up.
    pub k: u64,
    /// Their sum, modulo one.
    pub sum: u64,
    /// What the complete series make up, modulo one.
    pub total: u64,
}

impl DigitSearch {
    /// The sums are those of the work that has been done.
    pub open spec fn wf(&self) -> bool {
        &&& self.n <= MAX_POSITION
        &&& self.series <= 4
        &&& self.k <= self.n
        &&& self.series == 4 ==> self.k == 0
        &&& self.series < 4 ==> self.sum == head_sum(
            series_at(self.series as int),
            self.n as int,
            self.k as nat,
        ) % unit()
        &&& self.total == partial_pi(self.n as int, self.series as int) % unit()
    }

    /// Nothing has been done yet.
    pub fn start(n: u64) -> (s: DigitSearch)
        requires
            n <= MAX_POSITION,
        ensures
            s.wf(),
            s.n == n,
            s.series == 0,
            s.k == 0,
    {
        proof {
            lemma_small_mod(0, unit() as nat);
        }
        DigitSearch { n, series: 0, k: 0, sum: 0, total: 0 }
    }

    /// Add up to `terms` terms of the next series; the digits, where that was the
    /// last of the work.
    pub fn advance(&mut self, terms: u64) -> (r: Option<u32>)
        requires
            old(self).wf(),
        ensures
            final(self).wf(),
            final(self).n == old(self).n,
            old(self).series < 4 && old(self).k + terms <= old(self).n ==> final(self).series == old(
                self,
            ).series && final(self).k == old(self).k + terms,
            old(self).series < 4 && old(self).k + terms > old(self).n ==> final(self).series == old(
                self,
            ).series + 1 && final(self).k == 0,
            old(self).series == 4 ==> final(self).series == 4,
            r is Some <==> final(self).series == 4,
            r matches Some(d) ==> d == fixed_pi(old(self).n as int) / 0x1_0000_0000,
    {
        if self.series < 4 {
            let n: u64 = self.n;
            let j: u64 = if self.series == 0 { 1 } else { self.series + 3 };
            if terms <= n - self.k {
                self.sum = add_head(j, n, self.k, self.k + terms, self.sum);
                self.k = self.k + terms;
            } else {
                let head: u64 = add_head(j, n, self.k, n + 1, self.sum);
                let s: u64 = add_tail(j, n, head);
                // Two units more keep the difference from going below zero.
                let next: u128 = if self.series == 0 {
                    self.total as u128 + 4 * (s as u128)
                } else if self.series == 1 {
                    self.total as u128 + 0x2_0000_0000_0000_0000 - 2 * (s as u128)
                } else {
                    self.total as u128 + 0x2_0000_0000_0000_0000 - s as u128
                };
                proof {
                    let part = partial_pi(n as int, self.series as int);
                    let whole = partial_pi(n as int, self.series + 1);
                    lemma_add_mod_noop(part, whole - part, unit());
                    lemma_add_mod_noop(self.total as int, whole - part, unit());
                    lemma_small_mod(self.total as nat, unit() as nat);
                    let x = self.total + (whole - part);
                    lemma_mod_multiples_vanish(2, x, unit());
                    assert(next == x || next == unit() * 2 + x);
                    assert(next as int % unit() == whole % unit());
                    lemma_small_mod(0, unit() as nat);
                }
                self.total = low_limb(next);
                self.series = self.series + 1;
                self.k = 0;
                self.sum = 0;
            }
        }
        if self.series == 4 {
            Some((self.total / 0x1_0000_0000) as u32)
        } else {
            None
        }
    }
}

/// `2^64` times the terms `0..m` of the sum over `k` of `16^(n - k) / (8k + j)`.
pub open spec fn exact_head(j: int, n: int, m: nat) -> real
    decreases m,
{
    if m == 0 {
        0real
    } else {
        exact_head(j, n, (m - 1) as nat) + ((unit() * pow(16, (n - (m - 1)) as nat)) as real) / (
        denom(j, m - 1) as real)
    }
}

/// `2^64` times the terms `n + 1..n + m + 1` of that sum.
pub open spec fn exact_tail(j: int, n: int, m: nat) -> real
    decreases m,
{
    if m == 0 {
        0real
    } else {
        exact_tail(j, n, (m - 1) as nat) + (unit() as real) / ((pow(16, m) * denom(j, n + m)) as real)
    }
}

/// `2^64` times the first `n + 21` terms of the sum over `k` of
/// `16^(n - k) / (8k + j)`.
pub open spec fn exact_series(j: int, n: int) -> real {
    exact_head(j, n, (n + 1) as nat) + exact_tail(j, n, TAIL_TERMS as nat)
}

/// `x` without `m` whole units.
pub open spec fn without_units(x: real, m: int) -> real {
    x - ((m * unit()) as real)
}

/// `f` is `x` up to whole units and an error between zero and `e`.
pub open spec fn is_fraction_of(f: int, x: real, e: int) -> bool {
    exists|m: int|
        (f as real) <= #[trigger] without_units(x, m) && without_units(x, m) <= (f + e) as real
}

/// Rounding down, over the reals.
proof fn lemma_floor_real(a: int, d: int)
    requires
        d > 0,
    ensures
        ((a / d) as real) <= (a as real) / (d as real) <= ((a / d) as real) + 1real,
{
    lemma_fundamental_div_mod(a, d);
    lemma_mod_bound(a, d);
    let q = a / d;
    let r = a % d;
    reals::lemma_int_product(d, q);
    let x = (a as real) / (d as real);
    let dr = d as real;
    let qr = q as real;
    let rr = r as real;
    assert(x * dr == a as real) by (nonlinear_arith)
        requires
            x == (a as real) / dr,
            dr > 0real,
    ;
    assert(qr <= x <= qr + 1real) by (nonlinear_arith)
        requires
            x * dr == dr * qr + rr,
            0real <= rr <= dr,
            dr > 0real,
    ;
}

/// One term of the head: whole units apart, its rounded-down fraction.
proof fn lemma_head_term(p: int, d: int)
    requires
        p >= 0,
        d > 0,
    ensures
        ({
            let f = (unit() * (p % d)) / d;
            let x = without_units(((unit() * p) as real) / (d as real), p / d);
            (f as real) <= x <= (f as real) + 1real
        }),
{
    lemma_fundamental_div_mod(p, d);
    let q = p / d;
    let r = p % d;
    lemma_floor_real(unit() * r, d);
    let u = unit();
    assert(u * p == d * (q * u) + u * r) by (nonlinear_arith)
        requires
            p == d * q + r,
    ;
    reals::lemma_int_product(d, q * u);
    let a = (u * p) as real;
    let b = (u * r) as real;
    let dr = d as real;
    let w = (q * u) as real;
    assert(a / dr == w + b / dr) by (nonlinear_arith)
        requires
            a == dr * w + b,
            dr > 0real,
    ;
}

/// The head: the fractions added up are the exact terms up to whole units and
/// one unit in the last place for each term.
proof fn lemma_head_accuracy(j: int, n: int, m: nat) -> (c: int)
    requires
        j >= 1,
        m <= n + 1,
    ensures
        (head_sum(j, n, m) as real) <= without_units(exact_head(j, n, m), c) <= (head_sum(j, n, m)
            as real) + (m as real),
    decreases m,
{
    if m == 0 {
        0
    } else {
        let k = m - 1;
        let c0 = lemma_head_accuracy(j, n, k as nat);
        let p = pow(16, (n - k) as nat);
        lemma_pow_positive(16, (n - k) as nat);
        lemma_head_term(p, denom(j, k));
        let q = p / denom(j, k);
        assert((c0 + q) * unit() == c0 * unit() + q * unit()) by (nonlinear_arith);
        c0 + q
    }
}

/// The size of a partial sum of the tail.
pub open spec fn tail_shape(d: Double, m: nat) -> bool {
    &&& d.wf()
    &&& -300 <= d.exp <= 2 * m
    &&& d.mant > 0 || m == 0
}

/// Inverses of close numbers are close.
proof fn lemma_inverse_within(x: real, y: real, u: real)
    requires
        0real < u <= 1real / 10000real,
        accuracy::within(x, y, 1real, u),
    ensures
        x > 0real,
        accuracy::within(1real / x, 1real / y, 2real, u),
{
    assert(1real * u == u) by (nonlinear_arith);
    let yu = y * u;
    assert(yu <= y / 10000real) by (nonlinear_arith)
        requires
            yu == y * u,
            u <= 1real / 10000real,
            y > 0real,
    ;
    let (p, q) = (1real / x, 1real / y);
    assert(p * x == 1real) by (nonlinear_arith)
        requires
            p == 1real / x,
            x > 0real,
    ;
    assert(q * y == 1real && q > 0real) by (nonlinear_arith)
        requires
            q == 1real / y,
            y > 0real,
    ;
    // q * x is between 1 - u and 1 + u.
    accuracy::lemma_mul_le(y - yu, x, q);
    accuracy::lemma_mul_le(x, y + yu, q);
    let z = q * x;
    assert(q * (y - yu) == 1real - u && q * (y + yu) == 1real + u) by (nonlinear_arith)
        requires
            q * y == 1real,
            yu == y * u,
    ;
    // p is q / z.
    assert(p * z == q) by (nonlinear_arith)
        requires
            z == q * x,
            p * x == 1real,
    ;
    let e = 2real * u;
    let qe = q * e;
    assert(q - qe <= p) by (nonlinear_arith)
        requires
            p * z == q,
            0real < z <= 1real + u,
            qe == q * e,
            e == 2real * u,
            0real < u <= 1real / 10000real,
            q > 0real,
    ;
    assert(p <= q + qe) by (nonlinear_arith)
        requires
            p * z == q,
            z >= 1real - u,
            qe == q * e,
            e == 2real * u,
            0real < u <= 1real / 10000real,
            q > 0real,
    ;
}

/// One term of the tail, times the unit.
proof fn lemma_tail_term(j: int, n: int, o: nat)
    requires
        1 <= j <= 6,
        0 <= n <= MAX_POSITION,
        1 <= o <= 20,
    ensures
        tail_term(j, n, o as int).wf(),
        tail_term(j, n, o as int).mant > 0,
        -300 <= tail_term(j, n, o as int).exp <= 0,
        accuracy::within(
            tail_term(j, n, o as int).value() * (unit() as real),
            (unit() as real) / ((pow(16, o) * denom(j, n + o)) as real),
            6real,
            reals::rpow2(-53),
        ),
{
    let d = denom(j, n + o);
    let u = reals::rpow2(-53);
    lemma_small_unit();
    lemma2_to64();
    bitlen::lemma_bit_len_at_most(d, 64);
    double::lemma_of_value(d, 0);
    let r = Double::of(d, 0);
    let b = r.scaled(4 * o as int);
    reals::lemma_rpow2_step(0);
    let dr = d as real;
    assert(dr * 1real == dr) by (nonlinear_arith);
    // Times 16^o.
    let w = reals::rpow2(4 * o as int);
    reals::lemma_rpow2_add(r.exp as int, 4 * o as int);
    reals::lemma_rpow2_step(4 * o as int);
    reals::lemma_real_assoc(r.mant as real, reals::rpow2(r.exp as int), w);
    accuracy::lemma_within_scale(r.value(), dr, 1real, u, w);
    assert(b.value() == r.value() * w);
    lemma_sixteen(o);
    reals::lemma_int_product(pow(16, o), d);
    let p = pow(16, o) as real;
    reals::lemma_real_comm(dr, w);
    let x = (pow(16, o) * d) as real;
    assert(x == dr * w);
    // Inverted.
    double::lemma_inverse_value(b);
    lemma_inverse_within(b.value(), x, u);
    let q = tail_term(j, n, o as int);
    accuracy::lemma_within_chain(q.value(), 1real / b.value(), 1real / x, 3real, 2real, u);
    let k = unit() as real;
    accuracy::lemma_within_scale(q.value(), 1real / x, 6real, u, k);
    assert((1real / x) * k == k / x) by (nonlinear_arith)
        requires
            x > 0real,
    ;
}

/// `16^o` as a power of two.
proof fn lemma_sixteen(o: nat)
    ensures
        reals::rpow2(4 * o as int) == pow(16, o) as real,
        pow(16, o) > 0,
    decreases o,
{
    lemma_pow_positive(16, o);
    if o == 0 {
        lemma_pow0(16);
        reals::lemma_rpow2_step(0);
    } else {
        let m = (o - 1) as nat;
        lemma_sixteen(m);
        lemma_pow_adds(16, m, 1);
        lemma_pow1(16);
        reals::lemma_int_product(pow(16, m), 16);
        reals::lemma_rpow2_add(4 * m as int, 4);
        lemma2_to64();
    }
}

/// The rounding unit of double precision is small.
proof fn lemma_small_unit()
    ensures
        0real < reals::rpow2(-53) <= 1real / 9_000_000_000_000_000real,
{
    reals::lemma_rpow2_nat(53);
    reals::lemma_rpow2_step(-53);
    lemma2_to64_rest();
    let (u, k) = (reals::rpow2(-53), pow2(53) as real);
    assert(u <= 1real / 9_000_000_000_000_000real) by (nonlinear_arith)
        requires
            u * k == 1real,
            k == 9_007_199_254_740_992real,
    ;
}

/// Sums of close numbers are close.
proof fn lemma_within_sum(a: real, x: real, b: real, y: real, k: real, u: real)
    requires
        accuracy::within(a, x, k, u),
        accuracy::within(b, y, 6real, u),
        k >= 6real,
        u > 0real,
    ensures
        accuracy::within(a + b, x + y, k, u),
{
    let e = k * u;
    accuracy::lemma_mul_le(6real, k, u);
    accuracy::lemma_mul_le(6real * u, e, y);
    reals::lemma_real_distrib(x, y, e);
}

/// The tail in double precision, times the unit: each term and each addition is
/// rounded.
proof fn lemma_tail_value(j: int, n: int, m: nat)
    requires
        1 <= j <= 6,
        0 <= n <= MAX_POSITION,
        1 <= m <= 20,
    ensures
        tail_shape(tail_sum(j, n, m), m),
        tail_shape(tail_sum(j, n, (m - 1) as nat), (m - 1) as nat),
        tail_term(j, n, m as int).wf(),
        -300 <= tail_term(j, n, m as int).exp <= 0,
        accuracy::within(
            tail_sum(j, n, m).value() * (unit() as real),
            exact_tail(j, n, m),
            (6 + 2 * m) as real,
            reals::rpow2(-53),
        ),
    decreases m,
{
    let u = reals::rpow2(-53);
    let k = unit() as real;
    lemma_small_unit();
    lemma_tail_term(j, n, m);
    let a = tail_sum(j, n, (m - 1) as nat);
    let b = tail_term(j, n, m as int);
    let c = tail_sum(j, n, m);
    let y = k / ((pow(16, m) * denom(j, n + m)) as real);
    if m == 1 {
        assert(a == (Double { mant: 0, exp: 0 }));
        double::lemma_sum_value(a, b);
        reals::lemma_rpow2_step(0);
        assert(a.value() == 0real) by (nonlinear_arith)
            requires
                a.value() == 0real * reals::rpow2(0),
        ;
        accuracy::lemma_within_scale(c.value(), b.value(), 1real, u, k);
        accuracy::lemma_within_chain(c.value() * k, b.value() * k, y, 1real, 6real, u);
        assert(exact_tail(j, n, 0) == 0real);
    } else {
        let l = (m - 1) as nat;
        lemma_tail_value(j, n, l);
        double::lemma_sum_value(a, b);
        accuracy::lemma_within_scale(c.value(), a.value() + b.value(), 1real, u, k);
        reals::lemma_real_distrib(a.value(), b.value(), k);
        let x = exact_tail(j, n, l);
        let z = (6 + 2 * l) as real;
        lemma_within_sum(a.value() * k, x, b.value() * k, y, z, u);
        accuracy::lemma_within_chain(
            c.value() * k,
            a.value() * k + b.value() * k,
            x + y,
            1real,
            z,
            u,
        );
        assert(1real + z + 1real == (6 + 2 * m) as real);
    }
}

/// The exact tail is a small part of the unit.
proof fn lemma_exact_tail(j: int, n: int, m: nat)
    requires
        1 <= j,
        0 <= n,
    ensures
        0real <= exact_tail(j, n, m),
        exact_tail(j, n, m) + (unit() as real) / (135real * (pow(16, m) as real)) <= (unit() as real)
            / 135real,
    decreases m,
{
    lemma_pow_positive(16, m);
    let k = unit() as real;
    let p = pow(16, m) as real;
    if m == 0 {
        lemma_pow0(16);
        assert(135real * p == 135real);
    } else {
        let l = (m - 1) as nat;
        lemma_exact_tail(j, n, l);
        lemma_pow_adds(16, l, 1);
        lemma_pow1(16);
        lemma_pow_positive(16, l);
        reals::lemma_int_product(pow(16, l), 16);
        let g = pow(16, l) as real;
        assert(p == 16real * g);
        let d = denom(j, n + m);
        reals::lemma_int_product(pow(16, m), d);
        let dr = d as real;
        assert(dr >= 9real);
        // The term is at most k / (9 * p).
        let v = k / p;
        assert(v * p == k && v > 0real) by (nonlinear_arith)
            requires
                v == k / p,
                p > 0real,
                k > 0real,
        ;
        let t = k / (p * dr);
        let pd = p * dr;
        assert(pd > 0real) by (nonlinear_arith)
            requires
                pd == p * dr,
                p > 0real,
                dr >= 9real,
        ;
        assert(t * pd == k) by (nonlinear_arith)
            requires
                t == k / pd,
                pd > 0real,
        ;
        assert(t * dr == v) by (nonlinear_arith)
            requires
                t * pd == k,
                pd == p * dr,
                v * p == k,
                p > 0real,
        ;
        assert(0real <= 9real * t <= v) by (nonlinear_arith)
            requires
                t * dr == v,
                dr >= 9real,
                v > 0real,
        ;
        // k / (135 * g) is 16 / 135 of v.
        assert(k / (135real * g) == (16real / 135real) * v) by (nonlinear_arith)
            requires
                v * p == k,
                p == 16real * g,
                g > 0real,
        ;
        assert(k / (135real * p) == v / 135real) by (nonlinear_arith)
            requires
                v * p == k,
                p > 0real,
        ;
    }
}

/// The integer part of a double, over the reals.
proof fn lemma_whole_value(d: Double, k: int)
    requires
        -0x1000 <= k <= 0x1000,
        -0x1000 <= d.exp <= 0x1000,
    ensures
        (d.whole(k) as real) <= d.value() * reals::rpow2(k) < (d.whole(k) as real) + 1real,
        d.whole(k) >= 0,
{
    let e = d.exp + k;
    reals::lemma_rpow2_add(d.exp as int, k);
    let m = d.mant as real;
    reals::lemma_real_assoc(m, reals::rpow2(d.exp as int), reals::rpow2(k));
    if e >= 0 {
        reals::lemma_rpow2_nat(e as nat);
        reals::lemma_int_product(d.mant as int, pow2(e as nat) as int);
        lemma_mul_nonnegative(d.mant as int, pow2(e as nat) as int);
    } else {
        let s = (-e) as nat;
        lemma_pow2_pos(s);
        let p = pow2(s) as int;
        lemma_fundamental_div_mod(d.mant as int, p);
        lemma_mod_bound(d.mant as int, p);
        lemma_div_pos_is_pos(d.mant as int, p);
        let q = d.mant as int / p;
        reals::lemma_int_product(p, q);
        reals::lemma_rpow2_nat(s);
        let (w, pr, qr) = (reals::rpow2(e as int), p as real, q as real);
        let r = (d.mant as int % p) as real;
        assert(m == pr * qr + r);
        reals::lemma_rpow2_step(e as int);
        assert(qr <= m * w < qr + 1real) by (nonlinear_arith)
            requires
                m == pr * qr + r,
                w * pr == 1real,
                0real <= r < pr,
                w > 0real,
        ;
    }
}

proof fn lemma_mul_nonnegative(a: int, b: int)
    requires
        a >= 0,
        b >= 0,
    ensures
        a * b >= 0,
{
    assert(a * b >= 0) by (nonlinear_arith)
        requires
            a >= 0,
            b >= 0,
    ;
}

/// The tail in units: within 720 of the exact one, and below the unit.
proof fn lemma_tail_fits(j: int, n: int)
    requires
        1 <= j <= 6,
        0 <= n <= MAX_POSITION,
    ensures
        ({
            let f = tail_sum(j, n, TAIL_TERMS as nat).whole(64);
            let x = exact_tail(j, n, TAIL_TERMS as nat);
            &&& 0 <= f < unit()
            &&& (f as real) - 720real <= x <= (f as real) + 721real
        }),
{
    let m = TAIL_TERMS as nat;
    let t = tail_sum(j, n, m);
    let x = exact_tail(j, n, m);
    let u = reals::rpow2(-53);
    let k = unit() as real;
    lemma_tail_value(j, n, m);
    lemma_exact_tail(j, n, m);
    lemma_pow_positive(16, m);
    lemma_small_unit();
    let p = pow(16, m) as real;
    assert(k / (135real * p) >= 0real) by (nonlinear_arith)
        requires
            k > 0real,
            p > 0real,
    ;
    assert(x <= k / 135real);
    let e = 46real * u;
    assert((6 + 2 * m) as real == 46real);
    accuracy::lemma_mul_le_both(x, k / 135real, e, 46real / 9_000_000_000_000_000real);
    assert((k / 135real) * (46real / 9_000_000_000_000_000real) <= 720real);
    lemma_whole_value(t, 64);
    lemma2_to64();
    assert(reals::rpow2(64) == k);
}

/// One series: its fraction is exact up to one unit in the last place for each
/// of the `n + 1` terms of the head, and 720 units for the rounding of the tail.
pub proof fn law_series_accuracy(j: int, n: int)
    requires
        1 <= j <= 6,
        0 <= n <= MAX_POSITION,
    ensures
        is_fraction_of(fixed_series(j, n) - 720, exact_series(j, n), n + 1442),
{
    let c = lemma_head_accuracy(j, n, (n + 1) as nat);
    lemma_tail_fits(j, n);
    let f = fixed_series(j, n) - 720;
    let t = head_sum(j, n, (n + 1) as nat) + tail_sum(j, n, TAIL_TERMS as nat).whole(64);
    lemma_fundamental_div_mod(t, unit());
    let q = t / unit();
    let x = exact_series(j, n);
    assert((c + q) * unit() == c * unit() + unit() * q) by (nonlinear_arith);
    let y = without_units(x, c + q);
    assert((f as real) <= y <= (f + (n + 1442)) as real);
}

/// `2^64 * 16^n` times the first `n + 21` terms of the formula for pi.
pub open spec fn exact_pi(n: int) -> real {
    4real * exact_series(1, n) - 2real * exact_series(4, n) - exact_series(5, n) - exact_series(6, n)
}

/// The fraction behind the digits: up to whole units and `4 * (n + 1442)` units in
/// the last place either way, it is the formula for pi times `16^n`.
pub proof fn law_hex_accuracy(n: int)
    requires
        0 <= n <= MAX_POSITION,
    ensures
        is_fraction_of(fixed_pi(n) - 4 * (n + 1442), exact_pi(n), 8 * (n + 1442)),
{
    law_series_accuracy(1, n);
    law_series_accuracy(4, n);
    law_series_accuracy(5, n);
    law_series_accuracy(6, n);
    let e = n + 1442;
    let (f1, f4, f5, f6) = (
        fixed_series(1, n),
        fixed_series(4, n),
        fixed_series(5, n),
        fixed_series(6, n),
    );
    let (x1, x4, x5, x6) = (
        exact_series(1, n),
        exact_series(4, n),
        exact_series(5, n),
        exact_series(6, n),
    );
    let m1 = choose|m: int|
        ((f1 - 720) as real) <= #[trigger] without_units(x1, m) && without_units(x1, m) <= (f1 - 720
            + (n + 1442)) as real;
    let m4 = choose|m: int|
        ((f4 - 720) as real) <= #[trigger] without_units(x4, m) && without_units(x4, m) <= (f4 - 720
            + (n + 1442)) as real;
    let m5 = choose|m: int|
        ((f5 - 720) as real) <= #[trigger] without_units(x5, m) && without_units(x5, m) <= (f5 - 720
            + (n + 1442)) as real;
    let m6 = choose|m: int|
        ((f6 - 720) as real) <= #[trigger] without_units(x6, m) && without_units(x6, m) <= (f6 - 720
            + (n + 1442)) as real;
    let t = 4 * f1 - 2 * f4 - f5 - f6;
    lemma_fundamental_div_mod(t, unit());
    let q = t / unit();
    let m = 4 * m1 - 2 * m4 - m5 - m6 + q;
    assert(m * unit() == 4 * (m1 * unit()) - 2 * (m4 * unit()) - m5 * unit() - m6 * unit() + unit()
        * q) by (nonlinear_arith)
        requires
            m == 4 * m1 - 2 * m4 - m5 - m6 + q,
    ;
    let y = without_units(exact_pi(n), m);
    let f = fixed_pi(n) - 4 * e;
    assert((f as real) <= y <= (f + 8 * e) as real);
}

/// The terms of the head, one position on.
proof fn lemma_head_next(j: int, n: int, m: nat)
    requires
        1 <= j,
        m <= n + 1,
    ensures
        exact_head(j, n + 1, m) == 16real * exact_head(j, n, m),
    decreases m,
{
    if m > 0 {
        lemma_head_next(j, n, (m - 1) as nat);
        let e = (n - (m - 1)) as nat;
        lemma_pow_adds(16, 1, e);
        lemma_pow1(16);
        let a = unit() * pow(16, e);
        assert(unit() * pow(16, e + 1) == 16 * a) by (nonlinear_arith)
            requires
                pow(16, e + 1) == 16 * pow(16, e),
                a == unit() * pow(16, e),
        ;
        let d = denom(j, m - 1) as real;
        let ar = a as real;
        let b = (16 * a) as real;
        assert(b == 16real * ar);
        assert(b / d == 16real * (ar / d)) by (nonlinear_arith)
            requires
                b == 16real * ar,
                d > 0real,
        ;
        let h = exact_head(j, n, (m - 1) as nat);
        let t = ar / d;
        assert(16real * h + 16real * t == 16real * (h + t));
    }
}

/// The terms of the tail, one position on: the first of them joins the head.
proof fn lemma_tail_next(j: int, n: int, m: nat)
    requires
        1 <= j,
        0 <= n,
    ensures
        16real * exact_tail(j, n, m + 1) == (unit() as real) / (denom(j, n + 1) as real) + exact_tail(
            j,
            n + 1,
            m,
        ),
    decreases m,
{
    let k = unit() as real;
    let d = denom(j, n + m + 1);
    lemma_pow_adds(16, 1, m);
    lemma_pow1(16);
    lemma_pow_positive(16, m);
    let g = pow(16, m) * d;
    assert(pow(16, m + 1) * d == 16 * g && g > 0) by (nonlinear_arith)
        requires
            pow(16, m + 1) == 16 * pow(16, m),
            g == pow(16, m) * d,
            pow(16, m) > 0,
            d > 0,
    ;
    let gr = g as real;
    assert((16 * g) as real == 16real * gr);
    assert(16real * (k / (16real * gr)) == k / gr) by (nonlinear_arith)
        requires
            gr > 0real,
    ;
    reveal_with_fuel(exact_tail, 2);
    if m == 0 {
        lemma_pow0(16);
        assert(1 * d == d);
    } else {
        lemma_tail_next(j, n, (m - 1) as nat);
    }
}

/// One series, one position on: what is new is less than a thousandth of a unit
/// in the last place.
proof fn lemma_series_next(j: int, n: int)
    requires
        1 <= j,
        0 <= n,
    ensures
        0real <= exact_series(j, n + 1) - 16real * exact_series(j, n) <= 1real / 1000real,
{
    let k = unit() as real;
    lemma_head_next(j, n, (n + 1) as nat);
    lemma_tail_next(j, n, 20);
    lemma_pow0(16);
    assert(unit() * 1 == unit());
    let d = denom(j, n + 21);
    lemma_sixteen(21);
    reals::lemma_rpow2_nat(84);
    lemma_pow2_adds(64, 20);
    lemma2_to64();
    lemma2_to64_rest();
    let p = pow(16, 21);
    assert(p == unit() * 0x10_0000);
    let g = p * d;
    assert(g >= unit() * 0x10_0000 * 160) by (nonlinear_arith)
        requires
            g == p * d,
            p == unit() * 0x10_0000,
            d >= 160,
            unit() > 0,
    ;
    let gr = g as real;
    let t = k / gr;
    assert(gr >= k * 167_772_160real);
    assert(0real <= 16real * t <= 1real / 1000real) by (nonlinear_arith)
        requires
            t == k / gr,
            gr >= k * 167_772_160real,
            k > 0real,
    {
        assert(t * gr == k);
        assert(t >= 0real);
        assert(t * (k * 167_772_160real) <= t * gr);
        assert((t * 167_772_160real) * k <= 1real * k);
        assert(t * 167_772_160real <= 1real);
    }
    let h = exact_head(j, n, (n + 1) as nat);
    let l = exact_tail(j, n, 20);
    assert(exact_tail(j, n, 21) == l + t);
    assert(16real * (l + t) == 16real * l + 16real * t);
    assert(16real * (h + l) == 16real * h + 16real * l);
}

/// Units in the last place that the fractions of neighbouring positions may be
/// apart.
pub open spec fn overlap_slack(n: int) -> int {
    68 * (n + 1443) + 1
}

/// `d` apart, and whole units.
pub open spec fn apart(d: int, m: int) -> int {
    d + m * unit()
}

/// The fraction at the next position is sixteen times the fraction, up to whole
/// units and the rounding of both.
pub proof fn law_next_fraction(n: int)
    requires
        0 <= n < MAX_POSITION,
    ensures
        exists|d: int, m: int|
            -overlap_slack(n) <= d <= overlap_slack(n) && fixed_pi(n + 1) == 16 * fixed_pi(n)
                + #[trigger] apart(d, m),
{
    law_hex_accuracy(n);
    law_hex_accuracy(n + 1);
    lemma_series_next(1, n);
    lemma_series_next(4, n);
    lemma_series_next(5, n);
    lemma_series_next(6, n);
    let (x, y) = (exact_pi(n), exact_pi(n + 1));
    let (f, g) = (fixed_pi(n), fixed_pi(n + 1));
    let e = n + 1442;
    let a = choose|m: int|
        ((f - 4 * e) as real) <= #[trigger] without_units(x, m) && without_units(x, m) <= (f - 4 * e
            + 8 * e) as real;
    let b = choose|m: int|
        ((g - 4 * (e + 1)) as real) <= #[trigger] without_units(y, m) && without_units(y, m) <= (g
            - 4 * (e + 1) + 8 * (e + 1)) as real;
    let m = 16 * a - b;
    let au = a * unit();
    let bu = b * unit();
    assert(m * unit() == 16 * au - bu) by (nonlinear_arith)
        requires
            m == 16 * a - b,
            au == a * unit(),
            bu == b * unit(),
    ;
    let d = g - 16 * f - m * unit();
    assert(-1real <= y - 16real * x <= 1real);
    assert((g - 4 * (e + 1)) as real <= y - (bu as real));
    assert(y - (bu as real) <= (g + 4 * (e + 1)) as real);
    assert((f - 4 * e) as real <= x - (au as real));
    assert(x - (au as real) <= (f + 4 * e) as real);
    assert((d as real) <= (overlap_slack(n) as real));
    assert(-(overlap_slack(n) as real) <= (d as real));
    assert(g == 16 * f + apart(d, m));
}

/// Neighbouring windows overlap in seven digits: the last seven digits at `n`
/// are the first seven at `n + 1`.
///
/// This holds where the window at `n + 1` is settled: where the bits of its
/// fraction beyond the first seven digits are further from a carry than the
/// rounding of the two fractions.
pub proof fn law_windows_overlap(n: int)
    requires
        0 <= n < MAX_POSITION,
        overlap_slack(n) <= fixed_pi(n + 1) % 0x10_0000_0000 < 0x10_0000_0000 - overlap_slack(n),
    ensures
        (fixed_pi(n) / 0x1_0000_0000) % 0x1000_0000 == (fixed_pi(n + 1) / 0x1_0000_0000) / 16,
{
    law_next_fraction(n);
    let (f, g) = (fixed_pi(n), fixed_pi(n + 1));
    let (d, m) = choose|d: int, m: int|
        -overlap_slack(n) <= d <= overlap_slack(n) && g == 16 * f + #[trigger] apart(d, m);
    lemma2_to64();
    assert(unit() == 0x1000_0000 * 0x10_0000_0000);
    assert(m * unit() == (m * 0x1000_0000) * 0x10_0000_0000) by (nonlinear_arith)
        requires
            unit() == 0x1000_0000 * 0x10_0000_0000,
    ;
    let t = m * 0x1000_0000;
    let q = g / 0x10_0000_0000;
    assert(g == 16 * f + d + t * 0x10_0000_0000);
    assert(f / 0x1_0000_0000 + t == q);
    assert(0 <= q < 0x1000_0000);
    assert((f / 0x1_0000_0000) % 0x1000_0000 == q) by {
        lemma_fundamental_div_mod_converse(f / 0x1_0000_0000, 0x1000_0000, -m, q);
    }
}

/// The denominators are one to six more than the multiples of eight.
pub proof fn law_denominator(j: int, k: int)
    ensures
        denom(j, k) == 8 * k + j,
{
}

/// Term `k` of the head is the fraction of `16^(n - k) / (8k + j)` in units of
/// `2^-64`, rounded down, and the head adds up one term after the other.
pub proof fn law_head_term(j: int, n: int, k: nat)
    requires
        1 <= j <= 6,
        k <= n,
    ensures
        ({
            let r = pow(16, (n - k) as nat) % (8 * k + j);
            let t = head_term(j, n, k as int);
            t * (8 * k + j) <= 18_446_744_073_709_551_616 * r < (t + 1) * (8 * k + j)
        }),
        head_sum(j, n, k + 1) - head_sum(j, n, k) == head_term(j, n, k as int),
        head_sum(j, n, 0) == 0,
{
    let d = 8 * k + j;
    let r = pow(16, (n - k) as nat) % d;
    let t = head_term(j, n, k as int);
    lemma_fundamental_div_mod(unit() * r, d);
    lemma_mod_bound(unit() * r, d);
    lemma_mul_is_commutative(t, d);
    lemma_mul_is_distributive_add_other_way(d, t, 1);
}

/// The exact sums have the terms `2^64 * 16^(n - k) / (8k + j)`, for `k` up to
/// `n` in the head, and for twenty more in the tail.
pub proof fn law_exact_terms(j: int, n: int, m: nat)
    requires
        1 <= j <= 6,
        0 <= n,
    ensures
        exact_head(j, n, 0) == 0real,
        exact_head(j, n, m + 1) - exact_head(j, n, m) == ((18_446_744_073_709_551_616 * pow(
            16,
            (n - m) as nat,
        )) as real) / ((8 * m + j) as real),
        exact_tail(j, n, 0) == 0real,
        exact_tail(j, n, m + 1) - exact_tail(j, n, m) == 18_446_744_073_709_551_616real / ((pow(
            16,
            m + 1,
        ) * (8 * (n + m + 1) + j)) as real),
        exact_series(j, n) == exact_head(j, n, (n + 1) as nat) + exact_tail(j, n, 20),
{
    assert(n - ((m + 1) - 1) == n - m);
}

/// The fraction that the digits are cut from is the formula: whole units apart,
/// it is `2^64` times the sum over `k` of `16^(n - k)` times
/// `4 / (8k + 1) - 2 / (8k + 4) - 1 / (8k + 5) - 1 / (8k + 6)`, but for an error of
/// at most `4 * (n + 1442)` units in the last place.
pub proof fn law_formula(n: int) -> (m: int)
    requires
        0 <= n <= MAX_POSITION,
    ensures
        0 <= fixed_pi(n) < 18_446_744_073_709_551_616,
        ({
            let x = 4real * exact_series(1, n) - 2real * exact_series(4, n) - exact_series(5, n)
                - exact_series(6, n);
            let f = x - ((m * 18_446_744_073_709_551_616) as real);
            ((fixed_pi(n) - 4 * (n + 1442)) as real) <= f <= ((fixed_pi(n) + 4 * (n + 1442)) as real)
        }),
{
    law_hex_accuracy(n);
    let x = exact_pi(n);
    let f = fixed_pi(n) - 4 * (n + 1442);
    lemma_mod_bound(
        4 * fixed_series(1, n) - 2 * fixed_series(4, n) - fixed_series(5, n) - fixed_series(6, n),
        unit(),
    );
    let m = choose|m: int|
        (f as real) <= #[trigger] without_units(x, m) && without_units(x, m) <= (f + 8 * (n
            + 1442)) as real;
    assert(without_units(x, m) == x - ((m * unit()) as real));
    m
}

/// A series is its head and twenty terms beyond it, modulo one; the formula takes
/// four of the first, and takes off two of the fourth, one of the fifth and one of
/// the sixth.
pub proof fn law_fixed_series(j: int, n: int)
    ensures
        fixed_series(j, n) == (head_sum(j, n, (n + 1) as nat) + tail_sum(j, n, 20).whole(64))
            % 18_446_744_073_709_551_616,
        fixed_pi(n) == (4 * fixed_series(1, n) - 2 * fixed_series(4, n) - fixed_series(5, n)
            - fixed_series(6, n)) % 18_446_744_073_709_551_616,
{
}

/// The terms beyond the head, in double precision: each is one over its rounded
/// denominator times `16^o`, and they are added one by one.
pub proof fn law_tail(j: int, n: int, o: nat)
    requires
        o >= 1,
    ensures
        tail_sum(j, n, 0).mant == 0,
        tail_sum(j, n, o) == Double::sum(tail_sum(j, n, (o - 1) as nat), tail_term(j, n, o as int)),
        tail_term(j, n, o as int) == Double::quotient(
            Double { mant: 1, exp: 0 },
            Double::of(8 * (n + o) + j, 0).scaled(4 * o as int),
        ),
{
}

/// Positions go as far as the denominators fit 64 bits.
pub proof fn law_last_position()
    ensures
        denom(6, MAX_POSITION + 20) <= u64::MAX,
        denom(6, MAX_POSITION + 21) > u64::MAX,
{
}

/// One whole number over another as so many times its inverse.
proof fn lemma_over(c: int, d: int)
    requires
        d > 0,
    ensures
        (c as real) / (d as real) == (c as real) * (1real / (d as real)),
{
    let (x, y) = (c as real, d as real);
    assert(x / y == x * (1real / y)) by (nonlinear_arith)
        requires
            y > 0real,
    ;
}

/// Term `k` of the whole formula: `2^64 * 16^(n - k)` times
/// `4 / (8k + 1) - 2 / (8k + 4) - 1 / (8k + 5) - 1 / (8k + 6)`.
pub proof fn law_formula_term(n: int, k: nat)
    requires
        k <= n,
    ensures
        ({
            let after = 4real * exact_head(1, n, k + 1) - 2real * exact_head(4, n, k + 1)
                - exact_head(5, n, k + 1) - exact_head(6, n, k + 1);
            let before = 4real * exact_head(1, n, k) - 2real * exact_head(4, n, k) - exact_head(
                5,
                n,
                k,
            ) - exact_head(6, n, k);
            after - before == ((18_446_744_073_709_551_616 * pow(16, (n - k) as nat)) as real) * (
            4real / ((8 * k + 1) as real) - 2real / ((8 * k + 4) as real) - 1real / ((8 * k
                + 5) as real) - 1real / ((8 * k + 6) as real))
        }),
{
    law_exact_terms(1, n, k);
    law_exact_terms(4, n, k);
    law_exact_terms(5, n, k);
    law_exact_terms(6, n, k);
    let c = 18_446_744_073_709_551_616 * pow(16, (n - k) as nat);
    lemma_over(c, 8 * k as int + 1);
    lemma_over(c, 8 * k as int + 4);
    lemma_over(c, 8 * k as int + 5);
    lemma_over(c, 8 * k as int + 6);
    lemma_over(4, 8 * k as int + 1);
    lemma_over(2, 8 * k as int + 4);
    let x = c as real;
    let (p, q, r, s) = (
        1real / ((8 * k + 1) as real),
        1real / ((8 * k + 4) as real),
        1real / ((8 * k + 5) as real),
        1real / ((8 * k + 6) as real),
    );
    assert(4real * (x * p) - 2real * (x * q) - x * r - x * s == x * (4real * p - 2real * q - r - s))
        by (nonlinear_arith);
}

} // verus!
