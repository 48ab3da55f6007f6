//! Double-precision arithmetic on integers.
//!
//! A positive double is a mantissa of at most 53 bits and a power of two.  The
//! operations round as the hardware does: to the nearest double, and halfway
//! cases to an even mantissa.
use crate::accuracy;
use crate::bitlen;
use crate::reals;
use crate::text;
use crate::text::{push_numeral, push_padded};
use vstd::arithmetic::div_mod::*;
use vstd::arithmetic::mul::*;
use vstd::arithmetic::power2::*;
use vstd::arithmetic::power::*;
use vstd::prelude::*;

verus! {

/// `x / 2^drop`, rounded to nearest with halves to even.
pub open spec fn round_even(x: int, drop: nat) -> int {
    let p = pow2(drop) as int;
    let q = x / p;
    let r = x % p;
    if 2 * r > p || (2 * r == p && q % 2 == 1) {
        q + 1
    } else {
        q
    }
}

/// Bits of `x` beyond the 53 of a double.
pub open spec fn double_drop(x: int) -> nat {
    if bitlen::bit_len(x) > 53 {
        (bitlen::bit_len(x) - 53) as nat
    } else {
        0
    }
}

/// Bits cut off until 53 are left.
pub proof fn lemma_drop(x: int, drop: nat)
    requires
        0 <= x,
        x / (pow2(drop) as int) < 0x20_0000_0000_0000,
        drop > 0 ==> x >= pow2(drop) * 0x10_0000_0000_0000,
    ensures
        drop == double_drop(x),
{
    lemma2_to64();
    lemma2_to64_rest();
    lemma_pow2_pos(drop);
    lemma_fundamental_div_mod(x, pow2(drop) as int);
    lemma_mod_bound(x, pow2(drop) as int);
    let p = pow2(drop) as int;
    let q = x / p;
    assert(x < p * 0x20_0000_0000_0000) by (nonlinear_arith)
        requires
            x == p * q + x % p,
            0 <= x % p < p,
            q < 0x20_0000_0000_0000,
    ;
    if drop == 0 {
        bitlen::lemma_bit_len_at_most(x, 53);
    } else {
        lemma_pow2_adds(drop, 52);
        lemma_pow2_adds(drop, 53);
        bitlen::lemma_bit_len_unique(x, drop + 53);
    }
}

/// A power of two up to `2^70` has an exponent up to 70.
proof fn lemma_exponent_small(e: nat)
    requires
        pow2(e) <= 0x40_0000_0000_0000_0000,
    ensures
        e <= 70,
{
    lemma2_to64();
    lemma2_to64_rest();
    lemma_pow2_adds(64, 6);
    if e > 70 {
        lemma_pow2_strictly_increases(70, e);
    }
}

/// The 53 leading bits of `x`, rounded; how many bits were cut off; and that
/// power of two.
pub fn round_to_double(x: u128) -> (r: (u64, u32, u128))
    requires
        x < 0x400_0000_0000_0000_0000_0000_0000_0000,
    ensures
        r.0 == round_even(x as int, double_drop(x as int)),
        r.1 == double_drop(x as int),
        r.2 == pow2(double_drop(x as int)),
        r.0 <= 0x20_0000_0000_0000,
        r.2 == 1 || x >= r.2 * 0x10_0000_0000_0000,
{
    let mut q: u128 = x;
    let mut p: u128 = 1;
    let ghost mut drop: nat = 0;
    let mut cut: u32 = 0;
    proof {
        lemma2_to64();
        lemma_div_basics(x as int);
        bitlen::lemma_bit_len(x as int);
    }
    while q >= 0x20_0000_0000_0000
        invariant
            x < 0x400_0000_0000_0000_0000_0000_0000_0000,
            p == pow2(drop),
            cut == drop,
            cut <= 71,
            q as int == x as int / pow2(drop) as int,
            p == 1 || x >= p * 0x10_0000_0000_0000,
            p <= 0x40_0000_0000_0000_0000,
            drop == 0 ==> p == 1,
            drop > 0 ==> x >= p * 0x10_0000_0000_0000,
        decreases q,
    {
        proof {
            lemma_exponent_small(drop);
            lemma_pow2_unfold(drop + 1);
            lemma_pow2_pos(drop);
            lemma_div_denominator(x as int, pow2(drop) as int, 2);
            lemma_fundamental_div_mod(x as int, pow2(drop) as int);
            lemma_mul_is_commutative(pow2(drop) as int, 2);
            assert(x >= p * 0x20_0000_0000_0000) by (nonlinear_arith)
                requires
                    x >= p * q,
                    q >= 0x20_0000_0000_0000,
                    p > 0,
            ;
            drop = drop + 1;
        }
        p = p * 2;
        q = q / 2;
        cut = cut + 1;
    }
    proof {
        lemma_pow2_pos(drop);
        lemma_fundamental_div_mod(x as int, pow2(drop) as int);
        lemma_mod_bound(x as int, pow2(drop) as int);
        lemma_mul_is_commutative(pow2(drop) as int, q as int);
        lemma_drop(x as int, drop);
    }
    let rem: u128 = x - q * p;
    proof {
        assert((q + 1) * p == q * p + p) by (nonlinear_arith);
        assert(p <= x + 1);
        assert(rem == x as int % pow2(drop) as int);
    }
    let rounded: u128 = if 2 * rem > p || (2 * rem == p && q % 2 == 1) {
        q + 1
    } else {
        q
    };
    (rounded as u64, cut, p)
}

/// A nonnegative double: `mant * 2^exp`.
#[derive(Debug, Clone, Copy)]
pub struct Double {
    pub mant: u64,
    pub exp: i32,
}

/// Bits by which `m` falls short of 53.
pub open spec fn shortfall(m: int) -> nat {
    if bitlen::bit_len(m) < 53 {
        (53 - bitlen::bit_len(m)) as nat
    } else {
        0
    }
}

/// The quotient of two mantissas, with a last bit that says whether it is exact:
/// enough bits to round.
pub open spec fn quotient_bits(a: int, b: int) -> int {
    let n = a * pow2(shortfall(a)) * 0x1_0000_0000_0000_0000;
    2 * (n / b) + if n % b == 0 { 0int } else { 1 }
}

impl Double {
    /// The mantissa has at most 53 bits, and the exponent leaves room for
    /// arithmetic.
    pub open spec fn wf(self) -> bool {
        &&& self.mant <= 0x20_0000_0000_0000
        &&& -0x1000_0000 <= self.exp <= 0x1000_0000
    }

    /// `x * 2^e` rounded.
    pub open spec fn of(x: int, e: int) -> Double {
        Double { mant: round_even(x, double_drop(x)) as u64, exp: (e + double_drop(x)) as i32 }
    }

    /// `a * b` rounded.
    pub open spec fn product(a: Double, b: Double) -> Double {
        Double::of(a.mant * b.mant, a.exp + b.exp)
    }

    /// `a / b` rounded.
    pub open spec fn quotient(a: Double, b: Double) -> Double {
        if a.mant == 0 {
            Double { mant: 0, exp: 0 }
        } else {
            Double::of(
                quotient_bits(a.mant as int, b.mant as int),
                a.exp - b.exp - shortfall(a.mant as int) - 65,
            )
        }
    }

    /// `a + b` rounded.
    pub open spec fn sum(a: Double, b: Double) -> Double {
        let e = if a.exp <= b.exp { a.exp as int } else { b.exp as int };
        Double::of(a.mant * pow2((a.exp - e) as nat) + b.mant * pow2((b.exp - e) as nat), e)
    }

    /// `self * 2^k`.
    pub open spec fn scaled(self, k: int) -> Double {
        Double { mant: self.mant, exp: (self.exp + k) as i32 }
    }

    /// The integer part of `self * 2^k`.
    pub open spec fn whole(self, k: int) -> int {
        if self.exp + k >= 0 {
            self.mant * pow2((self.exp + k) as nat)
        } else {
            self.mant as int / pow2((-(self.exp + k)) as nat) as int
        }
    }

    /// The number rounded up to an integer.
    pub open spec fn ceiling(self) -> int {
        if self.exp >= 0 {
            self.mant * pow2(self.exp as nat)
        } else {
            (self.mant + pow2((-self.exp) as nat) - 1) / pow2((-self.exp) as nat) as int
        }
    }

    /// The number.
    pub open spec fn value(self) -> real {
        (self.mant as real) * reals::rpow2(self.exp as int)
    }

    /// Whether `self` is below `other`.
    pub open spec fn below(self, other: Double) -> bool {
        let e = if self.exp <= other.exp { self.exp as int } else { other.exp as int };
        self.mant * pow2((self.exp - e) as nat) < other.mant * pow2((other.exp - e) as nat)
    }

    /// `self * 10^places`, rounded to an integer.
    pub open spec fn units(self, places: nat) -> int {
        if self.exp >= 0 {
            self.mant * pow(10, places) * pow2(self.exp as nat)
        } else {
            round_even(self.mant * pow(10, places), (-self.exp) as nat)
        }
    }

    /// The integer, rounded to a double.
    pub fn from_u64(n: u64) -> (d: Double)
        ensures
            d == Double::of(n as int, 0),
            d.wf(),
            0 <= d.exp <= 11,
            d.mant == 0 <==> n == 0,
    {
        let (mant, drop, p) = round_to_double(n as u128);
        proof {
            lemma_pow2_le(64, 64);
            lemma_drop_at_most(n as int, 64);
            lemma_rounded_zero(n as int);
        }
        Double { mant, exp: drop as i32 }
    }

    /// The product, rounded.
    pub fn times(self, other: Double) -> (d: Double)
        requires
            self.wf(),
            other.wf(),
            -0x100_0000 <= self.exp + other.exp <= 0x100_0000,
        ensures
            d == Double::product(self, other),
            d.wf(),
            self.exp + other.exp <= d.exp <= self.exp + other.exp + 54,
            other.mant <= 128 ==> d.exp <= self.exp + other.exp + 8,
            d.mant == 0 <==> self.mant * other.mant == 0,
    {
        proof {
            lemma_mul_bounds(self.mant as int, other.mant as int);
        }
        let x: u128 = self.mant as u128 * other.mant as u128;
        let (mant, drop, p) = round_to_double(x);
        proof {
            lemma_drop_at_most(x as int, 107);
            if other.mant <= 128 {
                lemma_drop_at_most(x as int, 61);
            }
            lemma_rounded_zero(x as int);
        }
        Double { mant, exp: self.exp + other.exp + drop as i32 }
    }

    /// The quotient, rounded.
    pub fn over(self, other: Double) -> (d: Double)
        requires
            self.wf(),
            other.wf(),
            other.mant > 0,
            -0x100_0000 <= self.exp - other.exp <= 0x100_0000,
        ensures
            d == Double::quotient(self, other),
            self.mant > 0 ==> ({
                let x = quotient_bits(self.mant as int, other.mant as int);
                d.mant == round_even(x, double_drop(x))
            }),
            d.wf(),
            self.mant > 0 ==> self.exp - other.exp - 118 <= d.exp <= self.exp - other.exp + 1,
            self.mant == 0 ==> d.exp == 0,
            d.mant == 0 <==> self.mant == 0,
    {
        if self.mant == 0 {
            return Double { mant: 0, exp: 0 };
        }
        let (m, short) = normalize(self.mant);
        let n: u128 = m as u128 * 0x1_0000_0000_0000_0000;
        let b: u128 = other.mant as u128;
        let q: u128 = n / b;
        let r: u128 = n % b;
        proof {
            lemma_quotient_size(n as int, b as int);
        }
        let x: u128 = if r == 0 { 2 * q } else { 2 * q + 1 };
        let (mant, drop, p) = round_to_double(x);
        proof {
            lemma_drop_at_most(x as int, 119);
            lemma_rounded_zero(x as int);
        }
        Double { mant, exp: self.exp - other.exp - short as i32 - 65 + drop as i32 }
    }

    /// The sum, rounded.
    pub fn plus(self, other: Double) -> (d: Double)
        requires
            self.wf(),
            other.wf(),
            -0x100_0000 <= self.exp <= 0x100_0000,
            -0x100_0000 <= other.exp <= 0x100_0000,
        ensures
            d == Double::sum(self, other),
            d.wf(),
            self.exp <= d.exp || other.exp <= d.exp,
            d.exp <= self.exp + 2 || d.exp <= other.exp + 2,
    {
        proof {
            lemma_pow2_zero();
        }
        if self.exp >= other.exp {
            assert((other.exp - other.exp) as nat == 0);
            assert(other.mant * 1 == other.mant);
            plus_smaller(self, other)
        } else {
            assert((self.exp - self.exp) as nat == 0);
            assert(self.mant * 1 == self.mant);
            plus_smaller(other, self)
        }
    }

    /// The integer part of the number times `2^k`, where it fits.
    pub fn to_whole(self, k: i32) -> (r: u64)
        requires
            self.wf(),
            -0x1000_0000 <= k <= 0x1000_0000,
            self.whole(k as int) <= u64::MAX,
        ensures
            r == self.whole(k as int),
    {
        let e: i32 = self.exp + k;
        if self.mant == 0 {
            proof {
                if e >= 0 {
                    assert(0 * pow2(e as nat) == 0);
                } else {
                    lemma_pow2_pos((-e) as nat);
                    lemma_div_of0(pow2((-e) as nat) as int);
                }
            }
            return 0;
        }
        if e >= 0 {
            proof {
                lemma2_to64();
                if e > 64 {
                    lemma_pow2_strictly_increases(64, e as nat);
                }
                assert(pow2(e as nat) <= self.mant * pow2(e as nat)) by (nonlinear_arith)
                    requires
                        self.mant >= 1,
                ;
            }
            let p: u128 = power_of_two(e as u32);
            assert(self.mant * p == self.whole(k as int));
            (self.mant as u128 * p) as u64
        } else if e >= -64 {
            let p: u128 = power_of_two((-e) as u32);
            proof {
                lemma_pow2_pos((-e) as nat);
                lemma_div_nonincreasing(self.mant as int, p as int);
            }
            (self.mant as u128 / p) as u64
        } else {
            proof {
                lemma2_to64();
                lemma_pow2_strictly_increases(64, (-e) as nat);
                lemma_basic_div(self.mant as int, pow2((-e) as nat) as int);
            }
            0
        }
    }

    /// The number rounded up to an integer.
    pub fn to_ceiling(self) -> (r: u128)
        requires
            self.wf(),
            -100 <= self.exp <= 64,
        ensures
            r == self.ceiling(),
    {
        if self.exp >= 0 {
            let p: u128 = power_of_two(self.exp as u32);
            proof {
                lemma2_to64();
                if self.exp < 64 {
                    lemma_pow2_strictly_increases(self.exp as nat, 64);
                }
                assert(self.mant * p <= 0x20_0000_0000_0000 * 0x1_0000_0000_0000_0000)
                    by (nonlinear_arith)
                    requires
                        self.mant <= 0x20_0000_0000_0000,
                        p <= 0x1_0000_0000_0000_0000,
                ;
            }
            self.mant as u128 * p
        } else {
            let p: u128 = power_of_two((-self.exp) as u32);
            proof {
                lemma_pow2_pos((-self.exp) as nat);
                lemma_pow2_adds(50, 50);
                lemma2_to64_rest();
                if -self.exp < 100 {
                    lemma_pow2_strictly_increases((-self.exp) as nat, 100);
                }
                assert(pow2(100) == 0x4_0000_0000_0000 * 0x4_0000_0000_0000);
            }
            (self.mant as u128 + (p - 1)) / p
        }
    }

    /// Whether `self` is below `other`.
    pub fn less(self, other: Double) -> (r: bool)
        requires
            self.wf(),
            other.wf(),
        ensures
            r == self.below(other),
    {
        if self.exp <= other.exp {
            proof {
                lemma_pow2_zero();
                assert((self.exp - self.exp) as nat == 0);
                assert(self.mant * 1 == self.mant);
            }
            shifted_above(other.mant, (other.exp - self.exp) as u32, self.mant)
        } else {
            proof {
                lemma_pow2_zero();
                assert((other.exp - other.exp) as nat == 0);
                assert(other.mant * 1 == other.mant);
            }
            !shifted_at_least(self.mant, (self.exp - other.exp) as u32, other.mant)
        }
    }

    /// Append the number with `places` digits after the point, rounded with
    /// halves to even.
    pub fn push_fixed(self, out: &mut String, places: u32)
        requires
            self.wf(),
            self.exp <= 57 || places <= 3 && self.exp <= 60,
            places <= 5,
        ensures
            final(out)@ == old(out)@ + fixed_text(self, places as nat),
    {
        let ghost start = out@;
        proof {
            lemma_tens();
        }
        let unit: u64 = if places == 0 {
            1
        } else if places == 1 {
            10
        } else if places == 2 {
            100
        } else if places == 3 {
            1000
        } else if places == 4 {
            10_000
        } else {
            100_000
        };
        let n: u128 = self.to_units(places, unit);
        push_numeral(out, n / unit as u128, 10);
        if places > 0 {
            out.push('.');
            let ghost mid = out@;
            push_padded(out, (n % unit as u128) as u64, 10, places);
            assert(out@ =~= start + fixed_text(self, places as nat));
        }
    }

    /// `self * unit`, rounded to an integer.
    fn to_units(self, places: u32, unit: u64) -> (n: u128)
        requires
            self.wf(),
            self.exp <= 57 || unit <= 1000 && self.exp <= 60,
            unit == pow(10, places as nat),
            1 <= unit <= 100_000,
        ensures
            n == self.units(places as nat),
    {
        proof {
            assert(0 <= self.mant * unit <= 0x20_0000_0000_0000 * unit) by (nonlinear_arith)
                requires
                    0 <= self.mant <= 0x20_0000_0000_0000,
                    0 <= unit,
            ;
        }
        let x: u128 = self.mant as u128 * unit as u128;
        if self.exp >= 0 {
            let p: u128 = power_of_two(self.exp as u32);
            proof {
                lemma_pow2_le(self.exp as nat, 60);
                if self.exp <= 57 {
                    lemma2_to64_rest();
                    if self.exp < 57 {
                        lemma_pow2_strictly_increases(self.exp as nat, 57);
                    }
                    assert(0 <= x * p <= 0x20_0000_0000_0000 * 100_000 * 0x200_0000_0000_0000)
                        by (nonlinear_arith)
                        requires
                            0 <= x <= 0x20_0000_0000_0000 * 100_000,
                            0 <= p <= 0x200_0000_0000_0000,
                    ;
                } else {
                    assert(0 <= x * p <= 0x20_0000_0000_0000 * 1000 * 0x1000_0000_0000_0000)
                        by (nonlinear_arith)
                        requires
                            0 <= x <= 0x20_0000_0000_0000 * 1000,
                            0 <= p <= 0x1000_0000_0000_0000,
                    ;
                }
            }
            x * p
        } else if self.exp < -100 {
            proof {
                lemma_round_small(x as int, (-self.exp) as nat);
            }
            0
        } else {
            let p: u128 = power_of_two((-self.exp) as u32);
            proof {
                lemma_pow2_le((-self.exp) as nat, 100);
            }
            let q: u128 = x / p;
            let r: u128 = x % p;
            proof {
                lemma_mod_bound(x as int, p as int);
                lemma_div_is_ordered_by_denominator(x as int, 1, p as int);
            }
            if 2 * r > p || (2 * r == p && q % 2 == 1) {
                q + 1
            } else {
                q
            }
        }
    }
}

/// The number with `places` digits after the point.
pub open spec fn fixed_text(d: Double, places: nat) -> Seq<char> {
    let n = d.units(places);
    if places == 0 {
        text::numeral(n, 10)
    } else {
        text::numeral(n / pow(10, places), 10) + seq!['.'] + text::padded(
            n % pow(10, places),
            10,
            places,
        )
    }
}

/// Small powers of ten.
proof fn lemma_tens()
    ensures
        pow(10, 0) == 1,
        pow(10, 1) == 10,
        pow(10, 2) == 100,
        pow(10, 3) == 1000,
        pow(10, 4) == 10_000,
        pow(10, 5) == 100_000,
{
    lemma_pow0(10);
    lemma_pow1(10);
    lemma_pow_adds(10, 1, 1);
    lemma_pow_adds(10, 2, 1);
    lemma_pow_adds(10, 3, 1);
    lemma_pow_adds(10, 4, 1);
}

proof fn lemma_pow2_zero()
    ensures
        pow2(0) == 1,
{
    lemma2_to64();
}

/// Powers of two are ordered as their exponents.
proof fn lemma_pow2_le(a: nat, b: nat)
    requires
        a <= b,
        b == 60 || b == 64 || b == 100 || b == 119,
    ensures
        1 <= pow2(a) <= pow2(b),
        pow2(60) == 0x1000_0000_0000_0000,
        pow2(64) == 0x1_0000_0000_0000_0000,
        pow2(100) == 0x10_0000_0000_0000_0000_0000_0000,
        pow2(119) == 0x80_0000_0000_0000_0000_0000_0000_0000,
{
    lemma2_to64();
    lemma2_to64_rest();
    lemma_pow2_adds(64, 36);
    lemma_pow2_adds(64, 55);
    lemma_pow2_pos(a);
    if a < b {
        lemma_pow2_strictly_increases(a, b);
    }
}

/// A number of at most `n` bits loses at most `n - 53` of them.
proof fn lemma_drop_at_most(x: int, n: nat)
    requires
        53 <= n,
        0 <= x < pow2(n),
    ensures
        double_drop(x) <= n - 53,
{
    bitlen::lemma_bit_len_at_most(x, n);
}

/// Integers of at most 53 bits are doubles.
pub proof fn lemma_exact(x: int)
    requires
        0 <= x < 0x20_0000_0000_0000,
    ensures
        double_drop(x) == 0,
        round_even(x, 0) == x,
{
    lemma2_to64();
    lemma2_to64_rest();
    bitlen::lemma_bit_len_at_most(x, 53);
    assert(x / 1 == x);
    assert(x % 1 == 0);
}

/// Only zero rounds to zero.
proof fn lemma_rounded_zero(x: int)
    requires
        x >= 0,
    ensures
        round_even(x, double_drop(x)) == 0 <==> x == 0,
{
    lemma2_to64();
    lemma2_to64_rest();
    bitlen::lemma_bit_len(x);
    let drop = double_drop(x);
    lemma_pow2_pos(drop);
    if drop > 0 {
        lemma_pow2_adds(drop, 52);
        let p = pow2(drop) as int;
        assert(x >= p * 0x10_0000_0000_0000);
        lemma_div_is_ordered(p * 0x10_0000_0000_0000, x, p);
        lemma_mul_is_commutative(p, 0x10_0000_0000_0000);
        lemma_div_by_multiple(0x10_0000_0000_0000, p);
    } else {
        assert(x / 1 == x);
        assert(x % 1 == 0);
    }
}

/// A number far below half rounds to zero.
proof fn lemma_round_small(x: int, drop: nat)
    requires
        0 <= x <= 0x20_0000_0000_0000 * 100_000,
        drop > 100,
    ensures
        round_even(x, drop) == 0,
{
    lemma_pow2_le(100, 100);
    lemma_pow2_strictly_increases(100, drop);
    lemma_basic_div(x, pow2(drop) as int);
    lemma_small_mod(x as nat, pow2(drop));
}

proof fn lemma_mul_bounds(a: int, b: int)
    requires
        0 <= a <= 0x20_0000_0000_0000,
        0 <= b <= 0x20_0000_0000_0000,
    ensures
        0 <= a * b < pow2(107),
        b <= 128 ==> a * b < pow2(61),
        a * b < 0x400_0000_0000_0000_0000_0000_0000_0000,
{
    lemma2_to64();
    lemma2_to64_rest();
    lemma_pow2_adds(53, 54);
    assert(0 <= a * b <= 0x20_0000_0000_0000 * 0x20_0000_0000_0000) by (nonlinear_arith)
        requires
            0 <= a <= 0x20_0000_0000_0000,
            0 <= b <= 0x20_0000_0000_0000,
    ;
    if b <= 128 {
        assert(a * b <= 0x20_0000_0000_0000 * 128) by (nonlinear_arith)
            requires
                0 <= a <= 0x20_0000_0000_0000,
                0 <= b <= 128,
        ;
    }
}

/// The quotient of a long numerator by a mantissa has enough bits, and not too
/// many.
proof fn lemma_quotient_size(n: int, b: int)
    requires
        0x10_0000_0000_0000 * 0x1_0000_0000_0000_0000 <= n <= 0x20_0000_0000_0000
            * 0x1_0000_0000_0000_0000,
        1 <= b <= 0x20_0000_0000_0000,
    ensures
        0x4000_0000_0000_0000 <= n / b,
        2 * (n / b) + 1 < pow2(119),
        2 * (n / b) + 1 < 0x400_0000_0000_0000_0000_0000_0000_0000,
        0 <= n % b,
{
    lemma_pow2_le(119, 119);
    lemma_mod_bound(n, b);
    lemma_fundamental_div_mod(n, b);
    let q = n / b;
    assert(q <= n) by (nonlinear_arith)
        requires
            n == b * q + n % b,
            n % b >= 0,
            b >= 1,
            n >= 0,
    ;
    assert(q >= 0x4000_0000_0000_0000) by (nonlinear_arith)
        requires
            n == b * q + n % b,
            n % b < b,
            1 <= b <= 0x20_0000_0000_0000,
            0x10_0000_0000_0000 * 0x1_0000_0000_0000_0000 <= n,
    ;
}

/// A mantissa far above another number is not changed by it.
proof fn lemma_sum_far(m: int, k: nat, l: int)
    requires
        0x10_0000_0000_0000 <= m <= 0x20_0000_0000_0000,
        k > 60,
        0 <= l <= 0x20_0000_0000_0000,
    ensures
        ({
            let x = m * pow2(k) + l;
            &&& m < 0x20_0000_0000_0000 ==> double_drop(x) == k && round_even(x, k) == m
            &&& m == 0x20_0000_0000_0000 ==> double_drop(x) == k + 1 && round_even(x, k + 1)
                == 0x10_0000_0000_0000
        }),
{
    lemma2_to64();
    lemma2_to64_rest();
    if k > 61 {
        lemma_pow2_strictly_increases(61, k);
    }
    lemma_pow2_unfold(k + 1);
    let p = pow2(k) as int;
    let x = m * p + l;
    lemma_mul_is_commutative(m, p);
    if m < 0x20_0000_0000_0000 {
        lemma_fundamental_div_mod_converse(x, p, m, l);
        assert(p * 0x10_0000_0000_0000 <= x) by (nonlinear_arith)
            requires
                x == m * p + l,
                m >= 0x10_0000_0000_0000,
                l >= 0,
                p > 0,
        ;
        lemma_drop(x, k);
    } else {
        assert(x == (2 * p) * 0x10_0000_0000_0000 + l);
        lemma_fundamental_div_mod_converse(x, 2 * p, 0x10_0000_0000_0000, l);
        lemma_drop(x, k + 1);
    }
}

/// The sum with a number of no larger exponent, rounded.
fn plus_smaller(hi: Double, lo: Double) -> (d: Double)
    requires
        hi.wf(),
        lo.wf(),
        lo.exp <= hi.exp,
        -0x100_0000 <= lo.exp,
        hi.exp <= 0x100_0000,
    ensures
        d == Double::of(
            hi.mant * pow2((hi.exp - lo.exp) as nat) + lo.mant,
            lo.exp as int,
        ),
        d.wf(),
        lo.exp <= d.exp <= hi.exp + 2,
{
    let diff: u32 = (hi.exp - lo.exp) as u32;
    let short: u32;
    let m: u64;
    if diff <= 60 || hi.mant == 0 {
        m = hi.mant;
        short = 0;
    } else {
        let (v, n) = normalize(hi.mant);
        m = v;
        short = n;
    }
    let rest: u32 = diff - short;
    let ghost x = m * pow2(rest as nat) + lo.mant;
    proof {
        lemma_pow2_zero();
        lemma_pow2_adds(short as nat, rest as nat);
        assert(hi.mant * pow2(diff as nat) == m * pow2(rest as nat)) by (nonlinear_arith)
            requires
                pow2(diff as nat) == pow2(short as nat) * pow2(rest as nat),
                m == hi.mant * pow2(short as nat),
        ;
    }
    if hi.mant == 0 {
        proof {
            assert(0 * pow2(rest as nat) == 0);
            lemma2_to64();
            lemma2_to64_rest();
            lemma_drop_at_most(x as int, 54);
        }
        let (mant, drop, p) = round_to_double(lo.mant as u128);
        Double { mant, exp: lo.exp + drop as i32 }
    } else if rest <= 60 {
        let p: u128 = power_of_two(rest);
        proof {
            lemma2_to64();
            lemma2_to64_rest();
            if rest < 60 {
                lemma_pow2_strictly_increases(rest as nat, 60);
            }
            lemma_pow2_pos(rest as nat);
            assert(0 <= m * p <= 0x20_0000_0000_0000 * p) by (nonlinear_arith)
                requires
                    m <= 0x20_0000_0000_0000,
                    p > 0,
            ;
            lemma_pow2_adds(rest as nat, 55);
            lemma_drop_at_most(x as int, (rest + 55) as nat);
        }
        let (mant, drop, q) = round_to_double(m as u128 * p + lo.mant as u128);
        Double { mant, exp: lo.exp + drop as i32 }
    } else {
        proof {
            lemma_sum_far(m as int, rest as nat, lo.mant as int);
        }
        if m < 0x20_0000_0000_0000 {
            Double { mant: m, exp: lo.exp + rest as i32 }
        } else {
            Double { mant: 0x10_0000_0000_0000, exp: lo.exp + rest as i32 + 1 }
        }
    }
}

/// Shift a mantissa up until it has 53 bits.
fn normalize(m: u64) -> (r: (u64, u32))
    requires
        1 <= m <= 0x20_0000_0000_0000,
    ensures
        r.0 == m * pow2(shortfall(m as int)),
        r.1 == shortfall(m as int),
        0x10_0000_0000_0000 <= r.0 <= 0x20_0000_0000_0000,
        r.1 <= 52,
{
    let mut v: u64 = m;
    let mut short: u32 = 0;
    proof {
        lemma2_to64();
        assert(m * 1 == m);
    }
    while v < 0x10_0000_0000_0000
        invariant
            1 <= m <= 0x20_0000_0000_0000,
            v == m * pow2(short as nat),
            pow2(short as nat) <= v <= 0x20_0000_0000_0000,
            short > 0 ==> v < 0x20_0000_0000_0000,
            short <= 52,
        decreases 0x20_0000_0000_0000 - v,
    {
        proof {
            lemma_pow2_unfold((short + 1) as nat);
            assert(m * (2 * pow2(short as nat)) == 2 * (m * pow2(short as nat)))
                by (nonlinear_arith);
            lemma2_to64();
            lemma2_to64_rest();
            if short >= 52 {
                lemma_pow2_pos(short as nat);
                if short > 52 {
                    lemma_pow2_strictly_increases(52, short as nat);
                }
                assert(false);
            }
        }
        v = v * 2;
        short = short + 1;
    }
    proof {
        lemma2_to64();
        lemma2_to64_rest();
        if short > 0 {
            bitlen::lemma_bit_len_unique(v as int, 53);
            bitlen::lemma_bit_len_shift(m as int, short as nat);
        } else if m == 0x20_0000_0000_0000 {
            bitlen::lemma_bit_len_unique(m as int, 54);
        } else {
            bitlen::lemma_bit_len_unique(m as int, 53);
        }
    }
    (v, short)
}

/// `2^e`.
pub fn power_of_two(e: u32) -> (p: u128)
    requires
        e <= 100,
    ensures
        p == pow2(e as nat),
{
    let mut p: u128 = 1;
    let mut i: u32 = 0;
    proof {
        lemma2_to64();
    }
    while i < e
        invariant
            i <= e <= 100,
            p == pow2(i as nat),
        decreases e - i,
    {
        proof {
            lemma_pow2_unfold((i + 1) as nat);
            lemma_pow2_le(i as nat, 100);
        }
        p = p * 2;
        i = i + 1;
    }
    p
}

/// Whether `m * 2^shift` is above `limit`.
fn shifted_above(m: u64, shift: u32, limit: u64) -> (r: bool)
    requires
        limit <= 0x20_0000_0000_0000,
    ensures
        r == (limit < m * pow2(shift as nat)),
{
    let cap: u32 = if shift > 64 { 64 } else { shift };
    let p: u128 = power_of_two(cap);
    proof {
        lemma_shift_capped(m as int, shift as nat);
        lemma_pow2_le(cap as nat, 64);
        assert(0 <= m * p <= 0xffff_ffff_ffff_ffff * 0x1_0000_0000_0000_0000)
            by (nonlinear_arith)
            requires
                0 <= m <= 0xffff_ffff_ffff_ffff,
                0 <= p <= 0x1_0000_0000_0000_0000,
        ;
        assert(0 * p == 0) by (nonlinear_arith);
        assert(0 * pow2(shift as nat) == 0) by (nonlinear_arith);
    }
    (limit as u128) < m as u128 * p
}

/// Whether `m * 2^shift` is at least `limit`.
fn shifted_at_least(m: u64, shift: u32, limit: u64) -> (r: bool)
    requires
        limit <= 0x20_0000_0000_0000,
    ensures
        r == (limit <= m * pow2(shift as nat)),
{
    let cap: u32 = if shift > 64 { 64 } else { shift };
    let p: u128 = power_of_two(cap);
    proof {
        lemma_shift_capped(m as int, shift as nat);
        lemma_pow2_le(cap as nat, 64);
        assert(0 <= m * p <= 0xffff_ffff_ffff_ffff * 0x1_0000_0000_0000_0000)
            by (nonlinear_arith)
            requires
                0 <= m <= 0xffff_ffff_ffff_ffff,
                0 <= p <= 0x1_0000_0000_0000_0000,
        ;
        assert(0 * p == 0) by (nonlinear_arith);
        assert(0 * pow2(shift as nat) == 0) by (nonlinear_arith);
    }
    (limit as u128) <= m as u128 * p
}

/// Shifting any positive number by 64 bits or more puts it above every mantissa.
proof fn lemma_shift_capped(m: int, shift: nat)
    requires
        m >= 0,
    ensures
        m > 0 && shift >= 64 ==> m * pow2(shift) >= 0x1_0000_0000_0000_0000,
        m > 0 ==> m * pow2(64) >= 0x1_0000_0000_0000_0000,
{
    lemma_pow2_le(64, 64);
    if shift > 64 {
        lemma_pow2_strictly_increases(64, shift);
    }
    if m > 0 && shift >= 64 {
        assert(m * pow2(shift) >= pow2(shift)) by (nonlinear_arith)
            requires
                m >= 1,
                pow2(shift) >= 0,
        ;
    }
    if m > 0 {
        assert(m * pow2(64) >= pow2(64)) by (nonlinear_arith)
            requires
                m >= 1,
                pow2(64) >= 0,
        ;
    }
}

/// Rounding to a double: the relative error is at most `2^-53`.
pub proof fn lemma_of_value(x: int, e: int)
    requires
        x > 0,
        -0x1000_0000 <= e <= 0x1000_0000,
        bitlen::bit_len(x) <= 0x1000_0000,
    ensures
        0 < Double::of(x, e).mant <= 0x20_0000_0000_0000,
        Double::of(x, e).exp == e + double_drop(x),
        accuracy::within(
            Double::of(x, e).value(),
            (x as real) * reals::rpow2(e),
            1real,
            reals::rpow2(-53),
        ),
{
    let d = double_drop(x);
    let m = round_even(x, d);
    let p = pow2(d) as int;
    lemma2_to64();
    lemma2_to64_rest();
    lemma_pow2_pos(d);
    bitlen::lemma_bit_len(x);
    lemma_fundamental_div_mod(x, p);
    lemma_mod_bound(x, p);
    lemma_rounded_zero(x);
    let q = x / p;
    let r = x % p;
    lemma_mul_is_commutative(p, q);
    assert((q + 1) * p == q * p + p) by (nonlinear_arith);
    assert(-p <= 2 * (m * p - x) <= p);
    // The bits cut off are a small part.
    if d > 0 {
        lemma_pow2_adds(d, 52);
        lemma_pow2_adds(d, 53);
        assert(p * 0x10_0000_0000_0000 <= x < p * 0x20_0000_0000_0000);
        lemma_div_is_ordered_strict(x, 0x20_0000_0000_0000, p);
    } else {
        assert(p == 1);
        assert(x / 1 == x);
        assert(x % 1 == 0);
        lemma_exact_bits(x);
    }
    assert(0 < m <= 0x20_0000_0000_0000);
    assert(d == 0 ==> m * p == x);
    // Over the reals.
    let w = reals::rpow2(e);
    reals::lemma_rpow2_step(e);
    reals::lemma_rpow2_add(d as int, e);
    reals::lemma_rpow2_nat(d);
    let (mr, pr, xr) = (m as real, p as real, x as real);
    reals::lemma_int_product(m, p);
    reals::lemma_real_assoc(mr, pr, w);
    let y = (m * p) as real;
    let v = reals::rpow2(-53);
    reals::lemma_rpow2_nat(53);
    reals::lemma_rpow2_step(-53);
    let k = 9_007_199_254_740_992real;
    assert(v * k == 1real);
    assert(-xr <= k * (y - xr) <= xr);
    assert(k * (xr * v) == xr) by (nonlinear_arith)
        requires
            v * k == 1real,
    ;
    assert(xr - xr * v <= y <= xr + xr * v);
    assert(1real * v == v) by (nonlinear_arith);
    accuracy::lemma_within_scale(y, xr, 1real, v, w);
}

/// A quotient below a bound.
proof fn lemma_div_is_ordered_strict(x: int, b: int, p: int)
    requires
        p > 0,
        0 <= x < p * b,
    ensures
        x / p < b,
{
    lemma_fundamental_div_mod(x, p);
    lemma_mod_bound(x, p);
    let q = x / p;
    assert(q < b) by (nonlinear_arith)
        requires
            x == p * q + x % p,
            x % p >= 0,
            x < p * b,
            p > 0,
    ;
}

/// A number with nothing to cut off has at most 53 bits.
proof fn lemma_exact_bits(x: int)
    requires
        x >= 0,
        double_drop(x) == 0,
    ensures
        x < 0x20_0000_0000_0000,
{
    lemma2_to64();
    lemma2_to64_rest();
    bitlen::lemma_bit_len(x);
    if bitlen::bit_len(x) < 53 {
        lemma_pow2_strictly_increases(bitlen::bit_len(x), 53);
    }
}

/// The rounded sum of two doubles.
pub proof fn lemma_sum_value(a: Double, b: Double)
    requires
        a.wf(),
        b.wf(),
        b.mant > 0,
        -0x1000 <= a.exp <= 0x1000,
        -0x1000 <= b.exp <= 0x1000,
    ensures
        Double::sum(a, b).wf(),
        Double::sum(a, b).mant > 0,
        a.exp <= Double::sum(a, b).exp || b.exp <= Double::sum(a, b).exp,
        Double::sum(a, b).exp <= a.exp + 2 || Double::sum(a, b).exp <= b.exp + 2,
        accuracy::within(
            Double::sum(a, b).value(),
            a.value() + b.value(),
            1real,
            reals::rpow2(-53),
        ),
{
    let e = if a.exp <= b.exp { a.exp as int } else { b.exp as int };
    let (k, l) = ((a.exp - e) as nat, (b.exp - e) as nat);
    let x = a.mant * pow2(k) + b.mant * pow2(l);
    lemma_pow2_pos(k);
    lemma_pow2_pos(l);
    assert(b.mant * pow2(l) > 0 && a.mant * pow2(k) >= 0) by (nonlinear_arith)
        requires
            b.mant > 0,
            pow2(l) > 0,
            a.mant >= 0,
            pow2(k) > 0,
    ;
    let top: nat = if k >= l { k } else { l };
    assert(x < pow2(55 + top)) by {
        lemma2_to64();
        lemma2_to64_rest();
        lemma_pow2_adds(54, top);
        lemma_pow2_unfold(55 + top);
        if k < top {
            lemma_pow2_strictly_increases(k, top);
        }
        if l < top {
            lemma_pow2_strictly_increases(l, top);
        }
        lemma_mul_upper_bound(a.mant as int, pow2(54) - 1, pow2(k) as int, pow2(top) as int);
        lemma_mul_upper_bound(b.mant as int, pow2(54) - 1, pow2(l) as int, pow2(top) as int);
        lemma_mul_is_distributive_sub_other_way(pow2(top) as int, pow2(54) as int, 1);
        lemma_pow2_pos(top);
    }
    bitlen::lemma_bit_len_at_most(x, 55 + top);
    lemma_of_value(x, e);
    let w = reals::rpow2(e);
    reals::lemma_int_product(a.mant as int, pow2(k) as int);
    reals::lemma_int_product(b.mant as int, pow2(l) as int);
    reals::lemma_rpow2_nat(k);
    reals::lemma_rpow2_nat(l);
    reals::lemma_rpow2_add(k as int, e);
    reals::lemma_rpow2_add(l as int, e);
    let (ar, br) = (a.mant as real, b.mant as real);
    let (kr, lr) = (pow2(k) as real, pow2(l) as real);
    reals::lemma_real_distrib(ar * kr, br * lr, w);
    reals::lemma_real_assoc(ar, kr, w);
    reals::lemma_real_assoc(br, lr, w);
}

/// The rounded inverse of a double.
pub proof fn lemma_inverse_value(b: Double)
    requires
        b.wf(),
        b.mant > 0,
        -0x1000 <= b.exp <= 0x1000,
    ensures
        ({
            let q = Double::quotient(Double { mant: 1, exp: 0 }, b);
            &&& q.wf()
            &&& q.mant > 0
            &&& -b.exp - 117 <= q.exp <= -b.exp - 51
            &&& accuracy::within(q.value(), 1real / b.value(), 3real, reals::rpow2(-53))
        }),
{
    lemma2_to64();
    lemma2_to64_rest();
    bitlen::lemma_bit_len_unique(1, 1);
    assert(shortfall(1) == 52);
    let n = 0x10_0000_0000_0000int * 0x1_0000_0000_0000_0000;
    let m = b.mant as int;
    let x = quotient_bits(1, m);
    assert(1 * pow2(52) * 0x1_0000_0000_0000_0000 == n);
    lemma_quotient_size(n, m);
    bitlen::lemma_bit_len_at_most(x, 119);
    let e = -b.exp - 117;
    lemma_of_value(x, e);
    // x against 2^117 / m.
    lemma_fundamental_div_mod(n, m);
    lemma_mod_bound(n, m);
    let q = n / m;
    assert(x * m <= 2 * n + m) by (nonlinear_arith)
        requires
            x <= 2 * q + 1,
            m * q <= n,
            m > 0,
    ;
    assert(x * m >= 2 * n - m) by (nonlinear_arith)
        requires
            x >= 2 * q,
            n % m == 0 ==> m * q == n,
            n % m != 0 ==> x == 2 * q + 1,
            m * q + n % m == n,
            n % m < m,
            m > 0,
    ;
    let u = reals::rpow2(-53);
    reals::lemma_rpow2_nat(53);
    reals::lemma_rpow2_step(-53);
    reals::lemma_rpow2_nat(117);
    lemma_pow2_adds(52, 64);
    lemma_pow2_adds(116, 1);
    let big = (2 * n) as real;
    assert(reals::rpow2(117) == big);
    let (xr, mr) = (x as real, m as real);
    reals::lemma_int_product(x, m);
    // within(x * m, 2^117, 1, 2^-53)
    let k = 9_007_199_254_740_992real;
    assert(u * k == 1real);
    let bu = big * u;
    assert(k * bu == big) by (nonlinear_arith)
        requires
            bu == big * u,
            u * k == 1real,
    ;
    assert(mr <= bu);
    assert(1real * u == u) by (nonlinear_arith);
    assert(accuracy::within(xr * mr, big, 1real, u));
    // Times 2^e / m.
    let w = reals::rpow2(e);
    let v = b.value();
    let be = reals::rpow2(b.exp as int);
    reals::lemma_rpow2_step(e);
    reals::lemma_rpow2_step(b.exp as int);
    accuracy::lemma_mul_positive(mr, be);
    reals::lemma_rpow2_add(117, e);
    reals::lemma_rpow2_add(117 + e, b.exp as int);
    let inv = 1real / v;
    assert(inv * v == 1real) by (nonlinear_arith)
        requires
            inv == 1real / v,
            v > 0real,
    ;
    // big * w is 2^-exp, so big * (w / m) is the inverse.
    let c = w / mr;
    assert(c > 0real && c * mr == w) by (nonlinear_arith)
        requires
            c == w / mr,
            w > 0real,
            mr > 0real,
    ;
    accuracy::lemma_within_scale(xr * mr, big, 1real, u, c);
    assert((xr * mr) * c == xr * w) by (nonlinear_arith)
        requires
            c * mr == w,
    ;
    let bc = big * c;
    assert(bc * v == 1real) by {
        assert(bc * v == (big * (c * mr)) * be) by (nonlinear_arith)
            requires
                bc == big * c,
                v == mr * be,
        ;
    }
    assert(bc == inv) by (nonlinear_arith)
        requires
            bc * v == 1real,
            inv * v == 1real,
            v > 0real,
    ;
    assert(u <= 1real / 10000real) by (nonlinear_arith)
        requires
            u * k == 1real,
            k == 9_007_199_254_740_992real,
    ;
    accuracy::lemma_within_chain(Double::of(x, e).value(), xr * w, inv, 1real, 1real, u);
}

/// Rounding up adds less than one.
pub proof fn lemma_ceiling(d: Double)
    ensures
        d.value() <= (d.ceiling() as real) < d.value() + 1real,
{
    let m = d.mant as int;
    let mr = m as real;
    if d.exp >= 0 {
        reals::lemma_rpow2_nat(d.exp as nat);
        reals::lemma_int_product(m, pow2(d.exp as nat) as int);
    } else {
        let s = (-d.exp) as nat;
        let p = pow2(s) as int;
        lemma_pow2_pos(s);
        reals::lemma_rpow2_nat(s);
        reals::lemma_rpow2_step(d.exp as int);
        let q = d.ceiling();
        lemma_fundamental_div_mod(m + p - 1, p);
        lemma_mod_bound(m + p - 1, p);
        reals::lemma_int_product(p, q);
        let w = reals::rpow2(d.exp as int);
        let pr = p as real;
        let qr = q as real;
        assert(w * pr == 1real) by {
            reals::lemma_rpow2_add(d.exp as int, s as int);
            reals::lemma_rpow2_step(0);
        }
        let prod = pr * qr;
        assert(mr <= prod);
        assert(prod < mr + pr);
        assert(mr * w <= qr < mr * w + 1real) by (nonlinear_arith)
            requires
                mr <= pr * qr < mr + pr,
                w * pr == 1real,
                w > 0real,
        {
            assert((pr * qr) * w == qr * (w * pr));
            assert((mr + pr) * w == mr * w + w * pr);
            assert(mr * w <= (pr * qr) * w);
            assert((pr * qr) * w < (mr + pr) * w);
        }
    }
}

/// Rounding gives the multiple of `2^drop` next to `x`, and the even one where two
/// are equally near.
pub proof fn law_round_even(x: int, drop: nat)
    ensures
        -(pow2(drop) as int) <= 2 * (round_even(x, drop) * pow2(drop) - x) <= pow2(drop),
        2 * (round_even(x, drop) * pow2(drop) - x) == pow2(drop) || 2 * (x - round_even(x, drop)
            * pow2(drop)) == pow2(drop) ==> round_even(x, drop) % 2 == 0,
        drop == 0 ==> round_even(x, drop) == x,
{
    let p = pow2(drop) as int;
    lemma_pow2_pos(drop);
    lemma2_to64();
    lemma_fundamental_div_mod(x, p);
    lemma_mod_bound(x, p);
    let q = x / p;
    lemma_mul_is_commutative(p, q);
    assert((q + 1) * p == q * p + p) by (nonlinear_arith);
    if drop == 0 {
        assert(x / 1 == x && x % 1 == 0);
    }
}

/// A number of at most 53 bits is a double; of a longer one, 53 bits are left.
pub proof fn law_double_drop(x: int)
    requires
        x >= 0,
    ensures
        x < 0x20_0000_0000_0000 ==> double_drop(x) == 0,
        x >= 0x20_0000_0000_0000 ==> pow2(double_drop(x)) * 0x10_0000_0000_0000 <= x < pow2(
            double_drop(x),
        ) * 0x20_0000_0000_0000,
{
    lemma2_to64();
    lemma2_to64_rest();
    bitlen::lemma_bit_len(x);
    let b = bitlen::bit_len(x);
    if x >= 0x20_0000_0000_0000 {
        if b <= 53 {
            if b < 53 {
                lemma_pow2_strictly_increases(b, 53);
            }
        } else {
            let d = (b - 53) as nat;
            lemma_pow2_adds(d, 53);
            lemma_pow2_adds(d, 52);
        }
    } else if b > 53 {
        if b > 54 {
            lemma_pow2_strictly_increases(53, (b - 1) as nat);
        }
    }
}

/// A quotient is worked out to more than 53 bits: the dividend, filled up to 53 of
/// them, times `2^64` over the divisor, with one bit more that says whether
/// anything is left over.
pub proof fn law_quotient_bits(a: int, b: int)
    requires
        a > 0,
        b > 0,
    ensures
        a < 0x20_0000_0000_0000 ==> 0x10_0000_0000_0000 <= a * pow2(shortfall(a))
            < 0x20_0000_0000_0000,
        a >= 0x20_0000_0000_0000 ==> shortfall(a) == 0,
        ({
            let n = a * pow2(shortfall(a)) * 18_446_744_073_709_551_616;
            let q = quotient_bits(a, b) / 2;
            &&& q * b <= n < (q + 1) * b
            &&& quotient_bits(a, b) % 2 == 0 <==> q * b == n
        }),
{
    lemma2_to64();
    lemma2_to64_rest();
    bitlen::lemma_bit_len(a);
    let l = bitlen::bit_len(a);
    let s = shortfall(a);
    if a < 0x20_0000_0000_0000 {
        if l > 53 {
            if l > 54 {
                lemma_pow2_strictly_increases(53, (l - 1) as nat);
            }
        }
        lemma_pow2_adds((l - 1) as nat, s);
        lemma_pow2_adds(l, s);
        let p = pow2(s) as int;
        lemma_pow2_pos(s);
        let (lo, hi) = (pow2((l - 1) as nat) as int, pow2(l) as int);
        assert(lo * p <= a * p < hi * p) by (nonlinear_arith)
            requires
                lo <= a < hi,
                p > 0,
        ;
    } else if l < 53 {
        lemma_pow2_strictly_increases(l, 53);
    }
    let n = a * pow2(s) * 18_446_744_073_709_551_616;
    lemma_fundamental_div_mod(n, b);
    lemma_mod_bound(n, b);
    let q = n / b;
    assert(quotient_bits(a, b) / 2 == q);
    lemma_mul_is_commutative(b, q);
    assert((q + 1) * b == q * b + b) by (nonlinear_arith);
}

/// Products, quotients and sums of doubles are the exact ones, rounded once; a
/// power of two moves the exponent alone.
pub proof fn law_arithmetic(a: Double, b: Double, k: int)
    requires
        b.mant > 0,
        -0x1000 <= a.exp + k <= 0x1000,
    ensures
        Double::product(a, b) == Double::of(a.mant * b.mant, a.exp + b.exp),
        a.mant > 0 ==> Double::quotient(a, b) == Double::of(
            quotient_bits(a.mant as int, b.mant as int),
            a.exp - b.exp - shortfall(a.mant as int) - 65,
        ),
        a.mant == 0 ==> Double::quotient(a, b).mant == 0,
        a.exp >= b.exp ==> Double::sum(a, b) == Double::of(
            a.mant * pow2((a.exp - b.exp) as nat) + b.mant,
            b.exp as int,
        ),
        a.exp <= b.exp ==> Double::sum(a, b) == Double::of(
            a.mant + b.mant * pow2((b.exp - a.exp) as nat),
            a.exp as int,
        ),
        a.scaled(k).mant == a.mant,
        a.scaled(k).exp == a.exp + k,
{
    lemma2_to64();
    let (m, n, one) = (a.mant as int, b.mant as int, pow2(0) as int);
    assert(m * one == m && n * one == n) by (nonlinear_arith)
        requires
            one == 1,
    ;
    if a.exp >= b.exp {
        assert(Double::sum(a, b) == Double::of(
            a.mant * pow2((a.exp - b.exp) as nat) + n * one,
            b.exp as int,
        ));
    }
    if a.exp <= b.exp {
        assert(Double::sum(a, b) == Double::of(
            m * one + b.mant * pow2((b.exp - a.exp) as nat),
            a.exp as int,
        ));
    }
}

/// The integer part and the rounded-up integer of a double times a power of two.
pub proof fn law_whole(d: Double, k: int)
    ensures
        d.exp + k >= 0 ==> d.whole(k) == d.mant * pow2((d.exp + k) as nat),
        d.exp + k < 0 ==> {
            let p = pow2((-(d.exp + k)) as nat);
            d.whole(k) * p <= d.mant < (d.whole(k) + 1) * p
        },
        d.exp >= 0 ==> d.ceiling() == d.mant * pow2(d.exp as nat),
        d.exp < 0 ==> {
            let p = pow2((-d.exp) as nat);
            (d.ceiling() - 1) * p < d.mant <= d.ceiling() * p
        },
{
    if d.exp + k < 0 {
        let p = pow2((-(d.exp + k)) as nat) as int;
        lemma_pow2_pos((-(d.exp + k)) as nat);
        lemma_fundamental_div_mod(d.mant as int, p);
        lemma_mod_bound(d.mant as int, p);
        let q = d.whole(k);
        lemma_mul_is_commutative(p, q);
        assert((q + 1) * p == q * p + p) by (nonlinear_arith);
    }
    if d.exp < 0 {
        let p = pow2((-d.exp) as nat) as int;
        lemma_pow2_pos((-d.exp) as nat);
        lemma_fundamental_div_mod(d.mant + p - 1, p);
        lemma_mod_bound(d.mant + p - 1, p);
        let q = d.ceiling();
        lemma_mul_is_commutative(p, q);
        assert((q - 1) * p == q * p - p) by (nonlinear_arith);
    }
}

/// `a` is below `b` where its value is.
pub proof fn law_below(a: Double, b: Double)
    ensures
        a.below(b) <==> a.value() < b.value(),
{
    let e = if a.exp <= b.exp {
        a.exp as int
    } else {
        b.exp as int
    };
    let (s, t) = ((a.exp - e) as nat, (b.exp - e) as nat);
    let (m, n) = (a.mant * pow2(s), b.mant * pow2(t));
    let w = reals::rpow2(e);
    reals::lemma_rpow2_step(e);
    reals::lemma_rpow2_nat(s);
    reals::lemma_rpow2_nat(t);
    reals::lemma_rpow2_add(s as int, e);
    reals::lemma_rpow2_add(t as int, e);
    reals::lemma_int_product(a.mant as int, pow2(s) as int);
    reals::lemma_int_product(b.mant as int, pow2(t) as int);
    reals::lemma_real_assoc(a.mant as real, reals::rpow2(s as int), w);
    reals::lemma_real_assoc(b.mant as real, reals::rpow2(t as int), w);
    assert(a.value() == (m as real) * w);
    assert(b.value() == (n as real) * w);
    let (x, y) = (m as real, n as real);
    assert(x < y <==> x * w < y * w) by (nonlinear_arith)
        requires
            w > 0real,
    ;
}

/// A double with so many decimal places is its value times that power of ten,
/// rounded to an integer `n` with halves to even, and written with a point before
/// its last `places` digits.
pub proof fn law_fixed_text(d: Double, places: nat)
    ensures
        d.exp >= 0 ==> d.units(places) == d.mant * pow(10, places) * pow2(d.exp as nat),
        d.exp < 0 ==> {
            let p = pow2((-d.exp) as nat);
            let x = d.mant * pow(10, places);
            let n = d.units(places);
            &&& -p <= 2 * (n * p - x) <= p
            &&& 2 * (n * p - x) == p || 2 * (x - n * p) == p ==> n % 2 == 0
        },
        places == 0 ==> fixed_text(d, places) == text::numeral(d.units(0), 10),
        places > 0 ==> {
            let n = d.units(places);
            let t = fixed_text(d, places);
            let whole = text::numeral(n / pow(10, places), 10);
            &&& t.len() == whole.len() + 1 + places
            &&& t.take(whole.len() as int) == whole
            &&& t[whole.len() as int] as int == 46
            &&& t.skip(whole.len() as int + 1) == text::padded(n % pow(10, places), 10, places)
        },
{
    if d.exp < 0 {
        law_round_even(d.mant * pow(10, places), (-d.exp) as nat);
    }
    if places > 0 {
        let n = d.units(places);
        let t = fixed_text(d, places);
        let whole = text::numeral(n / pow(10, places), 10);
        let rest = text::padded(n % pow(10, places), 10, places);
        text::lemma_padded_len(n % pow(10, places), 10, places);
        assert(t.take(whole.len() as int) =~= whole);
        assert(t.skip(whole.len() as int + 1) =~= rest);
    }
}

/// A product of doubles is that of their values, but for a relative error of
/// `2^-53`.
pub proof fn law_double_product(a: Double, b: Double)
    requires
        a.wf() && a.mant > 0 && -0x1000 <= a.exp <= 0x1000,
        b.wf() && b.mant > 0 && -0x1000 <= b.exp <= 0x1000,
    ensures
        Double::product(a, b).wf(),
        Double::product(a, b).mant > 0,
        a.exp + b.exp <= Double::product(a, b).exp <= a.exp + b.exp + 55,
        accuracy::within(
            Double::product(a, b).value(),
            a.value() * b.value(),
            1real,
            reals::rpow2(-53),
        ),
{
    let x = a.mant * b.mant;
    lemma2_to64();
    lemma_mul_bounds(a.mant as int, b.mant as int);
    assert(x > 0) by (nonlinear_arith)
        requires
            x == a.mant * b.mant,
            a.mant > 0,
            b.mant > 0,
    ;
    bitlen::lemma_bit_len_at_most(x, 107);
    lemma_of_value(x, a.exp + b.exp);
    reals::lemma_int_product(a.mant as int, b.mant as int);
    reals::lemma_rpow2_add(a.exp as int, b.exp as int);
    let (m, n) = (a.mant as real, b.mant as real);
    let (v, w) = (reals::rpow2(a.exp as int), reals::rpow2(b.exp as int));
    assert((m * n) * (v * w) == (m * v) * (n * w)) by (nonlinear_arith);
}

/// A quotient of doubles is that of their values, but for a relative error of at
/// most three times `2^-53`.
pub proof fn law_double_quotient(a: Double, b: Double)
    requires
        a.wf() && a.mant > 0 && -0x1000 <= a.exp <= 0x1000,
        b.wf() && b.mant > 0 && -0x1000 <= b.exp <= 0x1000,
    ensures
        Double::quotient(a, b).wf(),
        Double::quotient(a, b).mant > 0,
        a.exp - b.exp - 117 <= Double::quotient(a, b).exp <= a.exp - b.exp + 1,
        accuracy::within(
            Double::quotient(a, b).value(),
            a.value() / b.value(),
            3real,
            reals::rpow2(-53),
        ),
{
    lemma2_to64();
    lemma2_to64_rest();
    let f = a.mant as int;
    let s = shortfall(f);
    let m = b.mant as int;
    let top = f * pow2(s);
    let n = top * 0x1_0000_0000_0000_0000;
    let x = quotient_bits(f, m);
    law_quotient_bits(f, m);
    bitlen::lemma_bit_len(f);
    assert(s <= 52);
    if f >= 0x20_0000_0000_0000 {
        assert(top == f) by (nonlinear_arith)
            requires
                top == f * pow2(s),
                pow2(s) == 1,
        ;
    }
    assert(0x10_0000_0000_0000 <= top <= 0x20_0000_0000_0000);
    lemma_quotient_size(n, m);
    bitlen::lemma_bit_len_at_most(x, 119);
    let e = a.exp - b.exp - s - 65;
    lemma_of_value(x, e);
    let q = x / 2;
    assert(x * m <= 2 * n + m) by (nonlinear_arith)
        requires
            x <= 2 * q + 1,
            q * m <= n,
            m > 0,
    ;
    assert(x * m >= 2 * n - m) by (nonlinear_arith)
        requires
            x % 2 == 0 ==> q * m == n && x == 2 * q,
            x % 2 != 0 ==> x == 2 * q + 1,
            n < (q + 1) * m,
            m > 0,
    ;
    let u = reals::rpow2(-53);
    reals::lemma_rpow2_nat(53);
    reals::lemma_rpow2_step(-53);
    let big = (2 * n) as real;
    let (xr, mr, fr) = (x as real, m as real, f as real);
    reals::lemma_int_product(x, m);
    let k = 9_007_199_254_740_992real;
    assert(u * k == 1real);
    let bu = big * u;
    assert(k * bu == big) by (nonlinear_arith)
        requires
            bu == big * u,
            u * k == 1real,
    ;
    assert(mr <= bu);
    assert(1real * u == u) by (nonlinear_arith);
    assert(accuracy::within(xr * mr, big, 1real, u));
    // Times 2^e / m.
    let w = reals::rpow2(e);
    let v = b.value();
    let be = reals::rpow2(b.exp as int);
    reals::lemma_rpow2_step(e);
    reals::lemma_rpow2_step(b.exp as int);
    accuracy::lemma_mul_positive(mr, be);
    // big is the mantissa times 2^(s + 65).
    lemma_pow2_adds(s, 64);
    lemma_pow2_adds(s + 64, 1);
    reals::lemma_rpow2_nat(s + 65);
    let t = reals::rpow2(s as int + 65);
    reals::lemma_int_product(f, pow2(s + 65) as int);
    assert(2 * n == f * pow2(s + 65)) by (nonlinear_arith)
        requires
            n == (f * pow2(s)) * 0x1_0000_0000_0000_0000,
            pow2(s + 65) == (pow2(s) * 0x1_0000_0000_0000_0000) * 2,
    ;
    assert(big == fr * t);
    reals::lemma_rpow2_add(s as int + 65, e);
    reals::lemma_rpow2_add(s + 65 + e, b.exp as int);
    let av = a.value();
    let quot = av / v;
    assert(quot * v == av) by (nonlinear_arith)
        requires
            quot == av / v,
            v > 0real,
    ;
    let c = w / mr;
    assert(c > 0real && c * mr == w) by (nonlinear_arith)
        requires
            c == w / mr,
            w > 0real,
            mr > 0real,
    ;
    accuracy::lemma_within_scale(xr * mr, big, 1real, u, c);
    assert((xr * mr) * c == xr * w) by (nonlinear_arith)
        requires
            c * mr == w,
    ;
    let bc = big * c;
    assert(bc * v == av) by {
        assert(bc * v == (big * (c * mr)) * be) by (nonlinear_arith)
            requires
                bc == big * c,
                v == mr * be,
        ;
        assert((big * w) * be == fr * ((t * w) * be)) by (nonlinear_arith)
            requires
                big == fr * t,
        ;
    }
    assert(bc == quot) by (nonlinear_arith)
        requires
            bc * v == av,
            quot * v == av,
            v > 0real,
    ;
    assert(u <= 1real / 10000real) by (nonlinear_arith)
        requires
            u * k == 1real,
            k == 9_007_199_254_740_992real,
    ;
    accuracy::lemma_within_chain(Double::of(x, e).value(), xr * w, quot, 1real, 1real, u);
}

} // verus!
