//! Planning: how many bits of working precision a number of digits needs.
use crate::bitlen;
use crate::double;
use crate::double::round_to_double;
use crate::float_ops::prec_max_64;
use crate::numerals;
use crate::text;
use crate::text::push_decimal;
use vstd::arithmetic::div_mod::*;
use vstd::arithmetic::mul::*;
use vstd::arithmetic::power2::*;
use vstd::arithmetic::power::*;
use vstd::prelude::*;
use vstd::string::*;

verus! {

/// Bits added to the working precision on top of what the digits need.
pub const SAFETY_BITS: u64 = 256;

/// The largest number of digits: all integers up to here are exact in double
/// precision.
pub const MAX_DIGITS: u64 = 0x20_0000_0000_0000;

/// The logarithm of ten to base two in double precision, times `2^51`.
pub const LOG2_10_SCALED: u64 = 7480317065143153;

/// `digits * log2(10)` as double precision computes it, times `2^51`.
pub open spec fn scaled_bits(digits: int) -> int {
    let x = digits * LOG2_10_SCALED;
    double::round_even(x, double::double_drop(x)) * pow2(double::double_drop(x))
}

/// The working precision for a positive number of digits.
pub open spec fn precision_for(digits: int) -> int {
    (scaled_bits(digits) + (0x8_0000_0000_0000 - 1)) / 0x8_0000_0000_0000 + SAFETY_BITS
}

/// Why no plan can be made.
#[derive(Debug, PartialEq, Eq, Structural)]
pub enum PlanError {
    /// More digits than [`MAX_DIGITS`].
    TooManyDigits { digits: u64 },
    /// The working precision is over the cap.
    TooPrecise { digits: u64, bits: u64, cap: u64 },
}

/// The words of a plan error.
pub open spec fn plan_message(e: PlanError) -> Seq<char> {
    match e {
        PlanError::TooManyDigits { digits } => text::numeral(digits as int, 10)
            + " digits exceeds the supported maximum ("@ + text::numeral(MAX_DIGITS as int, 10)
            + "); larger D would lose precision in the f64-based planning arithmetic"@,
        PlanError::TooPrecise { digits, bits, cap } => text::numeral(digits as int, 10)
            + " digits requires "@ + text::numeral(bits as int, 10)
            + " bits of working precision, which exceeds MPFR's cap ("@ + text::numeral(cap as int, 10)
            + ")"@,
    }
}

impl PlanError {
    /// The error in words.
    pub fn to_text(&self) -> (s: String)
        ensures
            s@ == plan_message(*self),
    {
        let mut s: String = String::new();
        match self {
            PlanError::TooManyDigits { digits } => {
                push_decimal(&mut s, *digits);
                s.append(" digits exceeds the supported maximum (");
                push_decimal(&mut s, MAX_DIGITS);
                s.append("); larger D would lose precision in the f64-based planning arithmetic");
            },
            PlanError::TooPrecise { digits, bits, cap } => {
                push_decimal(&mut s, *digits);
                s.append(" digits requires ");
                push_decimal(&mut s, *bits);
                s.append(" bits of working precision, which exceeds MPFR's cap (");
                push_decimal(&mut s, *cap);
                s.append(")");
            },
        }
        proof {
            assert(s@ =~= plan_message(*self));
        }
        s
    }
}

/// Digits to compute and the working precision for them.
#[derive(Debug, Clone, Copy)]
pub struct PrecisionPlan {
    /// Decimal digits, counting the leading one.
    pub digits: u64,
    /// Working precision in bits.
    pub precision_bits: u64,
}

/// `digits * log2(10)` as double precision computes it, times `2^51`.
pub fn scaled_product(digits: u64) -> (r: u128)
    requires
        digits <= MAX_DIGITS,
    ensures
        r as int == scaled_bits(digits as int),
        r <= 0x800_0000_0000_0000_0000_0000_0000,
{
    proof {
        assert(digits * LOG2_10_SCALED < 0x400_0000_0000_0000_0000_0000_0000)
            by (nonlinear_arith)
            requires
                digits <= 0x20_0000_0000_0000,
                LOG2_10_SCALED == 7480317065143153,
        ;
    }
    let (m, drop, p) = round_to_double(digits as u128 * LOG2_10_SCALED as u128);
    proof {
        assert(m * p <= 0x800_0000_0000_0000_0000_0000_0000) by (nonlinear_arith)
            requires
                0 <= m <= 0x20_0000_0000_0000,
                0 <= p <= 0x40_0000_0000_0000,
        ;
    }
    m as u128 * p
}

/// One squaring in a chain of powers of ten: `10^k <= m * 2^e` and
/// `m^2 <= n * 2^s` give `10^(2 * k) <= n * 2^(2 * e + s)`.
proof fn lemma_tower_step(k: nat, m: int, e: nat, n: int, s: nat)
    requires
        0 <= m,
        pow(10, k) <= m * pow2(e),
        m * m <= n * pow2(s),
    ensures
        pow(10, 2 * k) <= n * pow2(2 * e + s),
{
    lemma_pow_adds(10, k, k);
    lemma_pow_positive(10, k);
    lemma_pow2_adds(e, e);
    lemma_pow2_adds(2 * e, s);
    lemma_pow2_pos(e);
    let t = pow(10, k);
    let p = pow2(e) as int;
    let q = pow2(s) as int;
    assert(t * t <= (m * p) * (m * p)) by (nonlinear_arith)
        requires
            0 <= t <= m * p,
    ;
    assert((m * p) * (m * p) == (m * m) * (p * p)) by (nonlinear_arith);
    assert((m * m) * (p * p) <= (n * q) * (p * p)) by (nonlinear_arith)
        requires
            m * m <= n * q,
            p >= 0,
    ;
    assert((n * q) * (p * p) == n * ((p * p) * q)) by (nonlinear_arith);
}

/// `10^(2^38) <= 2^913124641742`: the logarithm of ten to base two from above.
proof fn lemma_ten_tower()
    ensures
        pow(10, 0x40_0000_0000) <= pow2(913124641742),
{
    lemma2_to64();
    lemma2_to64_rest();
    lemma_pow1(10);
    numerals::lemma_pow_product(10, 1, 1, 10, 10);
    numerals::lemma_pow_product(10, 2, 2, 100, 100);
    numerals::lemma_pow_product(10, 4, 4, 10000, 10000);
    numerals::lemma_pow_product(10, 8, 8, 100000000, 100000000);
    lemma_tower_step(16, 10000000000000000, 0, 11368683772161602974, 43);
    lemma_tower_step(32, 11368683772161602974, 43, 14012984643248170710, 63);
    lemma_tower_step(64, 14012984643248170710, 149, 10644899600020376801, 64);
    lemma_tower_step(128, 10644899600020376801, 362, 12285516299433008785, 63);
    lemma_tower_step(256, 12285516299433008785, 787, 16364287392998134224, 63);
    lemma_tower_step(512, 16364287392998134224, 1637, 14516919669433371688, 64);
    lemma_tower_step(1024, 14516919669433371688, 3338, 11424290153682525695, 64);
    lemma_tower_step(2048, 11424290153682525695, 6740, 14150400200058902493, 63);
    lemma_tower_step(4096, 14150400200058902493, 13543, 10854697448055447936, 64);
    lemma_tower_step(8192, 10854697448055447936, 27150, 12774553191394444454, 63);
    lemma_tower_step(16384, 12774553191394444454, 54363, 17693009518394583525, 63);
    lemma_tower_step(32768, 17693009518394583525, 108789, 16970072581217850240, 64);
    lemma_tower_step(65536, 16970072581217850240, 217642, 15611609412537905906, 64);
    lemma_tower_step(131072, 15611609412537905906, 435348, 13212214983618556059, 64);
    lemma_tower_step(262144, 13212214983618556059, 870760, 9463058850702154091, 64);
    lemma_tower_step(524288, 9463058850702154091, 1741584, 9708974380956368163, 63);
    lemma_tower_step(1048576, 9708974380956368163, 3483231, 10220143257087104795, 63);
    lemma_tower_step(2097152, 10220143257087104795, 6966525, 11324635694843068823, 63);
    lemma_tower_step(4194304, 11324635694843068823, 13933113, 13904608109535486765, 63);
    lemma_tower_step(8388608, 13904608109535486765, 27866289, 10480880848523674164, 64);
    lemma_tower_step(16777216, 10480880848523674164, 55732642, 11909837630100568032, 63);
    lemma_tower_step(33554432, 11909837630100568032, 111465347, 15378782489590350895, 63);
    lemma_tower_step(67108864, 15378782489590350895, 222930757, 12821067496632232481, 64);
    lemma_tower_step(134217728, 12821067496632232481, 445861578, 17822090564749025460, 63);
    lemma_tower_step(268435456, 17822090564749025460, 891723219, 17218589406831998787, 64);
    lemma_tower_step(536870912, 17218589406831998787, 1783446502, 16072203310047140264, 64);
    lemma_tower_step(1073741824, 16072203310047140264, 3566893068, 14003323199330547319, 64);
    lemma_tower_step(2147483648, 14003323199330547319, 7133786200, 10630226116942909536, 64);
    lemma_tower_step(4294967296, 10630226116942909536, 14267572464, 12251669654634182619, 63);
    lemma_tower_step(8589934592, 12251669654634182619, 28535144991, 16274244248903811792, 63);
    lemma_tower_step(17179869184, 16274244248903811792, 57070290045, 14357602881824907557, 64);
    lemma_tower_step(34359738368, 14357602881824907557, 114140580154, 11174913019256355615, 64);
    lemma_tower_step(68719476736, 11174913019256355615, 228281160372, 13539373722425444257, 63);
    lemma_tower_step(137438953472, 13539373722425444257, 456562320807, 9937506589944299978, 64);
    lemma_pow2_adds(913124641678, 64);
    lemma_pow2_pos(913124641678);
    let e = pow2(913124641678) as int;
}

/// Why no plan can be made for a number of digits.
pub open spec fn plan_error(digits: u64) -> Option<PlanError> {
    if digits > MAX_DIGITS {
        Some(PlanError::TooManyDigits { digits })
    } else if digits > 0 && precision_for(digits as int) > 0x100_0000_0000 {
        Some(
            PlanError::TooPrecise {
                digits,
                bits: precision_for(digits as int) as u64,
                cap: 0x100_0000_0000,
            },
        )
    } else {
        None
    }
}

impl PrecisionPlan {
    /// The plan for a number of digits.
    pub fn for_digits(digits: u64) -> (r: Result<PrecisionPlan, PlanError>)
        ensures
            match r {
                Ok(plan) => plan_error(digits) is None && plan.digits == digits
                    && plan.precision_bits == if digits == 0 {
                    0
                } else {
                    precision_for(digits as int)
                },
                Err(e) => plan_error(digits) == Some(e),
            },
    {
        if digits == 0 {
            return Ok(PrecisionPlan { digits: 0, precision_bits: 0 });
        }
        if digits > MAX_DIGITS {
            return Err(PlanError::TooManyDigits { digits });
        }
        let product: u128 = scaled_product(digits);
        let whole: u128 = (product + 0x7_FFFF_FFFF_FFFF) / 0x8_0000_0000_0000;
        proof {
            assert(whole <= 0x100_0000_0000_0001);
            assert(whole as int == (scaled_bits(digits as int) + (0x8_0000_0000_0000 - 1))
                / 0x8_0000_0000_0000);
        }
        let precision_bits: u64 = whole as u64 + SAFETY_BITS;
        let cap: u64 = prec_max_64();
        proof {
            lemma2_to64_rest();
        }
        if precision_bits > cap {
            return Err(PlanError::TooPrecise { digits, bits: precision_bits, cap });
        }
        Ok(PrecisionPlan { digits, precision_bits })
    }
}

/// Double precision is close to the exact product.
pub proof fn lemma_scaled_bits(digits: int)
    requires
        0 < digits,
    ensures
        scaled_bits(digits) * 0x20_0000_0000_0000 >= digits * LOG2_10_SCALED * (
        0x20_0000_0000_0000 - 2),
        scaled_bits(digits) * 0x20_0000_0000_0000 <= digits * LOG2_10_SCALED * (
        0x20_0000_0000_0000 + 2),
{
    let x = digits * LOG2_10_SCALED;
    assert(x > 0) by (nonlinear_arith)
        requires
            digits > 0,
            x == digits * LOG2_10_SCALED,
            LOG2_10_SCALED > 0,
    ;
    let drop = double::double_drop(x);
    let p = pow2(drop) as int;
    lemma2_to64();
    lemma2_to64_rest();
    lemma_pow2_pos(drop);
    lemma_fundamental_div_mod(x, p);
    lemma_mod_bound(x, p);
    bitlen::lemma_bit_len(x);
    let q = x / p;
    let r = x % p;
    let v = double::round_even(x, drop);
    assert(q * p == p * q && (q + 1) * p == p * q + p) by (nonlinear_arith);
    // |v * p - x| <= p / 2, and p * 2^52 <= x unless nothing was dropped.
    assert(2 * (v * p - x) <= p && 2 * (x - v * p) <= p);
    if drop == 0 {
        assert(p == 1);
        assert(r == 0);
        assert(v * p == x);
    } else {
        lemma_pow2_adds(drop, 52);
        assert(p * 0x10_0000_0000_0000 <= x);
    }
    assert(v * p * 0x20_0000_0000_0000 >= x * (0x20_0000_0000_0000 - 2) && v * p
        * 0x20_0000_0000_0000 <= x * (0x20_0000_0000_0000 + 2)) by (nonlinear_arith)
        requires
            v * p == x || (2 * (v * p - x) <= p && 2 * (x - v * p) <= p && p
                * 0x10_0000_0000_0000 <= x),
            x > 0,
    ;
}

/// The planned precision is at most four bits for each digit, and the safety.
pub proof fn lemma_precision_upper(digits: nat)
    requires
        digits > 0,
    ensures
        256 <= precision_for(digits as int) <= 4 * digits + 258,
        scaled_bits(digits as int) >= 0,
        precision_for(digits as int) <= 0x100_0000_0000 ==> digits <= 400_000_000_000,
{
    let d = digits as int;
    let m = LOG2_10_SCALED as int;
    let f = scaled_bits(d);
    let x = d * m;
    lemma_scaled_bits(d);
    assert(x == d * 7480317065143153);
    assert(f >= 0) by (nonlinear_arith)
        requires
            f * 0x20_0000_0000_0000 >= x * (0x20_0000_0000_0000 - 2),
            x >= 0,
    ;
    let c = (f + (0x8_0000_0000_0000 - 1)) / 0x8_0000_0000_0000;
    assert(c * 0x8_0000_0000_0000 >= f);
    assert((c - 1) * 0x8_0000_0000_0000 <= f);
    assert(f * 0x20_0000_0000_0000 <= x * (0x20_0000_0000_0000 + 2));
    assert(f <= d * 0x20_0000_0000_0000) by (nonlinear_arith)
        requires
            f * 0x20_0000_0000_0000 <= x * (0x20_0000_0000_0000 + 2),
            x == d * 7480317065143153,
            d > 0,
    ;
    assert(c <= 4 * d + 1);
}

/// Powers with a larger base are larger, and only those.
pub proof fn lemma_root_order(a: int, b: int, n: nat)
    requires
        0 <= a,
        0 <= b,
        n > 0,
        pow(a, n) <= pow(b, n),
    ensures
        a <= b,
{
    if a > b {
        lemma_pow_strictly_monotone(b, a, n);
    }
}

proof fn lemma_pow_strictly_monotone(a: int, b: int, n: nat)
    requires
        0 <= a < b,
        n > 0,
    ensures
        pow(a, n) < pow(b, n),
    decreases n,
{
    if n == 1 {
        lemma_pow1(a);
        lemma_pow1(b);
    } else {
        let k = (n - 1) as nat;
        lemma_pow_strictly_monotone(a, b, k);
        lemma_pow_adds(a, 1, k);
        lemma_pow_adds(b, 1, k);
        lemma_pow1(a);
        lemma_pow1(b);
        let x = pow(a, k);
        let y = pow(b, k);
        lemma_pow_nonnegative(a, k);
        assert(a * x < b * y) by (nonlinear_arith)
            requires
                0 <= a < b,
                0 <= x < y,
        ;
    }
}

proof fn lemma_pow_nonnegative(a: int, n: nat)
    requires
        a >= 0,
    ensures
        pow(a, n) >= 0,
    decreases n,
{
    if n == 0 {
        lemma_pow0(a);
    } else {
        lemma_pow_nonnegative(a, (n - 1) as nat);
        lemma_pow_adds(a, 1, (n - 1) as nat);
        lemma_pow1(a);
        let x = pow(a, (n - 1) as nat);
        assert(a * x >= 0) by (nonlinear_arith)
            requires
                a >= 0,
                x >= 0,
        ;
    }
}

/// `10^digits <= 2^e` where `e` is at least the digits times the logarithm.
pub proof fn lemma_ten_bound(digits: nat)
    ensures
        pow(10, digits) <= pow2(((913124641742 * digits) / 0x40_0000_0000 + 1) as nat),
{
    let n: nat = 0x40_0000_0000;
    let j: int = 913124641742;
    let d = digits as int;
    let e = (j * d) / (n as int) + 1;
    lemma_fundamental_div_mod(j * d, n as int);
    lemma_mod_bound(j * d, n as int);
    assert(e * n >= j * d) by (nonlinear_arith)
        requires
            j * d == n * (e - 1) + (j * d) % (n as int),
            (j * d) % (n as int) < n,
    ;
    assert(0 <= j * d) by (nonlinear_arith)
        requires
            j > 0,
            d >= 0,
    ;
    let en = e as nat;
    // 10^d <= 2^e, by comparing powers n.
    lemma_ten_tower();
    lemma_pow_multiplies(10, digits, n);
    lemma_pow_multiplies(10, n, digits);
    lemma_mul_is_commutative(digits as int, n as int);
    lemma_pow_positive(10, n);
    lemma_pow_base_monotone(pow(10, n), pow2(913124641742) as int, digits);
    lemma_pow2(913124641742);
    lemma_pow_multiplies(2, 913124641742, digits);
    lemma_pow2(en);
    lemma_pow_multiplies(2, en, n);
    lemma_pow_increases(2, 913124641742 * digits, en * n);
    lemma_pow_positive(10, digits);
    lemma_pow2_pos(en);
    lemma_root_order(pow(10, digits), pow2(en) as int, n);
}

/// The planned precision holds the digits with 250 bits to spare.
pub proof fn law_precision_suffices(digits: nat)
    requires
        digits > 0,
        precision_for(digits as int) <= 0x100_0000_0000,
    ensures
        precision_for(digits as int) >= 256,
        pow(10, digits) <= pow2((precision_for(digits as int) - 250) as nat),
{
    let d = digits as int;
    let m = LOG2_10_SCALED as int;
    let f = scaled_bits(d);
    lemma_scaled_bits(d);
    let x = d * m;
    let c = (f + (0x8_0000_0000_0000 - 1)) / 0x8_0000_0000_0000;
    assert(f >= 0) by (nonlinear_arith)
        requires
            f * 0x20_0000_0000_0000 >= x * (0x20_0000_0000_0000 - 2),
            x == d * m,
            d > 0,
            m > 0,
    ;
    assert(c * 0x8_0000_0000_0000 >= f);
    // The exponent that the tower gives.
    let n: nat = 0x40_0000_0000;
    let j: int = 913124641742;
    let e = (j * d) / (n as int) + 1;
    lemma_fundamental_div_mod(j * d, n as int);
    lemma_mod_bound(j * d, n as int);
    assert(e * n >= j * d) by (nonlinear_arith)
        requires
            j * d == n * (e - 1) + (j * d) % (n as int),
            (j * d) % (n as int) < n,
    ;
    assert((e - 1) * n <= j * d) by (nonlinear_arith)
        requires
            j * d == n * (e - 1) + (j * d) % (n as int),
            (j * d) % (n as int) >= 0,
    ;
    // c is at most the cap, so that d is bounded and e is at most c + 4.
    assert(f <= 0x100_0000_0000 * 0x8_0000_0000_0000);
    assert(x * (0x20_0000_0000_0000 - 2) <= f * 0x20_0000_0000_0000);
    assert(x == d * 7480317065143153);
    assert(d <= 400_000_000_000);
    assert(e <= c + 4);
    assert(0 <= j * d) by (nonlinear_arith)
        requires
            j > 0,
            d > 0,
    ;
    let en = e as nat;
    lemma_ten_bound(digits);
    let top = (precision_for(d) - 250) as nat;
    if en < top {
        lemma_pow2_strictly_increases(en, top);
    }
}

pub proof fn lemma_pow_base_monotone(a: int, b: int, n: nat)
    requires
        0 <= a <= b,
    ensures
        pow(a, n) <= pow(b, n),
{
    if n == 0 {
        lemma_pow0(a);
        lemma_pow0(b);
    } else if a < b {
        lemma_pow_strictly_monotone(a, b, n);
    }
}

/// The planned precision is 256 bits more than the digits take at
/// 3.3219280948873... bits each, rounded up to whole bits.
pub proof fn law_precision(digits: int)
    requires
        digits > 0,
    ensures
        digits * 332_192_809_488_736 <= (precision_for(digits) - 256) * 100_000_000_000_000,
        (precision_for(digits) - 257) * 100_000_000_000_000 < digits * 332_192_809_488_737,
{
    let f = scaled_bits(digits);
    lemma_scaled_bits(digits);
    let x = digits * 7480317065143153;
    assert(digits * LOG2_10_SCALED == x);
    let c = precision_for(digits) - 256;
    assert(c * 0x8_0000_0000_0000 >= f);
    assert((c - 1) * 0x8_0000_0000_0000 < f);
    assert(f * 0x20_0000_0000_0000 >= x * (0x20_0000_0000_0000 - 2));
    assert(f * 0x20_0000_0000_0000 <= x * (0x20_0000_0000_0000 + 2));
    assert((c - 1) * 100_000_000_000_000 < digits * 332_192_809_488_737) by (nonlinear_arith)
        requires
            (c - 1) * 0x8_0000_0000_0000 < f,
            f * 0x20_0000_0000_0000 <= digits * 7480317065143153 * (0x20_0000_0000_0000 + 2),
            digits > 0,
    ;
}

/// One digit more takes three or four bits more.
pub proof fn law_precision_grows(digits: int)
    requires
        0 < digits <= 400_000_000_000,
    ensures
        3 <= precision_for(digits + 1) - precision_for(digits) <= 4,
{
    law_precision(digits);
    law_precision(digits + 1);
}

/// A plan is refused for more than 2^53 digits, and where its precision is over
/// 2^40 bits; the refusal names the digits, the bits and the cap.
pub proof fn law_plan_error(digits: u64)
    ensures
        plan_error(0) is None,
        digits > 9_007_199_254_740_992 <==> plan_error(digits) == Some(
            PlanError::TooManyDigits { digits },
        ),
        0 < digits <= 9_007_199_254_740_992 ==> match plan_error(digits) {
            None => digits * 332_192_809_488_736 <= (1_099_511_627_776 - 256)
                * 100_000_000_000_000,
            Some(PlanError::TooPrecise { digits: d, bits, cap }) => {
                &&& d == digits
                &&& cap == 1_099_511_627_776
                &&& bits > 1_099_511_627_776
                &&& digits * 332_192_809_488_736 <= (bits - 256) * 100_000_000_000_000
                &&& (bits - 257) * 100_000_000_000_000 < digits * 332_192_809_488_737
            },
            Some(PlanError::TooManyDigits { .. }) => false,
        },
{
    if 0 < digits <= 9_007_199_254_740_992 {
        law_precision(digits as int);
        lemma_precision_upper(digits as nat);
    }
}

/// A refused plan in words: the digits that were asked for, and the limit.
pub proof fn law_plan_message(digits: u64, bits: u64, cap: u64)
    ensures
        plan_message(PlanError::TooManyDigits { digits }) == text::numeral(digits as int, 10)
            + " digits exceeds the supported maximum ("@ + text::numeral(
            9_007_199_254_740_992,
            10,
        ) + "); larger D would lose precision in the f64-based planning arithmetic"@,
        plan_message(PlanError::TooPrecise { digits, bits, cap }) == text::numeral(
            digits as int,
            10,
        ) + " digits requires "@ + text::numeral(bits as int, 10)
            + " bits of working precision, which exceeds MPFR's cap ("@ + text::numeral(
            cap as int,
            10,
        ) + ")"@,
{
}

/// The bits of so many digits in double precision: the exact product with the
/// logarithm, rounded to 53 bits.  The result is the number of bits cut off.
pub proof fn law_scaled_bits(digits: int) -> (drop: nat)
    requires
        digits > 0,
    ensures
        ({
            let x = digits * 7_480_317_065_143_153;
            let f = scaled_bits(digits);
            let p = pow2(drop) as int;
            &&& f % p == 0
            &&& -p <= 2 * (f - x) <= p
            &&& drop == 0 ==> f == x
            &&& drop > 0 ==> p * 4_503_599_627_370_496 <= x < p * 9_007_199_254_740_992
        }),
{
    let x = digits * 7_480_317_065_143_153;
    let drop = double::double_drop(x);
    let p = pow2(drop) as int;
    lemma_pow2_pos(drop);
    lemma2_to64();
    double::law_round_even(x, drop);
    double::law_double_drop(x);
    assert(scaled_bits(digits) == double::round_even(x, drop) * p);
    lemma_mod_multiples_basic(double::round_even(x, drop), p);
    drop
}

} // verus!
