//! Integers as text: parsing and rendering in base ten and sixteen.
//!
//! Rendering in base ten divides and conquers: a large number is split by a
//! power of ten of about half its length, and the halves are rendered by
//! themselves, the lower one padded with zeros.
use crate::bitlen;
use crate::double;
use crate::double::Double;
use crate::float;
use crate::integer;
use crate::integer::{Integer, add_signed, div_rem_small, mul_signed};
use crate::limbs;
use crate::limbs::copy_limbs;
use crate::newton_div::div_rem_signed;
use crate::reals;
use crate::text;
use crate::text::{push_decimal, push_numeral, push_padded, push_zeros};
use vstd::arithmetic::div_mod::*;
use vstd::arithmetic::mul::*;
use vstd::arithmetic::power2::*;
use vstd::arithmetic::power::*;
use vstd::prelude::*;
use vstd::string::*;

verus! {

/// Up to this many limbs a number is rendered chunk by chunk.
pub const TO_STRING_DC_THRESHOLD: usize = 32;

/// Decimal digits in a chunk.
pub const DECIMAL_CHUNK_DIGITS: u32 = 19;

/// The largest power of ten that fits a limb.
pub const DECIMAL_CHUNK: u64 = 10_000_000_000_000_000_000;

/// Why a text is not a number.
#[derive(Debug)]
pub struct ParseIntegerError(pub String);

/// Length of the sign in front of a numeral.
pub open spec fn sign_len(b: Seq<u8>) -> int {
    if b.len() > 0 && (b[0] == 43 || b[0] == 45) {
        1
    } else {
        0
    }
}

/// Index of the first byte that is no digit, or the length.
pub open spec fn first_non_digit(s: Seq<u8>, radix: int) -> int
    decreases s.len(),
{
    if s.len() == 0 {
        0
    } else if first_non_digit(s.drop_last(), radix) < s.len() - 1 {
        first_non_digit(s.drop_last(), radix)
    } else if text::digit_value(s.last(), radix) >= 0 {
        s.len() as int
    } else {
        s.len() - 1
    }
}

/// What is wrong with the text `b` as a numeral in base `radix`, if anything is.
pub open spec fn parse_failure(b: Seq<u8>, radix: int) -> Option<Seq<char>> {
    let digits = b.skip(sign_len(b));
    let bad = first_non_digit(digits, radix);
    if radix != 10 && radix != 16 {
        Some("unsupported radix "@ + text::numeral(radix, 10))
    } else if b.len() == 0 {
        Some("empty string"@)
    } else if digits.len() == 0 {
        Some("no digits"@)
    } else if bad < digits.len() {
        Some(
            "invalid character '"@ + seq![digits[bad] as char] + "' for radix "@ + text::numeral(
                radix,
                10,
            ),
        )
    } else {
        None
    }
}

/// The number that the numeral `b` denotes.
pub open spec fn parsed_value(b: Seq<u8>, radix: int) -> int {
    let v = text::numeral_value(b.skip(sign_len(b)), radix);
    if b.len() > 0 && b[0] == 45 {
        -v
    } else {
        v
    }
}

proof fn lemma_first_non_digit(s: Seq<u8>, radix: int)
    ensures
        0 <= first_non_digit(s, radix) <= s.len(),
        first_non_digit(s, radix) == s.len() ==> text::all_digits(s, radix),
        first_non_digit(s, radix) < s.len() ==> text::digit_value(s[first_non_digit(s, radix)], radix) < 0,
    decreases s.len(),
{
    if s.len() > 0 {
        lemma_first_non_digit(s.drop_last(), radix);
        if first_non_digit(s, radix) == s.len() {
            assert forall|i: int| 0 <= i < s.len() implies text::digit_value(#[trigger] s[i], radix)
                >= 0 by {
                if i < s.len() - 1 {
                    assert(s.drop_last()[i] == s[i]);
                }
            }
        }
    }
}

/// Once a prefix has a non-digit, it stays the first one.
proof fn lemma_first_non_digit_prefix(s: Seq<u8>, k: int, radix: int)
    requires
        0 <= k <= s.len(),
        first_non_digit(s.take(k), radix) < k,
    ensures
        first_non_digit(s, radix) == first_non_digit(s.take(k), radix),
    decreases s.len() - k,
{
    if k < s.len() {
        lemma_first_non_digit(s.take(k), radix);
        assert(s.take(k + 1).drop_last() =~= s.take(k));
        lemma_first_non_digit_prefix(s, k + 1, radix);
    } else {
        assert(s.take(k) =~= s);
    }
}

pub proof fn lemma_numeral_value_bound(s: Seq<u8>, radix: int)
    requires
        2 <= radix <= 16,
        text::all_digits(s, radix),
    ensures
        0 <= text::numeral_value(s, radix) < pow2(4 * s.len()),
    decreases s.len(),
{
    lemma2_to64();
    if s.len() > 0 {
        let t = s.drop_last();
        assert forall|i: int| 0 <= i < t.len() implies text::digit_value(#[trigger] t[i], radix) >= 0 by {
            assert(t[i] == s[i]);
        }
        lemma_numeral_value_bound(t, radix);
        assert(text::digit_value(s[s.len() - 1], radix) >= 0);
        lemma_pow2_adds(4 * t.len(), 4);
        let v = text::numeral_value(t, radix);
        let p = pow2(4 * t.len()) as int;
        let d = text::digit_value(s.last(), radix);
        assert(0 <= v * radix + d < p * 16) by (nonlinear_arith)
            requires
                0 <= v,
                v + 1 <= p,
                2 <= radix <= 16,
                0 <= d < radix,
        ;
    }
}

proof fn lemma_utf8_len(s: Seq<char>)
    ensures
        vstd::utf8::encode_utf8(s).len() <= 4 * s.len(),
    decreases s.len(),
{
    reveal_with_fuel(vstd::utf8::encode_utf8, 2);
    if s.len() > 0 {
        lemma_utf8_len(s.drop_first());
    }
}

/// Digit value of a byte, or 255.
fn read_digit(b: u8, radix: u32) -> (r: u8)
    requires
        radix == 10 || radix == 16,
    ensures
        r == 255 <==> text::digit_value(b, radix as int) < 0,
        r != 255 ==> r == text::digit_value(b, radix as int),
{
    if 48 <= b && b <= 57 {
        b - 48
    } else if radix == 16 && 97 <= b && b <= 102 {
        b - 87
    } else if radix == 16 && 65 <= b && b <= 70 {
        b - 55
    } else {
        255
    }
}

impl Integer {
    /// Parse a numeral with an optional sign, in base ten or sixteen.
    pub fn parse_radix(s: &str, radix: u32) -> (r: Result<Integer, ParseIntegerError>)
        requires
            s@.len() / 4 + 2 <= limbs::limb_limit(),
        ensures
            match r {
                Ok(n) => {
                    &&& parse_failure(s.spec_bytes(), radix as int) is None
                    &&& n.wf()
                    &&& n@ == parsed_value(s.spec_bytes(), radix as int)
                },
                Err(e) => parse_failure(s.spec_bytes(), radix as int) == Some(e.0@),
            },
    {
        let ghost all = s.spec_bytes();
        let ghost rd = radix as int;
        if !(radix == 10 || radix == 16) {
            let mut message: String = "unsupported radix ".to_owned();
            push_decimal(&mut message, radix as u64);
            return Err(ParseIntegerError(message));
        }
        let bytes: &[u8] = s.as_bytes();
        if bytes.len() == 0 {
            return Err(ParseIntegerError("empty string".to_owned()));
        }
        let negative: bool = bytes[0] == 45;
        let start: usize = if bytes[0] == 45 || bytes[0] == 43 { 1 } else { 0 };
        if start == bytes.len() {
            return Err(ParseIntegerError("no digits".to_owned()));
        }
        let ghost digits = all.skip(sign_len(all));
        let mut result: Integer = Integer::new();
        let radix_int: Integer = Integer::from(radix as u64);
        let mut i: usize = start;
        proof {
            lemma_utf8_len(s@);
            assert(digits.take(0) =~= Seq::<u8>::empty());
        }
        while i < bytes.len()
            invariant
                start <= i <= bytes@.len(),
                start == sign_len(all),
                bytes@ == all,
                all == s.spec_bytes(),
                digits == all.skip(start as int),
                digits.len() > 0,
                rd == radix,
                radix == 10 || radix == 16,
                all.len() / 16 + 2 <= limbs::limb_limit(),
                result.wf(),
                radix_int.wf(),
                radix_int@ == rd,
                radix_int.size() <= 1,
                text::all_digits(digits.take(i - start), rd),
                first_non_digit(digits.take(i - start), rd) == i - start,
                result@ == text::numeral_value(digits.take(i - start), rd),
            decreases bytes@.len() - i,
        {
            let b: u8 = bytes[i];
            let digit: u8 = read_digit(b, radix);
            let ghost k = i - start;
            let ghost before = digits.take(k);
            let ghost after = digits.take(k + 1);
            proof {
                assert(after.drop_last() =~= before);
                assert(after.last() == b);
            }
            if digit == 255 {
                let mut message: String = "invalid character '".to_owned();
                message.push(b as char);
                message.append("' for radix ");
                push_decimal(&mut message, radix as u64);
                proof {
                    lemma_first_non_digit_prefix(digits, k + 1, rd);
                    assert(digits[k] == b);
                    let want = "invalid character '"@ + seq![digits[k] as char]
                        + "' for radix "@ + text::numeral(rd, 10);
                    assert("invalid character '"@.push(b as char) =~= "invalid character '"@
                        + seq![b as char]);
                    assert(message@ =~= want);
                }
                return Err(ParseIntegerError(message));
            }
            proof {
                lemma_numeral_value_bound(before, rd);
                integer::lemma_size_from_bits(result, 4 * before.len());
            }
            let scaled: Integer = mul_signed(&result, &radix_int);
            let d: Integer = Integer::from(digit as u64);
            proof {
                assert forall|j: int| 0 <= j < after.len() implies text::digit_value(
                    #[trigger] after[j],
                    rd,
                ) >= 0 by {
                    if j < before.len() {
                        assert(before[j] == after[j]);
                    }
                }
                lemma_numeral_value_bound(after, rd);
                lemma_pow2_adds(4 * before.len(), 4);
                lemma2_to64();
                let v = result@;
                let p = pow2(4 * before.len()) as int;
                assert(0 <= v * rd <= p * 16) by (nonlinear_arith)
                    requires
                        0 <= v <= p,
                        0 <= rd <= 16,
                ;
                integer::lemma_size_from_bits(scaled, 4 * before.len() + 4);
            }
            result = add_signed(&scaled, &d);
            i = i + 1;
        }
        proof {
            assert(digits.take(digits.len() as int) =~= digits);
            lemma_numeral_value_bound(digits, rd);
            integer::lemma_zero(result);
        }
        Ok(Integer::from_parts(result.limbs, negative))
    }
}

/// Pushing the chunks of a number, most significant first, spells the number.
fn push_chunks(out: &mut String, chunks: &[u64], radix: u64, width: u32)
    requires
        2 <= radix <= 16,
        chunks@.len() > 0,
        chunks@.last() != 0,
        limbs::digits_below(chunks@, pow(radix as int, width as nat)),
    ensures
        final(out)@ == old(out)@ + text::numeral(
            limbs::digits_value(chunks@, pow(radix as int, width as nat)),
            radix as int,
        ),
{
    let ghost start = out@;
    let ghost rd = radix as int;
    let ghost c = pow(rd, width as nat);
    let n: usize = chunks.len();
    let mut i: usize = n - 1;
    push_numeral(out, chunks[i] as u128, radix as u128);
    proof {
        limbs::lemma_value_skip_next(chunks@, i as int, c);
        assert(chunks@.skip(n as int) =~= Seq::<u64>::empty());
        assert(c * 0 == 0);
        assert(limbs::digits_value(chunks@.skip(i as int), c) == chunks@[i as int]);
    }
    while i > 0
        invariant
            i < n == chunks@.len(),
            2 <= radix <= 16,
            rd == radix,
            c == pow(rd, width as nat),
            limbs::digits_below(chunks@, c),
            limbs::digits_value(chunks@.skip(i as int), c) >= 1,
            out@ == start + text::numeral(limbs::digits_value(chunks@.skip(i as int), c), rd),
        decreases i,
    {
        let ghost high = limbs::digits_value(chunks@.skip(i as int), c);
        let ghost prior = out@;
        i = i - 1;
        push_padded(out, chunks[i], radix, width);
        proof {
            limbs::lemma_value_skip_next(chunks@, i as int, c);
            let low = chunks@[i as int] as int;
            let v = limbs::digits_value(chunks@.skip(i as int), c);
            lemma_pow_positive(rd, width as nat);
            lemma_mul_is_commutative(c, high);
            lemma_fundamental_div_mod_converse(v, c, high, low);
            assert(v >= c) by (nonlinear_arith)
                requires
                    v == low + c * high,
                    low >= 0,
                    high >= 1,
                    c >= 1,
            ;
            text::lemma_numeral_split(v, rd, width as nat);
            assert(out@ =~= start + (text::numeral(high, rd) + text::padded(low, rd, width as nat)));
        }
    }
    assert(chunks@.skip(0) =~= chunks@);
}

pub proof fn lemma_chunk_bases()
    ensures
        pow(16, 16) == limbs::base(),
        pow(10, 19) == DECIMAL_CHUNK,
{
    lemma_pow1(16);
    lemma_pow_product(16, 1, 1, 16, 16);
    lemma_pow_product(16, 2, 2, 0x100, 0x100);
    lemma_pow_product(16, 4, 4, 0x1_0000, 0x1_0000);
    lemma_pow_product(16, 8, 8, 0x1_0000_0000, 0x1_0000_0000);
    lemma_pow1(10);
    lemma_pow_product(10, 1, 1, 10, 10);
    lemma_pow_product(10, 2, 1, 100, 10);
    lemma_pow_product(10, 2, 2, 100, 100);
    lemma_pow_product(10, 4, 4, 10_000, 10_000);
    lemma_pow_product(10, 8, 8, 100_000_000, 100_000_000);
    lemma_pow_product(10, 16, 3, 10_000_000_000_000_000, 1000);
}

/// A product of two powers of one number.
pub proof fn lemma_pow_product(b: int, i: nat, j: nat, x: int, y: int)
    requires
        pow(b, i) == x,
        pow(b, j) == y,
    ensures
        pow(b, i + j) == x * y,
{
    lemma_pow_adds(b, i, j);
}

/// Append a positive number in base ten, cutting off chunks of 19 digits.
pub fn write_decimal_naive(n: &Integer, out: &mut String)
    requires
        n.wf(),
        n@ > 0,
    ensures
        final(out)@ == old(out)@ + text::numeral(n@, 10),
{
    let ghost c = pow(10, 19);
    let mut mag: Integer = n.clone();
    let mut chunks: Vec<u64> = Vec::new();
    proof {
        lemma_chunk_bases();
        lemma_pow0(c);
        assert(n@ * 1 == n@);
    }
    while !mag.is_zero()
        invariant
            mag.wf(),
            c == pow(10, 19) == DECIMAL_CHUNK,
            n@ > 0,
            mag@ >= 0,
            limbs::digits_below(chunks@, c),
            n@ == limbs::digits_value(chunks@, c) + mag@ * pow(c, chunks@.len()),
            mag@ == 0 ==> chunks@.len() > 0 && chunks@.last() != 0,
        decreases mag@,
    {
        let ghost before = chunks@;
        let ghost m0 = mag@;
        let (q, r) = div_rem_small(&mag, DECIMAL_CHUNK);
        chunks.push(r);
        mag = q;
        proof {
            lemma_fundamental_div_mod(m0, c);
            lemma_mod_bound(m0, c);
            limbs::lemma_value_push(before, r, c);
            lemma_pow_adds(c, before.len(), 1);
            lemma_pow1(c);
            let p = pow(c, before.len());
            let qq = m0 / c;
            let rr = m0 % c;
            assert(m0 * p == rr * p + qq * (p * c)) by (nonlinear_arith)
                requires
                    m0 == c * qq + rr,
            ;
            assert(qq < m0 && qq >= 0) by (nonlinear_arith)
                requires
                    m0 == c * qq + rr,
                    0 <= rr < c,
                    m0 > 0,
                    c >= 2,
            ;
            assert(qq == 0 ==> rr == m0) by (nonlinear_arith)
                requires
                    m0 == c * qq + rr,
            ;
            assert forall|i: int| 0 <= i < chunks@.len() implies (#[trigger] chunks@[i]) < c by {
                if i < before.len() {
                    assert(chunks@[i] == before[i]);
                }
            }
        }
    }
    proof {
        assert(0 * pow(c, chunks@.len()) == 0);
    }
    push_chunks(out, &chunks, 10, 19);
}

/// `log10(2) = 0.301029995663981` in double precision, times `2^54`.
pub const LOG10_TWO_SCALED: u64 = 5_422_874_305_198_587;

/// Decimal digits of a number of `bits` bits: the product with `log10(2)` in
/// double precision, rounded up.
pub open spec fn estimated_digits(bits: int) -> int {
    Double::product(
        Double::of(bits, 0),
        (Double { mant: LOG10_TWO_SCALED, exp: (-54) as i32 }),
    ).ceiling()
}

/// Estimate of the decimal digits of a number of `bits` bits, held to 32 bits.
pub fn decimal_digits_estimate(bits: u64) -> (r: u32)
    ensures
        estimated_digits(bits as int) <= 0xffff_ffff ==> r == estimated_digits(bits as int),
        estimated_digits(bits as int) > 0xffff_ffff ==> r == 0xffff_ffff,
{
    let log: Double = Double { mant: LOG10_TWO_SCALED, exp: -54 };
    let est: u128 = Double::from_u64(bits).times(log).to_ceiling();
    if est <= 0xffff_ffffu128 {
        est as u32
    } else {
        0xffff_ffff
    }
}

/// The estimate is at most a third of the bits, and one more.
proof fn lemma_estimate_bound(bits: int)
    requires
        0 < bits <= u64::MAX,
    ensures
        3 * (estimated_digits(bits) - 1) <= bits,
{
    let a = Double::of(bits, 0);
    let log = Double { mant: LOG10_TWO_SCALED, exp: (-54) as i32 };
    let d = Double::product(a, log);
    let u = reals::rpow2(-53);
    lemma2_to64();
    bitlen::lemma_bit_len_at_most(bits, 64);
    double::lemma_of_value(bits, 0);
    let x = a.mant * log.mant;
    assert(0 < x < 0x20_0000_0000_0001 * 0x20_0000_0000_0000) by (nonlinear_arith)
        requires
            0 < a.mant <= 0x20_0000_0000_0000,
            x == a.mant * 5_422_874_305_198_587,
    ;
    lemma_pow2_adds(64, 64);
    bitlen::lemma_bit_len_at_most(x, 128);
    double::lemma_of_value(x, a.exp + log.exp);
    float::lemma_scaled_product(
        false,
        a.mant as int,
        a.exp as int,
        false,
        log.mant as int,
        log.exp as int,
    );
    reals::lemma_rpow2_nat(54);
    reals::lemma_rpow2_step(-54);
    reals::lemma_rpow2_add(-54, 54);
    reals::lemma_rpow2_step(0);
    lemma2_to64_rest();
    let b = bits as real;
    let w = reals::rpow2(-54);
    let p = 0x40_0000_0000_0000real;
    let av = a.value();
    let lv = log.value();
    let pv = av * lv;
    let dv = d.value();
    assert(b * 1real == b) by (nonlinear_arith);
    assert(b * (1real * u) == b * u && pv * (1real * u) == pv * u) by (nonlinear_arith);
    assert(w * p == 1real);
    assert(u == 2real * w);
    assert(u <= 1real / 1000real) by (nonlinear_arith)
        requires
            w * p == 1real,
            p == 0x40_0000_0000_0000real,
            u == 2real * w,
    ;
    assert(0real < lv <= 302real / 1000real) by (nonlinear_arith)
        requires
            lv == 5_422_874_305_198_587real * w,
            w * p == 1real,
            p == 0x40_0000_0000_0000real,
    ;
    assert(0real <= av <= b + b / 1000real) by (nonlinear_arith)
        requires
            b - b * u <= av <= b + b * u,
            0real < u <= 1real / 1000real,
            b > 0real,
    ;
    assert(0real <= pv <= (b + b / 1000real) * (302real / 1000real)) by (nonlinear_arith)
        requires
            0real <= av <= b + b / 1000real,
            0real < lv <= 302real / 1000real,
            pv == av * lv,
            b > 0real,
    ;
    assert(dv <= pv + pv / 1000real) by (nonlinear_arith)
        requires
            dv <= pv + pv * u,
            0real < u <= 1real / 1000real,
            pv >= 0real,
    ;
    double::lemma_ceiling(d);
    let c = estimated_digits(bits);
    assert(3real * ((c as real) - 1real) <= b);
}

/// A power of ten with half as many digits as `n` does not exceed it.
proof fn lemma_splitter_fits(n: int, bits: int, m: nat)
    requires
        n >= 1,
        bits == bitlen::bit_len(n),
        4 * m + 1 <= bits,
    ensures
        1 <= pow(10, m) <= n,
{
    bitlen::lemma_bit_len(n);
    lemma_pow_positive(10, m);
    lemma_ten_power(m);
    if 4 * m < bits - 1 {
        lemma_pow2_strictly_increases(4 * m, (bits - 1) as nat);
    }
}

pub proof fn lemma_ten_power(m: nat)
    ensures
        pow(10, m) <= pow2(4 * m),
    decreases m,
{
    reveal(pow);
    lemma2_to64();
    if m > 0 {
        lemma_ten_power((m - 1) as nat);
        lemma_pow2_adds(4, (4 * (m - 1)) as nat);
    }
}

/// Append a positive number in base ten.
pub fn to_decimal_top(n: &Integer, out: &mut String)
    requires
        n.wf(),
        n@ > 0,
    ensures
        final(out)@ == old(out)@ + text::numeral(n@, 10),
    decreases n@,
{
    if n.limbs.len() <= TO_STRING_DC_THRESHOLD {
        write_decimal_naive(n, out);
        return;
    }
    let bits: u64 = n.bits();
    let m: u32 = decimal_digits_estimate(bits) / 2;
    let ghost start = out@;
    proof {
        integer::lemma_zero(*n);
        limbs::lemma_limb_limit();
        limbs::lemma_value_lower(n.limbs@);
        limbs::lemma_weight_pow2((n.size() - 1) as nat);
        bitlen::lemma_bit_len(n@);
        if bits <= 2048 {
            if bits < 2048 {
                lemma_pow2_strictly_increases(bits as nat, 2048);
            }
            if 64 * (n.size() - 1) > 2048 {
                lemma_pow2_strictly_increases(2048, (64 * (n.size() - 1)) as nat);
            }
            assert(false);
        }
        lemma_estimate_bound(bits as int);
        lemma_splitter_fits(n@, bits as int, m as nat);
    }
    if m == 0 {
        write_decimal_naive(n, out);
        return;
    }
    let splitter: Integer = Integer::u_pow_u(10, m);
    let (hi, lo) = div_rem_signed(n, &splitter);
    proof {
        let p = pow(10, m as nat);
        text::lemma_numeral_split(n@, 10, m as nat);
        lemma_mod_bound(n@, p);
        lemma_fundamental_div_mod(n@, p);
        lemma_ten_at_least(m as nat);
        assert(hi@ < n@) by (nonlinear_arith)
            requires
                n@ == p * hi@ + n@ % p,
                n@ % p >= 0,
                p >= 2,
                hi@ >= 1,
        ;
    }
    to_decimal_top(&hi, out);
    to_decimal_padded(&lo, m as usize, out);
    assert(out@ =~= start + text::numeral(n@, 10));
}

proof fn lemma_ten_at_least(m: nat)
    requires
        m >= 1,
    ensures
        pow(10, m) >= 10,
{
    lemma_pow_adds(10, 1, (m - 1) as nat);
    lemma_pow1(10);
    lemma_pow_positive(10, (m - 1) as nat);
    let p = pow(10, (m - 1) as nat);
    assert(10 * p >= 10) by (nonlinear_arith)
        requires
            p >= 1,
    ;
}

/// Append exactly `want_len` decimal digits of a number below `10^want_len`.
pub fn to_decimal_padded(n: &Integer, want_len: usize, out: &mut String)
    requires
        n.wf(),
        0 <= n@ < pow(10, want_len as nat),
        want_len <= 0xffff_ffff,
        want_len / 32 + 3 <= limbs::limb_limit(),
    ensures
        final(out)@ == old(out)@ + text::padded(n@, 10, want_len as nat),
    decreases want_len,
{
    let ghost start = out@;
    if n.is_zero() {
        push_zeros(out, want_len);
        proof {
            text::lemma_padded_zero(10, want_len as nat);
        }
        return;
    }
    if n.limbs.len() <= TO_STRING_DC_THRESHOLD {
        let mut buf: String = String::new();
        write_decimal_naive(n, &mut buf);
        let len: usize = buf.as_str().unicode_len();
        proof {
            assert(Seq::<char>::empty() + text::numeral(n@, 10) =~= text::numeral(n@, 10));
            text::lemma_padded_numeral(n@, 10, want_len as nat);
        }
        push_zeros(out, want_len - len);
        out.append(buf.as_str());
        proof {
            assert(out@ =~= start + text::padded(n@, 10, want_len as nat));
        }
        return;
    }
    let m: usize = want_len / 2;
    proof {
        limbs::lemma_limb_limit();
        integer::lemma_zero(*n);
        limbs::lemma_value_lower(n.limbs@);
        limbs::lemma_weight_step(0);
        limbs::lemma_weight_monotone(1, (n.size() - 1) as nat);
        if want_len <= 1 {
            lemma_pow0(10);
            lemma_pow1(10);
            assert(false);
        }
    }
    let splitter: Integer = Integer::u_pow_u(10, m as u32);
    proof {
        lemma_pow_positive(10, m as nat);
    }
    let (hi, lo) = div_rem_signed(n, &splitter);
    proof {
        let p = pow(10, m as nat);
        let h = pow(10, (want_len - m) as nat);
        text::lemma_padded_split(n@, 10, (want_len - m) as nat, m as nat);
        lemma_mod_bound(n@, p);
        lemma_pow_adds(10, (want_len - m) as nat, m as nat);
        lemma_div_pos_is_pos(n@, p);
        lemma_pow_positive(10, (want_len - m) as nat);
        lemma_div_by_multiple_is_strongly_ordered(n@, h * p, h, p);
        lemma_div_by_multiple(h, p);
    }
    to_decimal_padded(&hi, want_len - m, out);
    to_decimal_padded(&lo, m, out);
    assert(out@ =~= start + text::padded(n@, 10, want_len as nat));
}

impl Integer {
    /// Render in base ten or sixteen.  Zero renders in any base.
    pub fn to_string_radix(&self, radix: u32) -> (r: String)
        requires
            self.wf(),
            self@ == 0 || radix == 10 || radix == 16,
        ensures
            r@ == text::signed_numeral(self@, radix as int),
    {
        if self.is_zero() {
            proof {
                reveal_strlit("0");
                assert("0"@ =~= seq!['0']);
                assert(text::digit_char(0) == '0');
            }
            return "0".to_owned();
        }
        let mut out: String = String::new();
        let mag: Integer = Integer::from_parts(copy_limbs(&self.limbs), false);
        if self.negative {
            out.push('-');
        }
        proof {
            integer::lemma_zero(*self);
            integer::lemma_zero(mag);
        }
        if radix == 16 {
            proof {
                lemma_chunk_bases();
                assert(limbs::digits_below(mag.limbs@, limbs::base()));
            }
            push_chunks(&mut out, &mag.limbs, 16, 16);
        } else {
            to_decimal_top(&mag, &mut out);
        }
        proof {
            if self.negative {
                assert(Seq::<char>::empty().push('-') =~= seq!['-']);
            } else {
                assert(Seq::<char>::empty() + text::numeral(self@, radix as int) =~= text::numeral(
                    self@,
                    radix as int,
                ));
            }
        }
        out
    }

    /// The number in base ten.
    pub fn to_text(&self) -> (r: String)
        requires
            self.wf(),
        ensures
            r@ == text::signed_numeral(self@, 10),
    {
        self.to_string_radix(10)
    }
}

/// Rendering and parsing are inverse: the text of a number is a numeral, and it
/// denotes the number.  The text is `0` for zero; otherwise it is a sign where
/// the number is negative, and lower-case digits of which the first is not `0`.
pub proof fn law_render_parse(n: int, radix: int)
    requires
        radix == 10 || radix == 16,
    ensures
        parse_failure(vstd::utf8::encode_utf8(text::signed_numeral(n, radix)), radix) is None,
        parsed_value(vstd::utf8::encode_utf8(text::signed_numeral(n, radix)), radix) == n,
        n == 0 ==> text::signed_numeral(n, radix) == seq!['0'],
        n < 0 ==> text::signed_numeral(n, radix)[0] == '-',
        n != 0 ==> ({
            let digits = text::signed_numeral(n, radix).skip(if n < 0 { 1int } else { 0 });
            digits.len() > 0 && digits[0] != '0' && text::lower_digits(digits, radix)
        }),
{
    let m = if n < 0 { -n } else { n };
    let digits = text::numeral(m, radix);
    text::lemma_numeral_value(m, radix);
    text::lemma_numeral_form(m, radix);
    let s = text::signed_numeral(n, radix);
    assert(s.skip(if n < 0 { 1int } else { 0 }) =~= digits);
    let b = text::ascii_bytes(s);
    assert(vstd::utf8::is_ascii_chars(s)) by {
        assert forall|i: int| 0 <= i < s.len() implies 0 <= #[trigger] (s[i] as nat) < 128 by {
            if n < 0 {
                if i > 0 {
                    assert(s[i] == digits[i - 1]);
                }
            } else {
                assert(s[i] == digits[i]);
            }
        }
    }
    vstd::utf8::is_ascii_chars_encode_utf8(s);
    assert(vstd::utf8::encode_utf8(s) =~= b);
    let d = text::ascii_bytes(digits);
    assert(text::digit_value(d[0], radix) >= 0);
    if n < 0 {
        assert(b[0] == 45);
        assert(b.skip(1) =~= d);
    } else {
        assert(b =~= d);
        assert(b.skip(0) =~= d);
    }
    lemma_first_non_digit(d, radix);
}

/// A numeral is digits behind an optional sign: a text parses just where something
/// follows the sign, and all of it is digits in the base.
pub proof fn law_parses(b: Seq<u8>, radix: int)
    requires
        radix == 10 || radix == 16,
    ensures
        ({
            let from: int = if b.len() > 0 && (b[0] == 43 || b[0] == 45) {
                1
            } else {
                0
            };
            parse_failure(b, radix) is None <==> b.len() > from && forall|i: int|
                from <= i < b.len() ==> text::digit_value(#[trigger] b[i], radix) >= 0
        }),
{
    let from = sign_len(b);
    let d = b.skip(from);
    lemma_first_non_digit(d, radix);
    if parse_failure(b, radix) is None {
        assert forall|i: int| from <= i < b.len() implies text::digit_value(#[trigger] b[i], radix)
            >= 0 by {
            assert(text::digit_value(d[i - from], radix) >= 0);
        }
    }
    if b.len() > from && forall|i: int|
        from <= i < b.len() ==> text::digit_value(#[trigger] b[i], radix) >= 0 {
        if first_non_digit(d, radix) < d.len() {
            assert(text::digit_value(b[from + first_non_digit(d, radix)], radix) >= 0);
        }
    }
}

/// A minus sign negates the number that follows it, and a plus sign changes
/// nothing.
pub proof fn law_signs(d: Seq<u8>, radix: int)
    requires
        radix == 10 || radix == 16,
        d.len() > 0,
        forall|i: int| 0 <= i < d.len() ==> text::digit_value(#[trigger] d[i], radix) >= 0,
    ensures
        parsed_value(d, radix) == text::numeral_value(d, radix),
        parsed_value(seq![43u8] + d, radix) == text::numeral_value(d, radix),
        parsed_value(seq![45u8] + d, radix) == -text::numeral_value(d, radix),
{
    assert(text::digit_value(d[0], radix) >= 0);
    assert(d.skip(0) =~= d);
    assert((seq![43u8] + d).skip(1) =~= d);
    assert((seq![45u8] + d).skip(1) =~= d);
}

/// Why a text does not parse: another base than ten or sixteen, nothing at all,
/// nothing behind a sign, or the first byte behind the sign that is no digit.
pub proof fn law_parse_failure(b: Seq<u8>, radix: int, k: int)
    ensures
        radix != 10 && radix != 16 ==> parse_failure(b, radix) == Some(
            "unsupported radix "@ + text::numeral(radix, 10),
        ),
        (radix == 10 || radix == 16) && b.len() == 0 ==> parse_failure(b, radix) == Some(
            "empty string"@,
        ),
        (radix == 10 || radix == 16) && b.len() == 1 && (b[0] == 43 || b[0] == 45)
            ==> parse_failure(b, radix) == Some("no digits"@),
        ({
            let from: int = if b.len() > 0 && (b[0] == 43 || b[0] == 45) {
                1
            } else {
                0
            };
            &&& radix == 10 || radix == 16
            &&& from <= k < b.len()
            &&& text::digit_value(b[k], radix) < 0
            &&& forall|i: int| from <= i < k ==> text::digit_value(#[trigger] b[i], radix) >= 0
        }) ==> parse_failure(b, radix) == Some(
            "invalid character '"@ + seq![b[k] as char] + "' for radix "@ + text::numeral(
                radix,
                10,
            ),
        ),
{
    let from = sign_len(b);
    let d = b.skip(from);
    if {
        &&& radix == 10 || radix == 16
        &&& from <= k < b.len()
        &&& text::digit_value(b[k], radix) < 0
        &&& forall|i: int| from <= i < k ==> text::digit_value(#[trigger] b[i], radix) >= 0
    } {
        let j = k - from;
        let t = d.take(j + 1);
        lemma_first_non_digit(t, radix);
        lemma_first_non_digit(t.drop_last(), radix);
        assert(t.drop_last() =~= d.take(j));
        let f = first_non_digit(d.take(j), radix);
        if f < j {
            lemma_first_non_digit(d.take(j), radix);
            assert(d.take(j)[f] == b[from + f]);
        }
        assert(t.last() == b[k]);
        lemma_first_non_digit_prefix(d, j + 1, radix);
        assert(d[j] == b[k]);
    }
}

/// The estimate of the decimal digits is the bits times 0.30102999566398,
/// rounded up.
pub proof fn law_estimated_digits(bits: int)
    requires
        0 < bits <= u64::MAX,
    ensures
        bits * 30_102_999_566_398 <= estimated_digits(bits) * 100_000_000_000_000,
        (estimated_digits(bits) - 1) * 100_000_000_000_000 < bits * 30_102_999_566_399,
{
    let a = Double::of(bits, 0);
    let log = Double { mant: LOG10_TWO_SCALED, exp: (-54) as i32 };
    let d = Double::product(a, log);
    let u = reals::rpow2(-53);
    lemma2_to64();
    lemma2_to64_rest();
    bitlen::lemma_bit_len_at_most(bits, 64);
    double::lemma_of_value(bits, 0);
    double::law_double_product(a, log);
    double::lemma_ceiling(d);
    reals::lemma_rpow2_nat(54);
    reals::lemma_rpow2_nat(53);
    reals::lemma_rpow2_add(-54, 54);
    reals::lemma_rpow2_add(-53, 53);
    reals::lemma_rpow2_step(0);
    let b = bits as real;
    let w = reals::rpow2(-54);
    let av = a.value();
    let lv = log.value();
    let pv = av * lv;
    let dv = d.value();
    assert(b * 1real == b) by (nonlinear_arith);
    assert(b * (1real * u) == b * u && pv * (1real * u) == pv * u) by (nonlinear_arith);
    assert(w * 18_014_398_509_481_984real == 1real);
    assert(u * 9_007_199_254_740_992real == 1real);
    let t = 1real / 8_000_000_000_000_000real;
    let lo = 301_029_995_663_980_975real / 1_000_000_000_000_000_000real;
    let hi = 301_029_995_663_980_976real / 1_000_000_000_000_000_000real;
    assert(lo <= lv <= hi) by (nonlinear_arith)
        requires
            lv == 5_422_874_305_198_587real * w,
            w * 18_014_398_509_481_984real == 1real,
            lo == 301_029_995_663_980_975real / 1_000_000_000_000_000_000real,
            hi == 301_029_995_663_980_976real / 1_000_000_000_000_000_000real,
    ;
    let bt = b * t;
    assert(8_000_000_000_000_000real * bt == b && b * u <= bt && bt > 0real) by (nonlinear_arith)
        requires
            bt == b * t,
            t == 1real / 8_000_000_000_000_000real,
            u * 9_007_199_254_740_992real == 1real,
            b > 0real,
    ;
    assert((b - bt) * lo <= pv <= (b + bt) * hi) by (nonlinear_arith)
        requires
            b - bt <= av <= b + bt,
            0real < lo <= lv <= hi,
            pv == av * lv,
            b - bt > 0real,
            lo > 0real,
    ;
    let pt = pv * t;
    assert(8_000_000_000_000_000real * pt == pv && pv * u <= pt) by (nonlinear_arith)
        requires
            pt == pv * t,
            t == 1real / 8_000_000_000_000_000real,
            u * 9_007_199_254_740_992real == 1real,
            pv > 0real,
    ;
    assert(pv - pt <= dv <= pv + pt);
    let c = estimated_digits(bits);
    assert((c as real) * 100_000_000_000_000real >= b * 30_102_999_566_398real);
    assert(((c as real) - 1real) * 100_000_000_000_000real < b * 30_102_999_566_399real);
}

} // verus!
