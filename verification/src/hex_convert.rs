//! From a decimal digit file to a hexadecimal one.
use crate::integer;
use crate::integer::{Integer, add_signed, div_signed, mul_signed};
use crate::limbs;
use crate::numerals;
use crate::precision;
use crate::precision::scaled_product;
use crate::progress;
use crate::progress::{ProgressEvent, ProgressReporter};
use crate::scan;
use crate::scan::{has_prefix, trim};
use crate::text;
use vstd::arithmetic::div_mod::*;
use vstd::arithmetic::mul::*;
use vstd::arithmetic::power2::*;
use vstd::arithmetic::power::*;
use vstd::prelude::*;
use vstd::slice::slice_subrange;
use vstd::string::*;

verus! {

/// Why a decimal file cannot be converted.
#[derive(Debug, Clone, Copy, PartialEq, Eq, Structural)]
pub enum ConvertError {
    /// The text does not start with `3.`.
    NoLeadingThree,
    /// There is something else than digits after `3.`.
    NonDigit,
    /// There are more digits than 32 bits count.
    TooLong,
}

impl ConvertError {
    /// The error in words, by the name of the file.
    pub open spec fn words(self, file: Seq<char>) -> Seq<char> {
        match self {
            ConvertError::NoLeadingThree => "`"@ + file + "` doesn't start with \"3.\""@,
            ConvertError::NonDigit => "`"@ + file + "` has non-digit characters after \"3.\""@,
            ConvertError::TooLong => "fractional decimal digit count exceeds u32::MAX"@,
        }
    }

    /// The error in words.
    pub fn to_text(&self, file: &str) -> (s: String)
        ensures
            s@ == self.words(file@),
    {
        let mut s: String = "`".to_owned();
        s.append(file);
        match self {
            ConvertError::NoLeadingThree => {
                s.append("` doesn't start with \"3.\"");
                s
            },
            ConvertError::NonDigit => {
                s.append("` has non-digit characters after \"3.\"");
                s
            },
            ConvertError::TooLong => "fractional decimal digit count exceeds u32::MAX".to_owned(),
        }
    }
}

/// Appending digits shifts the value of those before them.
proof fn lemma_value_concat(a: Seq<u8>, b: Seq<u8>)
    ensures
        text::numeral_value(a + b, 10) == text::numeral_value(a, 10) * pow(10, b.len())
            + text::numeral_value(b, 10),
    decreases b.len(),
{
    if b.len() == 0 {
        assert(a + b =~= a);
        lemma_pow0(10);
    } else {
        let c = b.drop_last();
        lemma_value_concat(a, c);
        assert((a + b).drop_last() =~= a + c);
        lemma_pow_adds(10, c.len(), 1);
        lemma_pow1(10);
        let x = text::numeral_value(a, 10);
        let p = pow(10, c.len());
        assert((x * p + text::numeral_value(c, 10)) * 10 == x * (p * 10) + text::numeral_value(
            c,
            10,
        ) * 10) by (nonlinear_arith);
    }
}

/// So many digits make a number below that power of ten.
proof fn lemma_value_below(s: Seq<u8>)
    requires
        text::all_digits(s, 10),
    ensures
        0 <= text::numeral_value(s, 10) < pow(10, s.len()),
    decreases s.len(),
{
    if s.len() == 0 {
        lemma_pow0(10);
    } else {
        let c = s.drop_last();
        assert forall|i: int| 0 <= i < c.len() implies text::digit_value(#[trigger] c[i], 10)
            >= 0 by {
            assert(c[i] == s[i]);
        }
        lemma_value_below(c);
        lemma_pow_adds(10, c.len(), 1);
        lemma_pow1(10);
        assert(text::digit_value(s[s.len() - 1], 10) >= 0);
    }
}

proof fn lemma_digits_part(s: Seq<u8>, from: int, to: int)
    requires
        text::all_digits(s, 10),
        0 <= from <= to <= s.len(),
    ensures
        text::all_digits(s.subrange(from, to), 10),
{
    let t = s.subrange(from, to);
    assert forall|i: int| 0 <= i < t.len() implies text::digit_value(#[trigger] t[i], 10) >= 0 by {
        assert(t[i] == s[from + i]);
    }
}

/// The value of at most 18 digits.
fn small_value(s: &[u8]) -> (v: u64)
    requires
        s@.len() <= 18,
        text::all_digits(s@, 10),
    ensures
        v == text::numeral_value(s@, 10),
{
    let mut v: u64 = 0;
    let mut i: usize = 0;
    while i < s.len()
        invariant
            i <= s@.len() <= 18,
            text::all_digits(s@, 10),
            v == text::numeral_value(s@.take(i as int), 10),
        decreases s@.len() - i,
    {
        proof {
            lemma_digits_part(s@, 0, i + 1);
            assert(s@.subrange(0, i + 1) =~= s@.take(i + 1));
            lemma_value_below(s@.take(i + 1));
            numerals::lemma_chunk_bases();
            lemma_pow_increases(10, (i + 1) as nat, 19);
            assert(s@.take(i + 1).drop_last() =~= s@.take(i as int));
            assert(s@.take(i + 1).last() == s@[i as int]);
            assert(text::digit_value(s@[i as int], 10) >= 0);
        }
        v = v * 10 + (s[i] - 48) as u64;
        i = i + 1;
    }
    proof {
        assert(s@.take(s@.len() as int) =~= s@);
    }
    v
}

/// The value of decimal digits, by halves.
pub fn digits_value(s: &[u8]) -> (r: Integer)
    requires
        text::all_digits(s@, 10),
        s@.len() <= 0x1_0000_0000,
        s@.len() / 8 + 8 <= limbs::limb_limit(),
    ensures
        r.wf(),
        r@ == text::numeral_value(s@, 10),
        r.size() <= s@.len() / 16 + 1,
    decreases s@.len(),
{
    proof {
        numerals::lemma_numeral_value_bound(s@, 10);
    }
    if s.len() <= 18 {
        let v: u64 = small_value(s);
        let r: Integer = Integer::from(v);
        r
    } else {
        let len: usize = s.len();
        let half: usize = len / 2;
        let cut: usize = len - half;
        let left: &[u8] = slice_subrange(s, 0, cut);
        let right: &[u8] = slice_subrange(s, cut, len);
        proof {
            lemma_digits_part(s@, 0, cut as int);
            lemma_digits_part(s@, cut as int, len as int);
        }
        let high: Integer = digits_value(left);
        let low: Integer = digits_value(right);
        let scale: Integer = Integer::u_pow_u(10, half as u32);
        proof {
            numerals::lemma_ten_power(half as nat);
            lemma_pow_positive(10, half as nat);
            integer::lemma_size_from_bits(scale, (4 * half) as nat);
            assert((4 * half) as nat / 64 == half as nat / 16);
        }
        let shifted: Integer = mul_signed(&high, &scale);
        let r: Integer = add_signed(&shifted, &low);
        proof {
            assert(s@ =~= left@ + right@);
            lemma_value_concat(left@, right@);
            integer::lemma_size_from_bits(r, 4 * s@.len());
            assert((4 * s@.len()) / 64 == s@.len() / 16);
        }
        r
    }
}

/// Hexadecimal digits that so many decimal ones determine: `digits` times the
/// logarithm of ten to base sixteen in double precision, rounded down.
pub open spec fn hex_len(digits: int) -> int {
    precision::scaled_bits(digits) / 0x20_0000_0000_0000
}

/// No more hexadecimal digits than decimal ones.
proof fn lemma_hex_len(digits: nat)
    ensures
        0 <= hex_len(digits as int) <= digits,
{
    if digits == 0 {
        assert(0 * precision::LOG2_10_SCALED == 0);
        crate::double::lemma_exact(0);
        lemma2_to64();
        assert(precision::scaled_bits(0) == 0);
    } else {
        precision::lemma_precision_upper(digits);
        let f = precision::scaled_bits(digits as int);
        let half = 0x8_0000_0000_0000int;
        assert((f + (half - 1)) / half <= 4 * digits + 2);
        assert(f <= (4 * digits + 2) * half);
    }
}

/// The text is `3.` and digits, with white space allowed round it.
pub open spec fn convertible(content: Seq<u8>) -> Option<ConvertError> {
    let t = scan::trimmed(content);
    if !scan::begins_with(t, seq![51, 46]) {
        Some(ConvertError::NoLeadingThree)
    } else if !text::all_digits(t.skip(2), 10) {
        Some(ConvertError::NonDigit)
    } else if t.skip(2).len() > u32::MAX {
        Some(ConvertError::TooLong)
    } else {
        None
    }
}

/// The hexadecimal file for the decimal fraction with the given digits: as many
/// digits of the same fraction, cut off, as the decimal ones determine.
pub open spec fn hex_file(digits: Seq<u8>) -> Seq<char> {
    let k = digits.len();
    let h = hex_len(k as int) as nat;
    "3."@ + text::padded(
        text::numeral_value(digits, 10) * pow(16, h) / pow(10, k),
        16,
        h,
    ) + "\n"@
}

/// Scaling keeps the three in front.
proof fn lemma_scaled(v: int, k: nat, h: nat)
    requires
        0 <= v < pow(10, k),
    ensures
        ({
            let p = pow(10, k);
            let w = pow(16, h);
            let m = ((3 * p + v) * w) / p;
            &&& m == 3 * w + v * w / p
            &&& 0 <= v * w / p < w
            &&& text::numeral(m, 16) == seq!['3'] + text::padded(v * w / p, 16, h)
        }),
{
    let p = pow(10, k);
    let w = pow(16, h);
    lemma_pow_positive(10, k);
    lemma_pow_positive(16, h);
    let f = v * w / p;
    assert((3 * p + v) * w == p * (3 * w) + v * w) by (nonlinear_arith);
    lemma_hoist_over_denominator(v * w, 3 * w, p as nat);
    lemma_mul_is_commutative(3 * w, p);
    let m = ((3 * p + v) * w) / p;
    assert(m == 3 * w + f);
    assert(v * w < p * w) by (nonlinear_arith)
        requires
            v < p,
            w > 0,
    ;
    assert(0 <= v * w) by (nonlinear_arith)
        requires
            0 <= v,
            w > 0,
    ;
    lemma_div_pos_is_pos(v * w, p);
    lemma_fundamental_div_mod(v * w, p);
    lemma_mod_bound(v * w, p);
    assert(f < w) by (nonlinear_arith)
        requires
            p * f <= v * w,
            v * w < p * w,
            p > 0,
    ;
    text::lemma_numeral_split(m, 16, h);
    lemma_mul_is_commutative(3, w);
    lemma_fundamental_div_mod_converse(m, w, 3, f);
    assert(text::numeral(3, 16) =~= seq!['3']);
}

/// The hexadecimal digits are those of the decimal fraction, cut off: they fall
/// short of it by less than one unit in the last place.
pub proof fn law_same_fraction(digits: Seq<u8>)
    requires
        text::all_digits(digits, 10),
    ensures
        ({
            let k = digits.len();
            let v = text::numeral_value(digits, 10);
            let w = pow(16, hex_len(k as int) as nat);
            let f = v * w / pow(10, k);
            0 <= f < w && f * pow(10, k) <= v * w < (f + 1) * pow(10, k)
        }),
{
    let k = digits.len();
    let v = text::numeral_value(digits, 10);
    let h = hex_len(k as int) as nat;
    let w = pow(16, h);
    let p = pow(10, k);
    let f = v * w / p;
    lemma_value_below(digits);
    lemma_scaled(v, k, h);
    lemma_pow_positive(10, k);
    lemma_fundamental_div_mod(v * w, p);
    lemma_mod_bound(v * w, p);
    lemma_mul_is_commutative(f, p);
    lemma_mul_is_distributive_add_other_way(p, f, 1);
}

/// What is told of a conversion.  One that is refused leaves the first phase
/// open, and one that is complete leaves the last one open: it ends where the
/// file has been written.
pub open spec fn conversion_phases(complete: bool) -> Seq<ProgressEvent> {
    if complete {
        progress::phase("convert: parse decimal"@, 1, 1) + progress::phase(
            "convert: build scales"@,
            1,
            1,
        ) + progress::phase("convert: mul + div"@, 1, 1) + seq![
            ProgressEvent::Start("convert: write hex"@, 1),
        ]
    } else {
        seq![ProgressEvent::Start("convert: parse decimal"@, 1)]
    }
}

/// Convert the content of a decimal file.
pub fn convert_decimal_to_hex<R: ProgressReporter>(content: &[u8], progress: &mut R) -> (r: Result<
    String,
    ConvertError,
>)
    requires
        content@.len() / 4 + 64 <= limbs::limb_limit(),
    ensures
        progress::heard(*old(progress), *final(progress), conversion_phases(r is Ok)),
        match r {
            Ok(s) => convertible(content@) is None && s@ == hex_file(
                scan::trimmed(content@).skip(2),
            ),
            Err(e) => convertible(content@) == Some(e),
        },
{
    progress.start_phase("convert: parse decimal", 1);
    proof {
        assert(progress.records() ==> progress.told() =~= old(progress).told() + conversion_phases(
            false,
        ));
    }
    let t: &[u8] = trim(content);
    proof {
        scan::lemma_trimmed_len(content@);
    }
    let lead: [u8; 2] = [51, 46];
    assert(lead@ =~= seq![51u8, 46]);
    if !has_prefix(t, &lead) {
        return Err(ConvertError::NoLeadingThree);
    }
    let len: usize = t.len();
    let frac: &[u8] = slice_subrange(t, 2, len);
    assert(frac@ =~= t@.skip(2));
    let mut i: usize = 0;
    while i < frac.len()
        invariant
            i <= frac@.len(),
            frac@ == t@.skip(2),
            t@ == scan::trimmed(content@),
            scan::begins_with(t@, seq![51, 46]),
            forall|j: int| 0 <= j < i ==> text::digit_value(#[trigger] frac@[j], 10) >= 0,
            progress::heard(*old(progress), *progress, conversion_phases(false)),
        decreases frac@.len() - i,
    {
        if frac[i] < 48 || frac[i] > 57 {
            assert(text::digit_value(frac@[i as int], 10) < 0);
            return Err(ConvertError::NonDigit);
        }
        i = i + 1;
    }
    if frac.len() > 0xffff_ffff {
        return Err(ConvertError::TooLong);
    }
    let k: u32 = frac.len() as u32;
    let h: u32 = hex_count(k);
    let ghost v = text::numeral_value(frac@, 10);
    let mut all: Vec<u8> = Vec::new();
    all.push(51);
    all.extend_from_slice(frac);
    proof {
        assert(all@ =~= seq![51u8] + frac@);
        assert forall|j: int| 0 <= j < all@.len() implies text::digit_value(#[trigger] all@[j], 10)
            >= 0 by {
            if j > 0 {
                assert(all@[j] == frac@[j - 1]);
            }
        }
        lemma_value_below(frac@);
        lemma_value_concat(seq![51u8], frac@);
        assert(seq![51u8].drop_last() =~= Seq::<u8>::empty());
        assert(text::numeral_value(Seq::<u8>::empty(), 10) == 0);
        assert(text::numeral_value(seq![51u8], 10) == 3);
        lemma_hex_len(k as nat);
        limbs::lemma_limb_limit();
    }
    let numerator: Integer = digits_value(&all);
    progress.tick();
    progress.end_phase();
    progress.start_phase("convert: build scales", 1);
    let scale_hex: Integer = Integer::u_pow_u(16, h);
    let scale_dec: Integer = Integer::u_pow_u(10, k);
    progress.tick();
    progress.end_phase();
    progress.start_phase("convert: mul + div", 1);
    proof {
        lemma_sixteen(h as nat);
        lemma_pow_positive(16, h as nat);
        lemma_pow_positive(10, k as nat);
        integer::lemma_size_from_bits(scale_hex, (4 * h) as nat);
    }
    let product: Integer = mul_signed(&numerator, &scale_hex);
    let m: Integer = div_signed(&product, &scale_dec);
    proof {
        lemma_scaled(v, k as nat, h as nat);
        assert(product@ >= 0) by (nonlinear_arith)
            requires
                product@ == numerator@ * scale_hex@,
                numerator@ >= 0,
                scale_hex@ >= 0,
        ;
        text::lemma_numeral_value(m@, 16);
    }
    progress.tick();
    progress.end_phase();
    progress.start_phase("convert: write hex", 1);
    proof {
        assert(progress::ticks(1) =~= seq![ProgressEvent::Tick]);
        assert(progress.records() ==> progress.told() =~= old(progress).told() + conversion_phases(
            true,
        ));
    }
    let hex: String = m.to_string_radix(16);
    let text: &str = hex.as_str();
    let count: usize = text.unicode_len();
    let rest: &str = text.substring_ascii(1, count);
    let mut out: String = "3.".to_owned();
    out.append(rest);
    out.append("\n");
    proof {
        let f = text::padded(v * pow(16, h as nat) / pow(10, k as nat), 16, h as nat);
        assert(hex@.subrange(1, hex@.len() as int) =~= f);
    }
    Ok(out)
}

/// `16^h == 2^(4h)`.
proof fn lemma_sixteen(h: nat)
    ensures
        pow(16, h) == pow2(4 * h),
{
    lemma2_to64();
    lemma_pow2(4);
    lemma_pow_multiplies(2, 4, h);
    lemma_pow2(4 * h);
}

/// The number of hexadecimal digits for a number of decimal ones.
fn hex_count(digits: u32) -> (h: u32)
    ensures
        h == hex_len(digits as int),
        h <= digits,
{
    proof {
        lemma_hex_len(digits as nat);
    }
    (scaled_product(digits as u64) / 0x20_0000_0000_0000) as u32
}

/// So many decimal digits determine as many hexadecimal ones as fit their
/// 3.3219280948873... bits each, at four bits to a digit.
pub proof fn law_hex_len(digits: int)
    requires
        digits >= 0,
    ensures
        hex_len(digits) >= 0,
        4 * hex_len(digits) * 100_000_000_000_000 <= digits * 332_192_809_488_737,
        digits * 332_192_809_488_736 < 4 * (hex_len(digits) + 1) * 100_000_000_000_000,
{
    lemma_hex_len(digits as nat);
    if digits == 0 {
    } else {
        precision::lemma_scaled_bits(digits);
        let f = precision::scaled_bits(digits);
        let x = digits * 7480317065143153;
        assert(digits * precision::LOG2_10_SCALED == x);
        let h = hex_len(digits);
        assert(h * 0x20_0000_0000_0000 <= f < (h + 1) * 0x20_0000_0000_0000);
        assert(f * 0x20_0000_0000_0000 >= x * (0x20_0000_0000_0000 - 2));
        assert(f * 0x20_0000_0000_0000 <= x * (0x20_0000_0000_0000 + 2));
        assert(4 * h * 100_000_000_000_000 <= digits * 332_192_809_488_737) by (nonlinear_arith)
            requires
                h * 0x20_0000_0000_0000 <= f,
                f * 0x20_0000_0000_0000 <= digits * 7480317065143153 * (0x20_0000_0000_0000 + 2),
                digits > 0,
        ;
    }
}

/// The hexadecimal file of `k` decimal digits that spell `v` is `3.`, then the
/// hexadecimal digits of the whole number `f` of units in their last place that
/// the fraction `v / 10^k` holds, then a line feed.
pub proof fn law_hex_file(digits: Seq<u8>, f: int)
    requires
        forall|i: int| 0 <= i < digits.len() ==> 48 <= #[trigger] digits[i] <= 57,
        ({
            let v = text::numeral_value(digits, 10);
            let w = pow(16, hex_len(digits.len() as int) as nat);
            f * pow(10, digits.len()) <= v * w < (f + 1) * pow(10, digits.len())
        }),
    ensures
        ({
            let h = hex_len(digits.len() as int);
            let file = hex_file(digits);
            &&& file.len() == h + 3
            &&& file[0] as int == 51
            &&& file[1] as int == 46
            &&& file[h + 2] as int == 10
            &&& 0 <= f < pow(16, h as nat)
            &&& forall|i: int|
                2 <= i < h + 2 ==> #[trigger] file[i] as int == {
                    let d = (f / pow(16, (h + 1 - i) as nat)) % 16;
                    if d < 10 {
                        48 + d
                    } else {
                        87 + d
                    }
                }
        }),
{
    let k = digits.len();
    let v = text::numeral_value(digits, 10);
    let h = hex_len(k as int) as nat;
    let w = pow(16, h);
    let p = pow(10, k);
    lemma_hex_len(k);
    lemma_pow_positive(10, k);
    assert(text::all_digits(digits, 10)) by {
        assert forall|i: int| 0 <= i < k implies text::digit_value(#[trigger] digits[i], 10)
            >= 0 by {
            assert(48 <= digits[i] <= 57);
        }
    }
    lemma_value_below(digits);
    lemma_scaled(v, k, h);
    let r = v * w - f * p;
    lemma_mul_is_distributive_add_other_way(p, f, 1);
    lemma_fundamental_div_mod_converse(v * w, p, f, r);
    let d = text::padded(f, 16, h);
    text::law_low_digits(f, 16, h);
    let file = hex_file(digits);
    reveal_strlit("3.");
    reveal_strlit("\n");
    assert(file == "3."@ + d + "\n"@);
    assert(file.len() == h + 3);
    assert forall|i: int| 2 <= i < h + 2 implies #[trigger] file[i] as int == {
        let d = (f / pow(16, (h + 1 - i) as nat)) % 16;
        if d < 10 {
            48 + d
        } else {
            87 + d
        }
    } by {
        assert(file[i] == d[i - 2]);
        assert((h + 1 - i) as nat == (h - 1 - (i - 2)) as nat);
    }
}

/// A text converts where, without the white space round it, it is `3.` and
/// nothing but decimal digits, at most 4294967295 of them.
pub proof fn law_convertible(content: Seq<u8>)
    ensures
        ({
            let t = scan::trimmed(content);
            let three = t.len() >= 2 && t[0] == 51 && t[1] == 46;
            let digits = forall|i: int| 2 <= i < t.len() ==> 48 <= #[trigger] t[i] <= 57;
            convertible(content) == if !three {
                Some(ConvertError::NoLeadingThree)
            } else if !digits {
                Some(ConvertError::NonDigit)
            } else if t.len() > 4_294_967_297 {
                Some(ConvertError::TooLong)
            } else {
                None
            }
        }),
{
    let t = scan::trimmed(content);
    if t.len() >= 2 {
        assert(t.take(2) =~= seq![51u8, 46] <==> t[0] == 51 && t[1] == 46) by {
            if t.take(2) =~= seq![51u8, 46] {
                assert(t.take(2)[0] == 51 && t.take(2)[1] == 46);
            }
        }
        let d = t.skip(2);
        if text::all_digits(d, 10) {
            assert forall|i: int| 2 <= i < t.len() implies 48 <= #[trigger] t[i] <= 57 by {
                assert(text::digit_value(d[i - 2], 10) >= 0);
            }
        }
        if forall|i: int| 2 <= i < t.len() ==> 48 <= #[trigger] t[i] <= 57 {
            assert forall|i: int| 0 <= i < d.len() implies text::digit_value(#[trigger] d[i], 10)
                >= 0 by {
                assert(d[i] == t[i + 2]);
            }
        }
    }
}

/// What is told of a conversion: four phases in order, each of one step; the last
/// one is left open, and a text that is refused leaves the first one open.
pub proof fn law_conversion_phases()
    ensures
        conversion_phases(true) == seq![
            ProgressEvent::Start("convert: parse decimal"@, 1),
            ProgressEvent::Tick,
            ProgressEvent::End,
            ProgressEvent::Start("convert: build scales"@, 1),
            ProgressEvent::Tick,
            ProgressEvent::End,
            ProgressEvent::Start("convert: mul + div"@, 1),
            ProgressEvent::Tick,
            ProgressEvent::End,
            ProgressEvent::Start("convert: write hex"@, 1),
        ],
        conversion_phases(false) == conversion_phases(true).take(1),
{
    assert(progress::ticks(1) =~= seq![ProgressEvent::Tick]);
    let all = conversion_phases(true);
    assert(all =~= seq![
        ProgressEvent::Start("convert: parse decimal"@, 1),
        ProgressEvent::Tick,
        ProgressEvent::End,
        ProgressEvent::Start("convert: build scales"@, 1),
        ProgressEvent::Tick,
        ProgressEvent::End,
        ProgressEvent::Start("convert: mul + div"@, 1),
        ProgressEvent::Tick,
        ProgressEvent::End,
        ProgressEvent::Start("convert: write hex"@, 1),
    ]);
    assert(conversion_phases(false) =~= all.take(1));
}

} // verus!
