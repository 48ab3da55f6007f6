//! From a floating-point value to the text of its decimal digits.
use crate::bitlen;
use crate::float;
use crate::float::Float;
use crate::float_ops;
use crate::float_ops::Round;
use crate::integer;
use crate::integer::{Integer, sub_signed};
use crate::limbs;
use crate::newton;
use crate::output;
use crate::output::{DigitSink, SinkError, SinkEvent};
use crate::progress;
use crate::progress::{ProgressEvent, ProgressReporter};
use crate::reals;
use crate::rounding;
use crate::text;
use crate::text::push_zeros;
use vstd::arithmetic::div_mod::*;
use vstd::arithmetic::mul::*;
use vstd::arithmetic::power2::*;
use vstd::arithmetic::power::*;
use vstd::prelude::*;
use vstd::string::*;

verus! {

/// The digits of `v`, filled up with zeros on the left or cut off on the right
/// to `digits` characters.
pub open spec fn digit_text(v: int, digits: nat) -> Seq<char> {
    let s = text::numeral(v, 10);
    if s.len() < digits {
        text::zeros((digits - s.len()) as nat) + s
    } else {
        s.take(digits as int)
    }
}

/// What a sink is handed for a text of digits: the first one, the others, and
/// the end.
pub open spec fn text_events(s: Seq<char>) -> Seq<SinkEvent> {
    if s.len() > 1 {
        seq![
            SinkEvent::Integer(s.take(1)),
            SinkEvent::Fraction(s.skip(1)),
            SinkEvent::Finish,
        ]
    } else {
        seq![SinkEvent::Integer(s.take(1)), SinkEvent::Finish]
    }
}

/// What a sink is handed for the digits of `v`.
pub open spec fn digit_events(v: int, digits: nat) -> Seq<SinkEvent> {
    text_events(digit_text(v, digits))
}

/// `v` is the integer part of `x * 10^(digits - 1)`, where that product may be
/// off by the relative error `e`.
pub open spec fn is_scaled_floor(v: int, x: real, digits: nat, e: real) -> bool {
    let y = x * (pow(10, (digits - 1) as nat) as real);
    &&& (v as real) <= y * (1real + e)
    &&& y * (1real - e) < (v as real) + 1real
}

/// The relative error that scaling and rounding add.
pub open spec fn scaling_error(digits: nat, prec: int) -> real {
    (2 * (digits + 1)) as real * reals::rpow2(-prec)
}

/// A digit text has the length asked for, and only ASCII characters.
proof fn lemma_digit_text(v: int, digits: nat)
    requires
        v >= 0,
    ensures
        digit_text(v, digits).len() == digits,
        vstd::utf8::is_ascii_chars(digit_text(v, digits)),
{
    let s = text::numeral(v, 10);
    text::lemma_numeral_value(v, 10);
    let t = digit_text(v, digits);
    assert forall|i: int| 0 <= i < t.len() implies 0 <= #[trigger] (t[i] as nat) < 128 by {
        if s.len() < digits {
            let k = digits - s.len();
            if i < k {
                assert(t[i] == '0');
            } else {
                assert(t[i] == s[i - k]);
            }
        } else {
            assert(t[i] == s[i]);
        }
    }
}

/// Fill up or cut off the digits of a number.
fn fit_digits(n: &Integer, want: usize) -> (s: String)
    requires
        n.wf(),
        n@ >= 0,
    ensures
        s@ == digit_text(n@, want as nat),
{
    let s: String = n.to_text();
    let len: usize = s.as_str().unicode_len();
    proof {
        text::lemma_numeral_value(n@, 10);
    }
    if len < want {
        let mut padded: String = String::new();
        push_zeros(&mut padded, want - len);
        padded.append(s.as_str());
        proof {
            assert(padded@ =~= digit_text(n@, want as nat));
        }
        padded
    } else {
        proof {
            assert(s.is_ascii());
        }
        let cut: &str = s.as_str().substring_ascii(0, want);
        proof {
            assert(cut@ =~= digit_text(n@, want as nat));
        }
        cut.to_owned()
    }
}

/// What scaling by a rounded power of ten and rounding once more does to a
/// value.
proof fn lemma_scaling(x: real, s: real, y: real, n: nat, prec: int)
    requires
        x > 0real,
        prec >= 1,
        ((n + 2) as real) * reals::rpow2(-prec) <= 1real / 4real,
        n == 0 ==> s == 1real,
        n > 0 ==> float_ops::power_near(s, 10real, n, reals::rpow2(-prec), n),
        float::near(y, x * s, prec),
    ensures
        s > 0real,
        (pow(10, n) as real) <= 2real * s,
        s <= 2real * (pow(10, n) as real),
        y <= (x * (pow(10, n) as real)) * (1real + scaling_error(n + 1, prec)),
        y >= (x * (pow(10, n) as real)) * (1real - scaling_error(n + 1, prec)),
{
    let u = reals::rpow2(-prec);
    let ten = pow(10, n) as real;
    reals::lemma_rpow2_step(-prec);
    float_ops::lemma_pow_real(10, n);
    lemma_pow_positive(10, n);
    assert(ten >= 1real);
    let k = n as real;
    let ku = k * u;
    assert(ku >= 0real && ku + 2real * u <= 1real / 4real) by (nonlinear_arith)
        requires
            (k + 2real) * u <= 1real / 4real,
            ku == k * u,
            k >= 0real,
            u > 0real,
    ;
    let t = if n == 0 {
        1real
    } else {
        choose|t: real|
            s == reals::rpow(10real, n) * t && reals::rpow(1real - u, n) <= t <= #[trigger] float_ops::rpow_at_most(u, n, t)
    };
    if n == 0 {
        lemma_pow0(10);
        assert(ten * 1real == ten) by (nonlinear_arith);
    } else {
        reals::lemma_rpow_error(u, n);
    }
    assert(s == ten * t);
    assert(1real - ku <= t <= 1real + 2real * ku);
    let big = x * ten;
    assert(s > 0real && ten <= 2real * s && s <= 2real * ten) by (nonlinear_arith)
        requires
            s == ten * t,
            ten >= 1real,
            1real - ku <= t <= 1real + 2real * ku,
            0real <= ku <= 1real / 4real,
    ;
    assert(x * s == big * t) by (nonlinear_arith)
        requires
            s == ten * t,
            big == x * ten,
    ;
    assert(x * s > 0real && big > 0real) by (nonlinear_arith)
        requires
            x > 0real,
            s > 0real,
            ten >= 1real,
            big == x * ten,
    ;
    let w = big * t;
    assert(w - w * u <= y <= w + w * u);
    let e = scaling_error(n + 1, prec);
    assert(e == 2real * ku + 4real * u) by (nonlinear_arith)
        requires
            e == (2real * (k + 2real)) * u,
            ku == k * u,
    ;
    let c = t * (1real + u);
    assert(c <= 1real + e) by (nonlinear_arith)
        requires
            c == t * (1real + u),
            t <= 1real + 2real * ku,
            0real < u <= 1real / 4real,
            0real <= ku <= 1real / 4real,
            e == 2real * ku + 4real * u,
    ;
    let d = t * (1real - u);
    assert(d >= 1real - e) by (nonlinear_arith)
        requires
            d == t * (1real - u),
            t >= 1real - ku,
            0real < u <= 1real / 4real,
            0real <= ku <= 1real / 4real,
            e == 2real * ku + 4real * u,
    ;
    assert(w + w * u == big * c) by (nonlinear_arith)
        requires
            w == big * t,
            c == t * (1real + u),
    ;
    assert(w - w * u == big * d) by (nonlinear_arith)
        requires
            w == big * t,
            d == t * (1real - u),
    ;
    assert(big * c <= big * (1real + e) && big * d >= big * (1real - e)) by (nonlinear_arith)
        requires
            big > 0real,
            c <= 1real + e,
            d >= 1real - e,
    ;
}

/// The named points of the conversion.
pub open spec fn conversion_steps() -> Seq<ProgressEvent> {
    seq![
        ProgressEvent::Milestone("dc.scale_build.start"@),
        ProgressEvent::Milestone("dc.scale_build.end"@),
        ProgressEvent::Milestone("dc.scale_mul.start"@),
        ProgressEvent::Milestone("dc.scale_mul.end"@),
        ProgressEvent::Milestone("dc.to_integer.start"@),
        ProgressEvent::Milestone("dc.to_integer.end"@),
        ProgressEvent::Milestone("dc.to_string.start"@),
        ProgressEvent::Milestone("dc.to_string.end"@),
    ]
}

/// `scaled` is `x * 10^(digits - 1)` at the precision of `x`: ten is raised to
/// its power, and the product is rounded.
pub open spec fn scaled_by(x: Float, digits: nat, ten: Float, scale: Float, scaled: Float) -> bool {
    &&& ten.is_rounded(x.prec as nat, false, 10, 0)
    &&& float_ops::is_power(ten, (digits - 1) as nat, scale)
    &&& scaled.is_rounded(
        x.prec as nat,
        x.sign != scale.sign,
        x.mantissa@ * scale.mantissa@,
        x.exp + scale.exp,
    )
}

/// Whether the product with `10^(digits - 1)` fits the precision.
pub open spec fn scales_exactly(x: Float, digits: nat) -> bool {
    bitlen::bit_len(x.mantissa@) + bitlen::bit_len(pow(10, (digits - 1) as nat)) <= x.prec
}

/// `v` is the integer part of `x * 10^(digits - 1)` in the arithmetic at the
/// precision of `x`; the true integer part where the product fits, and one
/// within a small relative error where there are enough bits for the digits.
pub open spec fn is_scaled(v: int, x: Float, digits: nat) -> bool {
    &&& v >= 0
    &&& exists|ten: Float, scale: Float, scaled: Float| #[trigger]
        scaled_by(x, digits, ten, scale, scaled) && v == scaled.floor()
    &&& scales_exactly(x, digits) ==> is_scaled_floor(v, x.val(), digits, 0real)
    &&& ((digits + 1) as real) * reals::rpow2(-(x.prec as int)) <= 1real / 4real
        ==> is_scaled_floor(v, x.val(), digits, scaling_error(digits, x.prec as int))
}

/// Write `pi` to `digits` decimal digits, the first one before the point: the
/// integer part of `pi * 10^(digits - 1)`, filled up with zeros on the left or
/// cut off on the right.
pub fn write_decimal_digits<S: DigitSink, R: ProgressReporter>(
    pi: Float,
    digits: u64,
    sink: &mut S,
    progress: &mut R,
) -> (r: Result<(), SinkError>)
    requires
        pi.wf(),
        !pi.sign,
        digits >= 1,
        pi.exp >= -0x1000_0000_0000_0000,
        4 * digits + pi.prec + float::imax(pi.exp as int, 0) + 8192 <= 16 * limbs::limb_limit(),
    ensures
        progress::heard(*old(progress), *final(progress), conversion_steps()),
        exists|v: int|
            is_scaled(v, pi, digits as nat) && output::handed_over(
                *old(sink),
                *final(sink),
                #[trigger] digit_events(v, digits as nat),
                r,
            ),
{
    let ghost n = (digits - 1) as nat;
    proof {
        limbs::lemma_limb_limit();
    }
    progress.milestone("dc.scale_build.start");
    let prec: u64 = pi.prec_64();
    let mut scale: Float = Float::with_val_64(prec, 10u32);
    let ghost ten = scale;
    let one: Integer = Integer::from(1u32);
    let count: Integer = Integer::from(digits);
    let exp: Integer = sub_signed(&count, &one);
    proof {
        assert(exp@ == n);
        lemma_ten_range(ten, prec as nat);
        let factor = integer::abs(ten.top()) + 3;
        assert(n * factor <= 7 * n) by (nonlinear_arith)
            requires
                factor <= 7,
        ;
    }
    scale.pow_assign_integer(&exp);
    progress.milestone("dc.scale_build.end");
    proof {
        lemma_scale_room(ten, scale, n);
        lemma_float_size(pi);
    }
    progress.milestone("dc.scale_mul.start");
    let scaled: Float = pi.mul_at_prec(&scale, prec);
    proof {
        assert(scaled_by(pi, digits as nat, ten, scale, scaled));
        lemma_scaled_room(pi, scale, scaled, n);
    }
    progress.milestone("dc.scale_mul.end");
    progress.milestone("dc.to_integer.start");
    let int_part: Integer = floor_integer(&scaled);
    let ghost v = int_part@;
    proof {
        lemma_is_scaled(v, pi, digits as nat, ten, scale, scaled);
    }
    progress.milestone("dc.to_integer.end");
    progress.milestone("dc.to_string.start");
    let want: usize = digits as usize;
    let s: String = fit_digits(&int_part, want);
    proof {
        lemma_digit_text(v, digits as nat);
        assert(s.is_ascii());
    }
    progress.milestone("dc.to_string.end");
    proof {
        assert(progress.records() ==> progress.told() =~= old(progress).told() + conversion_steps());
    }
    let r: Result<(), SinkError> = write_text(s.as_str(), want, sink);
    proof {
        assert(digit_events(v, digits as nat) == text_events(s@));
    }
    r
}

/// Hand over a text of digits: the first one, the others, and the end.
fn write_text<S: DigitSink>(s: &str, want: usize, sink: &mut S) -> (r: Result<(), SinkError>)
    requires
        s.is_ascii(),
        s@.len() == want,
        want >= 1,
    ensures
        output::handed_over(*old(sink), *final(sink), text_events(s@), r),
{
    let ghost first = *sink;
    let ghost none = Seq::<SinkEvent>::empty();
    let ghost events = text_events(s@);
    let head: &str = s.substring_ascii(0, 1);
    let r: Result<(), SinkError> = sink.write_integer_part(head);
    let ghost begun = none.push(SinkEvent::Integer(s@.take(1)));
    proof {
        assert(head@ =~= s@.take(1));
        output::lemma_handed_nothing(first);
        output::lemma_handed_next(first, first, *sink, none, SinkEvent::Integer(head@), r);
        if r is Err {
            output::lemma_handed_part(first, *sink, begun, events.skip(1), r);
            assert(events =~= begun + events.skip(1));
        }
    }
    r?;
    let ghost mut written = begun;
    if want > 1 {
        let ghost before = *sink;
        let tail: &str = s.substring_ascii(1, want);
        let r: Result<(), SinkError> = sink.write_fractional_digits(tail);
        proof {
            assert(tail@ =~= s@.skip(1));
            output::lemma_handed_next(first, before, *sink, begun, SinkEvent::Fraction(tail@), r);
            written = begun.push(SinkEvent::Fraction(s@.skip(1)));
            if r is Err {
                output::lemma_handed_part(first, *sink, written, events.skip(2), r);
                assert(events =~= written + events.skip(2));
            }
        }
        r?;
    }
    let ghost before = *sink;
    let r: Result<(), SinkError> = sink.finish();
    proof {
        output::lemma_handed_next(first, before, *sink, written, SinkEvent::Finish, r);
        assert(events =~= written.push(SinkEvent::Finish));
    }
    r
}

/// The value rounded down to an integer.
fn floor_integer(f: &Float) -> (n: Integer)
    requires
        f.wf(),
        f.floor_fits(),
        f.size() + 2 <= limbs::limb_limit(),
    ensures
        n.wf(),
        n@ == f.floor(),
{
    match f.to_integer_round(Round::Down) {
        Some((n, _)) => n,
        None => Integer::new(),
    }
}

/// The precision bounds the limbs of a mantissa.
proof fn lemma_float_size(f: Float)
    requires
        f.wf(),
    ensures
        f.size() <= f.prec / 64 + 1,
{
    bitlen::lemma_bit_len(f.mantissa@);
    if bitlen::bit_len(f.mantissa@) < f.prec {
        lemma_pow2_strictly_increases(bitlen::bit_len(f.mantissa@), f.prec as nat);
    }
    integer::lemma_size_from_bits(f.mantissa, f.prec as nat);
}

/// Ten, rounded to any precision.
proof fn lemma_ten_range(f: Float, prec: nat)
    requires
        f.is_rounded(prec, false, 10, 0),
    ensures
        !f.sign,
        integer::abs(f.top()) <= 4,
        prec > 0 ==> f.mantissa@ > 0 && reals::rpow2(-4) <= f.val() < reals::rpow2(4),
        prec == 0 ==> f.mantissa@ == 0,
        prec >= 3 ==> f.val() == 10real && f.floor() == 10 && f.is_integral(),
{
    lemma2_to64();
    bitlen::lemma_bit_len_unique(10, 4);
    rounding::lemma_round_error(10, prec);
    bitlen::lemma_bit_len(f.mantissa@);
    reals::lemma_rpow2_step(0);
    assert(10real * 1real == 10real) by (nonlinear_arith);
    assert(10 * 1 == 10);
    if prec == 1 {
        assert(rounding::nearest(10, 1) == 1);
        bitlen::lemma_bit_len_unique(1, 1);
    } else if prec == 2 {
        assert(rounding::nearest(10, 2) == 2);
        bitlen::lemma_bit_len_unique(2, 2);
    } else if prec == 3 {
        assert(rounding::nearest(10, 3) == 5);
        bitlen::lemma_bit_len_unique(5, 3);
        assert(f.exp == 1);
        assert(pow2(f.exp as nat) == 2);
        assert(5real * 2real == 10real) by (nonlinear_arith);
        assert(5 * 2 == 10);
    }
    if prec > 0 {
        newton::lemma_val_bounds(f);
        float::lemma_val_zero(f);
        reals::lemma_rpow2_monotone(-4, f.top() - 1);
    }
}

/// Room for a power of ten.
proof fn lemma_scale_room(ten: Float, scale: Float, n: nat)
    requires
        ten.is_rounded(scale.prec as nat, false, 10, 0),
        float_ops::is_power(ten, n, scale),
    ensures
        scale.exp <= 5 * n + 1,
        scale.exp + scale.prec >= -(5 * n) - 1,
        scale.size() <= scale.prec / 64 + 1,
        scale.top() <= 5 * n + 1,
{
    let prec = scale.prec as nat;
    lemma_ten_range(ten, prec);
    float::lemma_val_zero(ten);
    lemma_float_size(scale);
    if scale.mantissa@ > 0 {
        reals::lemma_rpow2_step(0);
        let u = reals::rpow2(-(prec as int));
        if n == 0 {
            float_ops::lemma_one(scale, prec);
        } else {
            reals::lemma_rpow2_monotone(-(prec as int), -1);
            reals::lemma_rpow2_step(-1);
            reals::lemma_rpow2_step(-(prec as int));
            float_ops::lemma_power_range(scale.val(), ten.val(), n, u, n, 4);
        }
        reals::lemma_rpow2_step(5 * (n as int));
        newton::lemma_exp_bounds(scale, -(5 * (n as int)), 5 * (n as int) + 1);
        newton::lemma_val_bounds(scale);
        if scale.top() - 1 >= 5 * n + 1 {
            reals::lemma_rpow2_monotone(5 * (n as int) + 1, scale.top() - 1);
        }
    }
}

/// Room for the product with a power of ten.
proof fn lemma_scaled_room(x: Float, scale: Float, scaled: Float, n: nat)
    requires
        x.wf(),
        scale.wf(),
        scale.prec == x.prec,
        scale.exp <= 5 * n + 1,
        scale.top() <= 5 * n + 1,
        scaled.is_rounded(
            x.prec as nat,
            x.sign != scale.sign,
            x.mantissa@ * scale.mantissa@,
            x.exp + scale.exp,
        ),
        4 * (n + 1) + x.prec + float::imax(x.exp as int, 0) + 8192 <= 16 * limbs::limb_limit(),
    ensures
        scaled.floor_fits(),
        scaled.size() + 2 <= limbs::limb_limit(),
{
    limbs::lemma_limb_limit();
    let m = x.mantissa@ * scale.mantissa@;
    let prec = x.prec as nat;
    lemma_float_size(scaled);
    if scaled.mantissa@ != 0 {
        assert(m >= 0) by (nonlinear_arith)
            requires
                x.mantissa@ >= 0,
                scale.mantissa@ >= 0,
                m == x.mantissa@ * scale.mantissa@,
        ;
        rounding::lemma_round_error(m, prec);
        lemma_product_bits(x.mantissa@, scale.mantissa@);
    }
}

/// The bits of a product are at most those of its factors together.
proof fn lemma_product_bits(a: int, b: int)
    requires
        a >= 0,
        b >= 0,
    ensures
        a * b < pow2(bitlen::bit_len(a) + bitlen::bit_len(b)),
        bitlen::bit_len(a * b) <= bitlen::bit_len(a) + bitlen::bit_len(b),
{
    let i = bitlen::bit_len(a);
    let j = bitlen::bit_len(b);
    bitlen::lemma_bit_len(a);
    bitlen::lemma_bit_len(b);
    lemma_pow2_adds(i, j);
    let p = pow2(i) as int;
    let q = pow2(j) as int;
    assert(0 <= a * b < p * q) by (nonlinear_arith)
        requires
            0 <= a < p,
            0 <= b < q,
    ;
    bitlen::lemma_bit_len_at_most(a * b, i + j);
}

/// Scaling keeps the sign, and what it does to the value.
proof fn lemma_is_scaled(v: int, x: Float, digits: nat, ten: Float, scale: Float, scaled: Float)
    requires
        x.wf(),
        !x.sign,
        digits >= 1,
        scaled_by(x, digits, ten, scale, scaled),
        v == scaled.floor(),
    ensures
        is_scaled(v, x, digits),
{
    let n = (digits - 1) as nat;
    let p = x.prec as int;
    let xv = x.val();
    let s = scale.val();
    let y = scaled.val();
    lemma_ten_range(ten, x.prec as nat);
    float::lemma_val_zero(x);
    float::lemma_val_zero(ten);
    float::lemma_val_zero(scale);
    float_ops::law_floor(scaled);
    let m = x.mantissa@ * scale.mantissa@;
    let e = x.exp + scale.exp;
    assert(m >= 0) by (nonlinear_arith)
        requires
            x.mantissa@ >= 0,
            scale.mantissa@ >= 0,
            m == x.mantissa@ * scale.mantissa@,
    ;
    float::lemma_scaled_product(
        x.sign,
        x.mantissa@,
        x.exp as int,
        scale.sign,
        scale.mantissa@,
        scale.exp as int,
    );
    float::lemma_rounded_near(scaled, x.prec as nat, x.sign != scale.sign, m, e);
    lemma_scale_positive(ten, scale, n);
    assert(xv * s >= 0real) by (nonlinear_arith)
        requires
            xv >= 0real,
            s >= 0real,
    ;
    assert(!scaled.sign);
    float::lemma_val_zero(scaled);
    assert(v >= 0) by {
        if v < 0 {
            assert((v as real) + 1real <= 0real);
        }
    }
    let t = pow(10, n) as real;
    lemma_pow_positive(10, n);
    let z = xv * t;
    if scales_exactly(x, digits) {
        lemma_exact_scaling(x, digits, ten, scale, scaled);
        assert(z * (1real + 0real) == z && z * (1real - 0real) == z) by (nonlinear_arith);
    }
    if ((digits + 1) as real) * reals::rpow2(-p) <= 1real / 4real {
        if p == 0 {
            reals::lemma_rpow2_step(0);
        }
        if xv > 0real {
            if n == 0 {
                float_ops::lemma_one(scale, x.prec as nat);
            }
            lemma_ten_bits(digits, p);
            lemma_scaling(xv, s, y, n, p);
        } else {
            let e = scaling_error(digits, p);
            assert(xv == 0real);
            assert(xv * s == 0real) by (nonlinear_arith)
                requires
                    xv == 0real,
            ;
            assert(0real * reals::rpow2(-p) == 0real) by (nonlinear_arith);
            assert(y == 0real);
            assert(z * (1real + e) == 0real && z * (1real - e) == 0real) by (nonlinear_arith)
                requires
                    z == xv * t,
                    xv == 0real,
            ;
        }
    }
}

/// A power of ten is not below zero.
proof fn lemma_scale_positive(ten: Float, scale: Float, n: nat)
    requires
        ten.is_rounded(scale.prec as nat, false, 10, 0),
        float_ops::is_power(ten, n, scale),
    ensures
        scale.val() >= 0real,
        !scale.sign,
{
    let prec = scale.prec as nat;
    lemma_ten_range(ten, prec);
    float::lemma_val_zero(ten);
    float::lemma_val_zero(scale);
    if n > 0 && scale.mantissa@ != 0 {
        let u = reals::rpow2(-(prec as int));
        let t = choose|t: real|
            scale.val() == reals::rpow(ten.val(), n) * t && reals::rpow(1real - u, n) <= t
                <= #[trigger] float_ops::rpow_at_most(u, n, t);
        reals::lemma_rpow2_step(0);
        reals::lemma_rpow2_step(-(prec as int));
        reals::lemma_rpow2_monotone(-(prec as int), 0);
        reals::lemma_rpow_monotone(0real, 1real - u, n);
        reals::lemma_rpow_monotone(0real, ten.val(), n);
        let a = reals::rpow(ten.val(), n);
        assert(a * t >= 0real) by (nonlinear_arith)
            requires
                a >= 0real,
                t >= 0real,
        ;
        if scale.sign {
            newton::lemma_val_bounds(scale);
            let m = scale.mantissa@ as real;
            let w = reals::rpow2(scale.exp as int);
            reals::lemma_rpow2_step(scale.exp as int);
            assert(m * w > 0real) by (nonlinear_arith)
                requires
                    m > 0real,
                    w > 0real,
            ;
        }
    }
}

/// Scaling is exact where the product fits.
proof fn lemma_exact_scaling(x: Float, digits: nat, ten: Float, scale: Float, scaled: Float)
    requires
        x.wf(),
        digits >= 1,
        scaled_by(x, digits, ten, scale, scaled),
        scales_exactly(x, digits),
    ensures
        scaled.val() == x.val() * (pow(10, (digits - 1) as nat) as real),
{
    let n = (digits - 1) as nat;
    let t = pow(10, n);
    let prec = x.prec as nat;
    let a = x.mantissa@;
    lemma_pow_positive(10, n);
    lemma_product_bits(a, t);
    let w = a * t;
    let bits = bitlen::bit_len(a) + bitlen::bit_len(t);
    if bits < prec {
        lemma_pow2_strictly_increases(bits, prec);
    }
    bitlen::lemma_bit_len(t);
    if bitlen::bit_len(t) < prec {
        lemma_pow2_strictly_increases(bitlen::bit_len(t), prec);
    }
    lemma2_to64();
    lemma_ten_range(ten, prec);
    if n == 0 {
        lemma_pow0(10);
        float_ops::lemma_one(scale, prec);
    } else {
        lemma_pow_increases(10, 1, n);
        lemma_pow1(10);
        bitlen::lemma_bit_len_unique(10, 4);
        bitlen::lemma_bit_len_monotone(10, t);
        assert(float_ops::power_fits(ten, n));
    }
    assert(scale.val() == t as real);
    lemma_scale_positive(ten, scale, n);
    let m = a * scale.mantissa@;
    let e = x.exp + scale.exp;
    assert(m >= 0 && w >= 0) by (nonlinear_arith)
        requires
            a >= 0,
            t >= 0,
            scale.mantissa@ >= 0,
            m == a * scale.mantissa@,
            w == a * t,
    ;
    float::lemma_scaled_product(
        false,
        a,
        x.exp as int,
        false,
        scale.mantissa@,
        scale.exp as int,
    );
    float::lemma_scaled_product(
        x.sign,
        a,
        x.exp as int,
        scale.sign,
        scale.mantissa@,
        scale.exp as int,
    );
    reals::lemma_int_product(a, t);
    let ar = a as real;
    let tr = t as real;
    let k = reals::rpow2(x.exp as int);
    assert((ar * k) * tr == (ar * tr) * k) by (nonlinear_arith);
    float_ops::lemma_rounded_exact(scaled, prec, x.sign != scale.sign, m, e, w, x.exp as int);
}

/// Where the error of the digits is small there are bits enough for ten.
proof fn lemma_ten_bits(digits: nat, prec: int)
    requires
        digits >= 1,
        prec >= 0,
        ((digits + 1) as real) * reals::rpow2(-prec) <= 1real / 4real,
    ensures
        prec >= 3,
{
    if prec <= 2 {
        reals::lemma_rpow2_monotone(-2, -prec);
        reals::lemma_rpow2_step(-2);
        reals::lemma_rpow2_step(-1);
        reals::lemma_rpow2_step(0);
        let d = (digits + 1) as real;
        let u = reals::rpow2(-prec);
        assert(d * u > 1real / 4real) by (nonlinear_arith)
            requires
                d >= 2real,
                u >= 1real / 4real,
        ;
    }
}

/// With at least 128 bits the error of 2^64 operations is small.
pub proof fn lemma_small_error(digits: nat, prec: int)
    requires
        digits <= u64::MAX,
        prec >= 128,
    ensures
        ((digits + 1) as real) * reals::rpow2(-prec) <= 1real / 4real,
{
    reals::lemma_rpow2_monotone(-prec, -128);
    reals::lemma_rpow2_add(-66, -62);
    reals::lemma_rpow2_monotone(-62, -2);
    reals::lemma_rpow2_step(-2);
    reals::lemma_rpow2_step(-1);
    reals::lemma_rpow2_add(66, -66);
    reals::lemma_rpow2_nat(66);
    lemma2_to64();
    lemma2_to64_rest();
    lemma_pow2_adds(64, 2);
    reals::lemma_rpow2_step(-128);
    reals::lemma_rpow2_step(-66);
    let d = (digits + 1) as real;
    let u = reals::rpow2(-prec);
    let a = reals::rpow2(66);
    let b = reals::rpow2(-66);
    let c = reals::rpow2(-62);
    assert(d <= a);
    assert(d * u <= 1real / 4real) by (nonlinear_arith)
        requires
            0real <= d <= a,
            0real < u <= b * c,
            a * b == 1real,
            0real < c <= 1real / 4real,
            a > 0real,
            b > 0real,
    {
        assert(d * u <= a * (b * c));
        assert(a * (b * c) == (a * b) * c);
    }
    reals::lemma_rpow2_step(-prec);
}

/// Leaving out the last digits of a number leaves out those of its text.
pub proof fn law_text_prefix(v: int, a: nat, w: int, b: nat)
    requires
        a <= b,
        v >= 1,
        v == w / pow(10, (b - a) as nat),
    ensures
        digit_text(w, b).take(a as int) == digit_text(v, a),
{
    let n = (b - a) as nat;
    let t = pow(10, n);
    lemma_pow_positive(10, n);
    lemma_fundamental_div_mod(w, t);
    lemma_mod_bound(w, t);
    assert(w >= t) by (nonlinear_arith)
        requires
            w == t * v + w % t,
            w % t >= 0,
            v >= 1,
            t > 0,
    ;
    text::lemma_numeral_split(w, 10, n);
    text::lemma_padded_len(w % t, 10, n);
    let (x, y) = (text::numeral(v, 10), text::numeral(w, 10));
    assert(y.len() == x.len() + n);
    assert(digit_text(w, b).take(a as int) =~= digit_text(v, a));
}

/// So many digits of a number: those of the number itself where it has at most
/// `digits` of them, filled up with zeros in front, and else those of the number
/// without its last `k` digits.  Digit `i` is worth `10^(digits - 1 - i)`.
pub proof fn law_digit_text(v: int, digits: nat, k: nat)
    requires
        digits >= 1,
        0 <= v < pow(10, digits + k),
        k > 0 ==> pow(10, (digits + k - 1) as nat) <= v,
    ensures
        digit_text(v, digits).len() == digits,
        forall|i: int|
            0 <= i < digits ==> #[trigger] digit_text(v, digits)[i] as int == 48 + ((v / pow(
                10,
                k,
            )) / pow(10, (digits - 1 - i) as nat)) % 10,
{
    lemma_digit_text(v, digits);
    let s = text::numeral(v, 10);
    let t = digit_text(v, digits);
    text::law_numeral(v, 10);
    lemma_pow_positive(10, k);
    if k == 0 {
        lemma_pow0(10);
        assert(v / 1 == v);
        assert(t =~= text::padded(v, 10, digits)) by {
            if v == 0 {
                text::lemma_padded_zero(10, digits);
                assert(s =~= seq!['0']);
            } else {
                text::lemma_padded_numeral(v, 10, digits);
            }
        }
        text::law_low_digits(v, 10, digits);
        assert forall|i: int| 0 <= i < digits implies #[trigger] t[i] as int == 48 + (v / pow(
            10,
            (digits - 1 - i) as nat,
        )) % 10 by {
            assert(text::padded(v, 10, digits)[i] == t[i]);
        }
    } else {
        let len = s.len();
        if len < digits + k {
            lemma_pow_increases(10, len, (digits + k - 1) as nat);
        }
        if len > digits + k {
            lemma_pow_increases(10, digits + k, (len - 1) as nat);
        }
        assert(len == digits + k);
        lemma_pow_increases(10, k, (digits + k - 1) as nat);
        text::lemma_numeral_split(v, 10, k);
        text::lemma_padded_len(v % pow(10, k), 10, k);
        let w = v / pow(10, k);
        text::law_numeral(w, 10);
        assert(t =~= text::numeral(w, 10));
        assert forall|i: int| 0 <= i < digits implies #[trigger] t[i] as int == 48 + (w / pow(
            10,
            (digits - 1 - i) as nat,
        )) % 10 by {
            assert(text::numeral(w, 10)[i] == t[i]);
        }
    }
}

/// The pieces that a sink is handed are the digit text, cut behind its first
/// digit: one digit before the point, all others after it, then the end.
pub proof fn law_digit_events(v: int, digits: nat)
    requires
        v >= 0,
        digits >= 1,
    ensures
        digits == 1 ==> digit_events(v, digits) == seq![
            SinkEvent::Integer(digit_text(v, digits)),
            SinkEvent::Finish,
        ],
        digits > 1 ==> {
            let events = digit_events(v, digits);
            &&& events.len() == 3
            &&& events[0] matches SinkEvent::Integer(a) && a.len() == 1 && (
            events[1] matches SinkEvent::Fraction(b) && b.len() == digits - 1 && a + b == digit_text(
                v,
                digits,
            ))
            &&& events[2] is Finish
        },
{
    lemma_digit_text(v, digits);
    let t = digit_text(v, digits);
    assert(t.take(1) + t.skip(1) =~= t);
    assert(digits == 1 ==> t.take(1) =~= t);
}

/// As text, the digits of `v` are its first digit, a point behind it where there
/// are others, the others, and one line feed where it is wanted: character `i` in
/// front of the point, or `i + 1` behind it, is digit `i`.
pub proof fn law_written_digits(v: int, digits: nat, newline: bool)
    requires
        v >= 0,
        digits >= 1,
    ensures
        ({
            let w = output::rendered(digit_events(v, digits), newline);
            let t = digit_text(v, digits);
            let len = if digits > 1 {
                digits + 1
            } else {
                1
            };
            &&& w.len() == if newline {
                len + 1
            } else {
                len
            }
            &&& w[0] == t[0]
            &&& digits > 1 ==> w[1] as int == 46
            &&& forall|i: int| 1 <= i < digits ==> w[i + 1] == #[trigger] t[i]
            &&& newline ==> w[len as int] as int == 10
        }),
{
    lemma_digit_text(v, digits);
    law_digit_events(v, digits);
    let events = digit_events(v, digits);
    let t = digit_text(v, digits);
    let w = output::rendered(events, newline);
    if digits == 1 {
        let none = Seq::<Seq<char>>::empty();
        output::law_rendered(t, none, newline);
        assert(events =~= (seq![SinkEvent::Integer(t)] + Seq::new(
            none.len(),
            |i: int| SinkEvent::Fraction(none[i]),
        )).push(SinkEvent::Finish));
        assert(w =~= if newline {
            t.push(10 as char)
        } else {
            t
        });
    } else {
        let chunks = seq![t.skip(1)];
        output::law_rendered(t.take(1), chunks, newline);
        chunks.lemma_flatten_singleton();
        assert(events =~= (seq![SinkEvent::Integer(t.take(1))] + Seq::new(
            chunks.len(),
            |i: int| SinkEvent::Fraction(chunks[i]),
        )).push(SinkEvent::Finish)) by {
            assert(events[0]->Integer_0 =~= t.take(1));
            assert(events[1]->Fraction_0 =~= t.skip(1));
        }
        let body = t.take(1) + seq![46 as char] + t.skip(1);
        assert(w =~= if newline {
            body.push(10 as char)
        } else {
            body
        });
    }
}

/// The number whose digits are written: where the product fits the precision, it is
/// `x * 10^(digits - 1)` rounded down, and else that but for a relative error of
/// `2 * (digits + 1)` units in the last place.
pub proof fn law_scaled(v: int, x: Float, digits: nat)
    requires
        digits >= 1,
        is_scaled(v, x, digits),
    ensures
        v >= 0,
        ({
            let y = x.val() * (pow(10, (digits - 1) as nat) as real);
            let e = ((2 * (digits + 1)) as real) * reals::rpow2(-(x.prec as int));
            &&& bitlen::bit_len(x.mantissa@) + bitlen::bit_len(pow(10, (digits - 1) as nat))
                <= x.prec ==> (v as real) <= y < (v as real) + 1real
            &&& ((digits + 1) as real) * reals::rpow2(-(x.prec as int)) <= 1real / 4real ==> (
            v as real) <= y * (1real + e) && y * (1real - e) < (v as real) + 1real
        }),
{
    let y = x.val() * (pow(10, (digits - 1) as nat) as real);
    assert(y * (1real + 0real) == y && y * (1real - 0real) == y) by (nonlinear_arith);
}

/// Read as a number, the digit text of `v` is `v`, without its last `k` digits where
/// it has `k` more than there is room for.
pub proof fn law_text_value(v: int, digits: nat, k: nat)
    requires
        digits >= 1,
        0 <= v < pow(10, digits + k),
        k > 0 ==> pow(10, (digits + k - 1) as nat) <= v,
    ensures
        ({
            let t = digit_text(v, digits);
            let bytes = Seq::new(t.len(), |i: int| t[i] as u8);
            text::numeral_value(bytes, 10) == v / pow(10, k)
        }),
        k == 0 ==> v / pow(10, k) == v,
{
    law_digit_text(v, digits, k);
    let t = digit_text(v, digits);
    let bytes = Seq::new(t.len(), |i: int| t[i] as u8);
    let p = pow(10, k);
    let w = v / p;
    lemma_pow_positive(10, k);
    lemma_pow_positive(10, digits);
    lemma_pow_adds(10, digits, k);
    lemma_fundamental_div_mod(v, p);
    lemma_mod_bound(v, p);
    lemma_div_pos_is_pos(v, p);
    let q = pow(10, digits);
    assert(w < q) by (nonlinear_arith)
        requires
            v < q * p,
            v == p * w + v % p,
            v % p >= 0,
            p > 0,
    ;
    assert forall|i: int| 0 <= i < bytes.len() implies text::digit_value(#[trigger] bytes[i], 10)
        == (w / pow(10, (bytes.len() - 1 - i) as nat)) % 10 by {
        assert(t[i] as int == 48 + (w / pow(10, (digits - 1 - i) as nat)) % 10);
    }
    text::law_only_value(bytes, 10, w);
    if k == 0 {
        lemma_pow0(10);
        assert(v / 1 == v);
    }
}

} // verus!
