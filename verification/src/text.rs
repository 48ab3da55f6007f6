//! Numerals: the digits of a natural number as text.
use vstd::arithmetic::div_mod::*;
use vstd::arithmetic::mul::*;
use vstd::arithmetic::power::*;
use vstd::prelude::*;

verus! {

/// `String::push` appends one character.
pub assume_specification[ String::push ](s: &mut String, c: char)
    ensures
        final(s)@ == old(s)@.push(c),
;

/// The character of a digit below 16, in lower case.
pub open spec fn digit_char(d: int) -> char {
    if d < 10 {
        (48 + d) as char
    } else {
        (87 + d) as char
    }
}

/// The digits of `n` in base `radix`, most significant first, without leading zeros.
pub open spec fn numeral(n: int, radix: int) -> Seq<char>
    decreases n,
{
    if n < radix || radix < 2 {
        seq![digit_char(n)]
    } else {
        proof {
            assert(0 <= n / radix < n) by (nonlinear_arith)
                requires
                    2 <= radix <= n,
            ;
        }
        numeral(n / radix, radix).push(digit_char(n % radix))
    }
}

/// The `len` low digits of `n` in base `radix`, most significant first.
pub open spec fn padded(n: int, radix: int, len: nat) -> Seq<char>
    decreases len,
{
    if len == 0 {
        Seq::empty()
    } else {
        padded(n / radix, radix, (len - 1) as nat).push(digit_char(n % radix))
    }
}

/// `len` zero digits.
pub open spec fn zeros(len: nat) -> Seq<char> {
    Seq::new(len, |i: int| '0')
}

/// The digits of `n` in base ten, with a sign where it is negative.
pub open spec fn signed_numeral(n: int, radix: int) -> Seq<char> {
    if n < 0 {
        seq!['-'] + numeral(-n, radix)
    } else {
        numeral(n, radix)
    }
}

pub proof fn lemma_padded_len(n: int, radix: int, len: nat)
    ensures
        padded(n, radix, len).len() == len,
    decreases len,
{
    if len > 0 {
        lemma_padded_len(n / radix, radix, (len - 1) as nat);
    }
}

/// The low digits of zero are zeros.
pub proof fn lemma_padded_zero(radix: int, len: nat)
    requires
        radix >= 2,
    ensures
        padded(0, radix, len) == zeros(len),
    decreases len,
{
    if len > 0 {
        assert(0int / radix == 0 && 0int % radix == 0) by (nonlinear_arith)
            requires
                radix >= 2,
        ;
        lemma_padded_zero(radix, (len - 1) as nat);
        assert(digit_char(0) == '0');
        assert(padded(0, radix, len) =~= zeros(len));
    } else {
        assert(padded(0, radix, len) =~= zeros(len));
    }
}

/// Splitting `n` at a power of the base splits its low digits.
pub proof fn lemma_padded_split(n: int, radix: int, high: nat, low: nat)
    requires
        n >= 0,
        radix >= 2,
    ensures
        padded(n, radix, high + low) == padded(n / pow(radix, low), radix, high) + padded(
            n % pow(radix, low),
            radix,
            low,
        ),
    decreases low,
{
    lemma_pow_positive(radix, low);
    if low == 0 {
        lemma_pow0(radix);
        assert(n / 1 == n);
        assert(padded(n, radix, high) + padded(n % 1, radix, 0) =~= padded(n, radix, high));
    } else {
        let l1: nat = (low - 1) as nat;
        let p1 = pow(radix, l1);
        lemma_pow_positive(radix, l1);
        lemma_pow_adds(radix, 1, l1);
        lemma_pow1(radix);
        lemma_div_pos_is_pos(n, radix);
        lemma_padded_split(n / radix, radix, high, l1);
        // (n / r) / p1 == n / (r * p1), and the low parts agree.
        lemma_div_denominator(n, radix, p1);
        lemma_mod_breakdown(n, radix, p1);
        let m = n % pow(radix, low);
        let q = (n / radix) % p1;
        assert(m == radix * q + n % radix);
        lemma_mod_bound(n, radix);
        lemma_mul_is_commutative(radix, q);
        lemma_fundamental_div_mod_converse(m, radix, q, n % radix);
        let a = padded(n / pow(radix, low), radix, high);
        let b = padded(q, radix, l1);
        let c = digit_char(n % radix);
        assert((high + low - 1) as nat == high + l1);
        assert((a + b).push(c) =~= a + b.push(c));
    }
}

/// Splitting `n` at a power of the base splits its numeral.
pub proof fn lemma_numeral_split(n: int, radix: int, low: nat)
    requires
        radix >= 2,
        n >= pow(radix, low),
    ensures
        n / pow(radix, low) >= 1,
        numeral(n, radix) == numeral(n / pow(radix, low), radix) + padded(
            n % pow(radix, low),
            radix,
            low,
        ),
    decreases low,
{
    lemma_pow_positive(radix, low);
    let p = pow(radix, low);
    assert(n / p >= 1) by {
        lemma_div_is_ordered(p, n, p);
        lemma_div_by_self(p);
    }
    if low == 0 {
        lemma_pow0(radix);
        assert(n / 1 == n);
        assert(numeral(n, radix) + padded(n % 1, radix, 0) =~= numeral(n, radix));
    } else {
        let l1: nat = (low - 1) as nat;
        let p1 = pow(radix, l1);
        lemma_pow_positive(radix, l1);
        lemma_pow_adds(radix, 1, l1);
        lemma_pow1(radix);
        assert(p == radix * p1);
        assert(n >= radix) by (nonlinear_arith)
            requires
                n >= radix * p1,
                p1 >= 1,
                radix >= 2,
        ;
        assert(n / radix >= p1) by {
            lemma_div_is_ordered(p, n, radix);
            lemma_mul_is_commutative(radix, p1);
            lemma_div_by_multiple(p1, radix);
        }
        lemma_numeral_split(n / radix, radix, l1);
        lemma_div_denominator(n, radix, p1);
        lemma_mod_breakdown(n, radix, p1);
        let m = n % p;
        let q = (n / radix) % p1;
        assert(m == radix * q + n % radix);
        lemma_mod_bound(n, radix);
        lemma_mul_is_commutative(radix, q);
        lemma_fundamental_div_mod_converse(m, radix, q, n % radix);
        let a = numeral(n / p, radix);
        let b = padded(q, radix, l1);
        let c = digit_char(n % radix);
        assert((a + b).push(c) =~= a + b.push(c));
    }
}

/// A numeral is never empty, and is short for a small number.
pub proof fn lemma_numeral_len(n: int, radix: int, len: nat)
    requires
        radix >= 2,
        0 <= n < pow(radix, len),
        len >= 1,
    ensures
        1 <= numeral(n, radix).len() <= len,
    decreases len,
{
    if n >= radix {
        lemma_pow_adds(radix, 1, (len - 1) as nat);
        lemma_pow1(radix);
        if len == 1 {
            lemma_pow0(radix);
        } else {
            let p1 = pow(radix, (len - 1) as nat);
            lemma_pow_positive(radix, (len - 1) as nat);
            lemma_div_pos_is_pos(n, radix);
            assert(n / radix < p1) by {
                lemma_mul_is_commutative(radix, p1);
                lemma_div_by_multiple_is_strongly_ordered(n, p1 * radix, p1, radix);
                lemma_div_by_multiple(p1, radix);
            }
            lemma_numeral_len(n / radix, radix, (len - 1) as nat);
        }
    }
}

/// Padding a numeral with zeros gives the low digits.
pub proof fn lemma_padded_numeral(n: int, radix: int, len: nat)
    requires
        radix >= 2,
        0 < n < pow(radix, len),
    ensures
        numeral(n, radix).len() <= len,
        padded(n, radix, len) == zeros((len - numeral(n, radix).len()) as nat) + numeral(n, radix),
    decreases len,
{
    if len == 0 {
        lemma_pow0(radix);
    } else {
        lemma_numeral_len(n, radix, len);
        let l1: nat = (len - 1) as nat;
        if n < radix {
            assert(n / radix == 0) by {
                lemma_basic_div(n, radix);
            }
            lemma_small_mod(n as nat, radix as nat);
            lemma_padded_zero(radix, l1);
            assert(padded(n, radix, len) =~= zeros(l1) + numeral(n, radix));
        } else {
            let p1 = pow(radix, l1);
            lemma_pow_positive(radix, l1);
            lemma_pow_adds(radix, 1, l1);
            lemma_pow1(radix);
            assert(n / radix < p1) by {
                lemma_mul_is_commutative(radix, p1);
                lemma_div_by_multiple_is_strongly_ordered(n, p1 * radix, p1, radix);
                lemma_div_by_multiple(p1, radix);
            }
            assert(n / radix >= 1) by {
                lemma_div_is_ordered(radix, n, radix);
                lemma_div_by_self(radix);
            }
            lemma_padded_numeral(n / radix, radix, l1);
            let m = numeral(n / radix, radix);
            let c = digit_char(n % radix);
            assert((len - m.push(c).len()) as nat == (l1 - m.len()) as nat);
            let z = zeros((l1 - m.len()) as nat);
            assert((z + m).push(c) =~= z + m.push(c));
        }
    }
}

/// The character of a digit.
pub fn to_digit_char(d: u8) -> (c: char)
    requires
        d < 16,
    ensures
        c == digit_char(d as int),
{
    if d < 10 {
        (48u8 + d) as char
    } else {
        (87u8 + d) as char
    }
}

/// Append `count` zero digits.
pub fn push_zeros(out: &mut String, count: usize)
    ensures
        final(out)@ == old(out)@ + zeros(count as nat),
{
    let ghost start = out@;
    let mut i: usize = 0;
    assert(start + zeros(0) =~= start);
    while i < count
        invariant
            i <= count,
            out@ == start + zeros(i as nat),
        decreases count - i,
    {
        out.push('0');
        proof {
            assert((start + zeros(i as nat)).push('0') =~= start + zeros((i + 1) as nat));
        }
        i = i + 1;
    }
}

/// Append `n` in base `radix`.
pub fn push_numeral(out: &mut String, n: u128, radix: u128)
    requires
        2 <= radix <= 16,
    ensures
        final(out)@ == old(out)@ + numeral(n as int, radix as int),
    decreases n,
{
    let ghost start = out@;
    if n < radix {
        out.push(to_digit_char(n as u8));
        assert(out@ =~= start + numeral(n as int, radix as int));
    } else {
        proof {
            assert(0 <= n / radix < n) by (nonlinear_arith)
                requires
                    2 <= radix <= n,
            ;
        }
        push_numeral(out, n / radix, radix);
        let ghost mid = out@;
        out.push(to_digit_char((n % radix) as u8));
        proof {
            let h = numeral((n / radix) as int, radix as int);
            let c = digit_char((n % radix) as int);
            assert(mid.push(c) =~= start + h.push(c));
        }
    }
}

/// Append the `len` low digits of `n` in base `radix`.
pub fn push_padded(out: &mut String, n: u64, radix: u64, len: u32)
    requires
        2 <= radix <= 16,
    ensures
        final(out)@ == old(out)@ + padded(n as int, radix as int, len as nat),
    decreases len,
{
    let ghost start = out@;
    if len == 0 {
        assert(out@ =~= start + padded(n as int, radix as int, 0));
    } else {
        push_padded(out, n / radix, radix, len - 1);
        let ghost mid = out@;
        out.push(to_digit_char((n % radix) as u8));
        proof {
            let h = padded((n / radix) as int, radix as int, (len - 1) as nat);
            let c = digit_char((n % radix) as int);
            assert(mid.push(c) =~= start + h.push(c));
        }
    }
}

/// Append `n` in base ten.
pub fn push_decimal(out: &mut String, n: u64)
    ensures
        final(out)@ == old(out)@ + numeral(n as int, 10),
{
    push_numeral(out, n as u128, 10);
}

/// Value of a digit character in base `radix`, for bases up to 16, or -1.
pub open spec fn digit_value(b: u8, radix: int) -> int {
    if 48 <= b <= 57 && b - 48 < radix {
        b - 48
    } else if 97 <= b <= 102 && b - 87 < radix {
        b - 87
    } else if 65 <= b <= 70 && b - 55 < radix {
        b - 55
    } else {
        -1
    }
}

/// Every byte is a digit in base `radix`.
pub open spec fn all_digits(s: Seq<u8>, radix: int) -> bool {
    forall|i: int| 0 <= i < s.len() ==> digit_value(#[trigger] s[i], radix) >= 0
}

/// Value of the digits `s`, most significant first.
pub open spec fn numeral_value(s: Seq<u8>, radix: int) -> int
    decreases s.len(),
{
    if s.len() == 0 {
        0
    } else {
        numeral_value(s.drop_last(), radix) * radix + digit_value(s.last(), radix)
    }
}

/// The bytes of a text of ASCII characters.
pub open spec fn ascii_bytes(s: Seq<char>) -> Seq<u8> {
    Seq::new(s.len(), |i: int| s[i] as u8)
}

/// Reading a numeral gives the number back.
pub proof fn lemma_numeral_value(n: int, radix: int)
    requires
        2 <= radix <= 16,
        n >= 0,
    ensures
        numeral_value(ascii_bytes(numeral(n, radix)), radix) == n,
        all_digits(ascii_bytes(numeral(n, radix)), radix),
        numeral(n, radix).len() >= 1,
        vstd::utf8::is_ascii_chars(numeral(n, radix)),
    decreases n,
{
    let s = numeral(n, radix);
    let b = ascii_bytes(s);
    if n < radix {
        assert(b.drop_last() =~= Seq::<u8>::empty());
        assert(numeral_value(b.drop_last(), radix) == 0);
        assert(b.last() == digit_char(n) as u8);
        assert(0 * radix == 0);
    } else {
        assert(0 <= n / radix < n) by (nonlinear_arith)
            requires
                2 <= radix <= n,
        ;
        lemma_numeral_value(n / radix, radix);
        let t = numeral(n / radix, radix);
        lemma_mod_bound(n, radix);
        assert(b.drop_last() =~= ascii_bytes(t));
        assert(b.last() == digit_char(n % radix) as u8);
        lemma_fundamental_div_mod(n, radix);
        lemma_mul_is_commutative(radix, n / radix);
        assert forall|i: int| 0 <= i < b.len() implies digit_value(#[trigger] b[i], radix) >= 0 by {
            if i < t.len() {
                assert(b[i] == ascii_bytes(t)[i]);
            }
        }
        assert forall|i: int| 0 <= i < s.len() implies 0 <= #[trigger] (s[i] as nat) < 128 by {
            if i < t.len() {
                assert(s[i] == t[i]);
            }
        }
    }
}

/// Lower-case digits in base `radix`.
pub open spec fn lower_digits(s: Seq<char>, radix: int) -> bool {
    forall|i: int|
        0 <= i < s.len() ==> '0' <= #[trigger] s[i] <= '9' || (radix > 10 && 'a' <= s[i] <= 'f')
}

/// A numeral is made of lower-case digits, and does not begin with a zero but
/// for the number zero.
pub proof fn lemma_numeral_form(n: int, radix: int)
    requires
        2 <= radix <= 16,
        n >= 0,
    ensures
        numeral(n, radix).len() >= 1,
        lower_digits(numeral(n, radix), radix),
        n > 0 ==> numeral(n, radix)[0] != '0',
        n == 0 ==> numeral(n, radix) == seq!['0'],
    decreases n,
{
    if n >= radix {
        assert(0 < n / radix < n) by (nonlinear_arith)
            requires
                2 <= radix <= n,
        ;
        lemma_numeral_form(n / radix, radix);
        lemma_mod_bound(n, radix);
    }
}

/// One digit further up is one division by the base more.
proof fn lemma_digit_up(n: int, radix: int, k: nat)
    requires
        n >= 0,
        radix >= 2,
    ensures
        (n / radix) / pow(radix, k) == n / pow(radix, k + 1),
        pow(radix, k) > 0,
{
    lemma_pow_positive(radix, k);
    lemma_pow_adds(radix, 1, k);
    lemma_pow1(radix);
    lemma_div_denominator(n, radix, pow(radix, k));
}

/// Digit `i` of so many low digits is worth `radix^(len - 1 - i)`: it is the
/// remainder, modulo the base, of the number divided by that power, as `0..9` or
/// `a..f`.
pub proof fn law_low_digits(n: int, radix: int, len: nat)
    requires
        n >= 0,
        2 <= radix <= 16,
    ensures
        padded(n, radix, len).len() == len,
        forall|i: int|
            0 <= i < len ==> #[trigger] padded(n, radix, len)[i] as int == {
                let d = (n / pow(radix, (len - 1 - i) as nat)) % radix;
                if d < 10 {
                    48 + d
                } else {
                    87 + d
                }
            },
    decreases len,
{
    lemma_padded_len(n, radix, len);
    if len > 0 {
        let l1 = (len - 1) as nat;
        lemma_div_pos_is_pos(n, radix);
        law_low_digits(n / radix, radix, l1);
        let s = padded(n, radix, len);
        let t = padded(n / radix, radix, l1);
        assert(s =~= t.push(digit_char(n % radix)));
        assert forall|i: int| 0 <= i < len implies #[trigger] s[i] as int == {
            let d = (n / pow(radix, (len - 1 - i) as nat)) % radix;
            if d < 10 {
                48 + d
            } else {
                87 + d
            }
        } by {
            if i < l1 {
                lemma_digit_up(n, radix, (l1 - 1 - i) as nat);
                assert((l1 - 1 - i) as nat + 1 == (len - 1 - i) as nat);
                assert(s[i] == t[i]);
            } else {
                lemma_pow0(radix);
                assert(n / 1 == n);
                lemma_mod_bound(n, radix);
                assert(s[i] == digit_char(n % radix));
            }
        }
    }
}

/// A number has as many digits as the base needs to exceed it, and they are its
/// low digits.
proof fn lemma_numeral_low_digits(n: int, radix: int)
    requires
        n >= 0,
        2 <= radix <= 16,
    ensures
        numeral(n, radix).len() >= 1,
        n < pow(radix, numeral(n, radix).len()),
        numeral(n, radix).len() > 1 ==> n >= pow(radix, (numeral(n, radix).len() - 1) as nat),
        numeral(n, radix) == padded(n, radix, numeral(n, radix).len()),
    decreases n,
{
    let s = numeral(n, radix);
    lemma_pow1(radix);
    lemma_pow0(radix);
    if n < radix {
        lemma_small_mod(n as nat, radix as nat);
        assert(padded(n / radix, radix, 0) =~= Seq::<char>::empty());
        assert(padded(n, radix, 1) =~= s);
    } else {
        assert(0 < n / radix < n) by (nonlinear_arith)
            requires
                2 <= radix <= n,
        ;
        lemma_numeral_low_digits(n / radix, radix);
        let t = numeral(n / radix, radix);
        let l = t.len();
        lemma_pow_adds(radix, 1, l);
        lemma_pow_adds(radix, 1, (l - 1) as nat);
        lemma_fundamental_div_mod(n, radix);
        lemma_mod_bound(n, radix);
        let q = n / radix;
        let p = pow(radix, l);
        let o = pow(radix, (l - 1) as nat);
        assert(n < radix * p) by (nonlinear_arith)
            requires
                n == radix * q + n % radix,
                n % radix < radix,
                q + 1 <= p,
                radix >= 2,
        ;
        assert(q >= o);
        assert(n >= radix * o) by (nonlinear_arith)
            requires
                n == radix * q + n % radix,
                n % radix >= 0,
                q >= o,
                radix >= 2,
        ;
        assert(s.len() == l + 1);
    }
}

/// A numeral has no digit more than its number needs, and digit `i` of it is the
/// remainder, modulo the base, of the number divided by the power of the base
/// that the digit is worth, as `0..9` or `a..f`.
pub proof fn law_numeral(n: int, radix: int)
    requires
        n >= 0,
        2 <= radix <= 16,
    ensures
        ({
            let len = numeral(n, radix).len();
            &&& len >= 1
            &&& n < pow(radix, len)
            &&& len > 1 ==> pow(radix, (len - 1) as nat) <= n
            &&& forall|i: int|
                0 <= i < len ==> #[trigger] numeral(n, radix)[i] as int == {
                    let d = (n / pow(radix, (len - 1 - i) as nat)) % radix;
                    if d < 10 {
                        48 + d
                    } else {
                        87 + d
                    }
                }
        }),
{
    lemma_numeral_low_digits(n, radix);
    law_low_digits(n, radix, numeral(n, radix).len());
}

/// A negative number is a minus sign and the numeral of its opposite.
pub proof fn law_signed_numeral(n: int, radix: int)
    requires
        n > 0,
        2 <= radix <= 16,
    ensures
        signed_numeral(n, radix) == numeral(n, radix),
        signed_numeral(-n, radix).len() == numeral(n, radix).len() + 1,
        signed_numeral(-n, radix)[0] as int == 45,
        signed_numeral(-n, radix).skip(1) == numeral(n, radix),
        signed_numeral(0, radix).len() == 1,
        signed_numeral(0, radix)[0] as int == 48,
{
    assert(signed_numeral(-n, radix).skip(1) =~= numeral(n, radix));
}

/// Every digit below the base is read for what it is, in lower or in upper case,
/// and nothing else is a digit.
pub proof fn law_digit_value(b: u8, radix: int, d: int)
    requires
        2 <= radix <= 16,
        0 <= d < radix,
    ensures
        -1 <= digit_value(b, radix) < radix,
        digit_value(b, radix) == d <==> if d < 10 {
            b == 48 + d
        } else {
            b == 87 + d || b == 55 + d
        },
{
}

/// Digits are worth powers of the base: the value of `s` is below
/// `radix^s.len()`, and dividing it by `radix^(s.len() - 1 - i)` leaves digit `i`
/// modulo the base.
pub proof fn law_numeral_value(s: Seq<u8>, radix: int)
    requires
        2 <= radix <= 16,
        forall|i: int| 0 <= i < s.len() ==> digit_value(#[trigger] s[i], radix) >= 0,
    ensures
        0 <= numeral_value(s, radix) < pow(radix, s.len()),
        forall|i: int|
            0 <= i < s.len() ==> (numeral_value(s, radix) / pow(radix, (s.len() - 1 - i) as nat))
                % radix == digit_value(#[trigger] s[i], radix),
    decreases s.len(),
{
    if s.len() == 0 {
        lemma_pow0(radix);
    } else {
        let t = s.drop_last();
        assert forall|i: int| 0 <= i < t.len() implies digit_value(#[trigger] t[i], radix) >= 0 by {
            assert(t[i] == s[i]);
        }
        law_numeral_value(t, radix);
        let v = numeral_value(s, radix);
        let q = numeral_value(t, radix);
        let d = digit_value(s[s.len() - 1], radix);
        assert(0 <= d < radix);
        assert(v == q * radix + d);
        lemma_fundamental_div_mod_converse(v, radix, q, d);
        lemma_pow_adds(radix, 1, t.len());
        lemma_pow1(radix);
        let p = pow(radix, t.len());
        assert(0 <= v < radix * p) by (nonlinear_arith)
            requires
                v == q * radix + d,
                0 <= d < radix,
                0 <= q,
                q + 1 <= p,
        ;
        assert forall|i: int| 0 <= i < s.len() implies (v / pow(
            radix,
            (s.len() - 1 - i) as nat,
        )) % radix == digit_value(#[trigger] s[i], radix) by {
            if i < t.len() {
                lemma_digit_up(v, radix, (t.len() - 1 - i) as nat);
                assert((t.len() - 1 - i) as nat + 1 == (s.len() - 1 - i) as nat);
                assert(t[i] == s[i]);
            } else {
                lemma_pow0(radix);
                assert(v / 1 == v);
            }
        }
    }
}

/// The only number below `radix^s.len()` that has the digits `s` is their value.
pub proof fn law_only_value(s: Seq<u8>, radix: int, v: int)
    requires
        2 <= radix <= 16,
        0 <= v < pow(radix, s.len()),
        forall|i: int|
            0 <= i < s.len() ==> digit_value(#[trigger] s[i], radix) == (v / pow(
                radix,
                (s.len() - 1 - i) as nat,
            )) % radix,
    ensures
        numeral_value(s, radix) == v,
    decreases s.len(),
{
    lemma_pow0(radix);
    if s.len() > 0 {
        let t = s.drop_last();
        let q = v / radix;
        lemma_pow_adds(radix, 1, t.len());
        lemma_pow1(radix);
        lemma_fundamental_div_mod(v, radix);
        lemma_mod_bound(v, radix);
        lemma_div_pos_is_pos(v, radix);
        let p = pow(radix, t.len());
        assert(q < p) by (nonlinear_arith)
            requires
                v < radix * p,
                v == radix * q + v % radix,
                v % radix >= 0,
                radix >= 2,
        ;
        assert forall|i: int| 0 <= i < t.len() implies digit_value(#[trigger] t[i], radix) == (q
            / pow(radix, (t.len() - 1 - i) as nat)) % radix by {
            lemma_digit_up(v, radix, (t.len() - 1 - i) as nat);
            assert((t.len() - 1 - i) as nat + 1 == (s.len() - 1 - i) as nat);
            assert(t[i] == s[i]);
        }
        law_only_value(t, radix, q);
        assert(v / 1 == v);
        assert(digit_value(s[s.len() - 1], radix) == v % radix);
        lemma_mul_is_commutative(radix, q);
    }
}

} // verus!
