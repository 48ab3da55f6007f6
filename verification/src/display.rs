//! Numbers and bytes in the words of the command line.
use crate::text;
use crate::text::{push_decimal, push_padded};
use vstd::arithmetic::power::*;
use vstd::prelude::*;
use vstd::string::*;

verus! {

/// `n` in base ten, with a comma before each group of three digits.
pub open spec fn thousands(n: nat) -> Seq<char>
    decreases n,
{
    if n < 1000 {
        text::numeral(n as int, 10)
    } else {
        thousands(n / 1000).push(',') + text::padded(n as int % 1000, 10, 3)
    }
}

/// Append `n` with a comma before each group of three digits.
pub fn push_thousands(out: &mut String, n: u64)
    ensures
        final(out)@ == old(out)@ + thousands(n as nat),
    decreases n,
{
    let ghost start = out@;
    if n < 1000 {
        push_decimal(out, n);
    } else {
        push_thousands(out, n / 1000);
        out.push(',');
        push_padded(out, n % 1000, 10, 3);
        proof {
            let h = thousands((n / 1000) as nat);
            let l = text::padded((n % 1000) as int, 10, 3);
            assert((start + h).push(',') + l =~= start + (h.push(',') + l));
        }
    }
}

/// `n` with a comma before each group of three digits.
pub fn fmt_thousands(n: u64) -> (s: String)
    ensures
        s@ == thousands(n as nat),
{
    let mut s: String = String::new();
    push_thousands(&mut s, n);
    assert(s@ =~= thousands(n as nat));
    s
}

/// `s` without its commas.
pub open spec fn without_commas(s: Seq<char>) -> Seq<char>
    decreases s.len(),
{
    if s.len() == 0 {
        s
    } else if s.last() == ',' {
        without_commas(s.drop_last())
    } else {
        without_commas(s.drop_last()).push(s.last())
    }
}

proof fn lemma_without_commas_add(a: Seq<char>, b: Seq<char>)
    ensures
        without_commas(a + b) == without_commas(a) + without_commas(b),
    decreases b.len(),
{
    if b.len() == 0 {
        assert(a + b =~= a);
        assert(without_commas(a) + without_commas(b) =~= without_commas(a));
    } else {
        lemma_without_commas_add(a, b.drop_last());
        assert((a + b).drop_last() =~= a + b.drop_last());
        let x = without_commas(a);
        let y = without_commas(b.drop_last());
        assert((x + y).push(b.last()) =~= x + y.push(b.last()));
    }
}

proof fn lemma_padded_has_no_commas(n: int, len: nat)
    requires
        n >= 0,
    ensures
        without_commas(text::padded(n, 10, len)) == text::padded(n, 10, len),
    decreases len,
{
    if len > 0 {
        lemma_padded_has_no_commas(n / 10, (len - 1) as nat);
        let s = text::padded(n, 10, len);
        assert(s.drop_last() =~= text::padded(n / 10, 10, (len - 1) as nat));
        assert(s.last() == text::digit_char(n % 10));
    }
}

proof fn lemma_numeral_has_no_commas(n: int)
    requires
        n >= 0,
    ensures
        without_commas(text::numeral(n, 10)) == text::numeral(n, 10),
    decreases n,
{
    let s = text::numeral(n, 10);
    if n >= 10 {
        lemma_numeral_has_no_commas(n / 10);
        assert(s.drop_last() =~= text::numeral(n / 10, 10));
        assert(s.last() == text::digit_char(n % 10));
    } else {
        assert(s.drop_last() =~= Seq::<char>::empty());
        assert(without_commas(s.drop_last()) == Seq::<char>::empty());
        assert(s.last() == text::digit_char(n));
        assert(without_commas(s) =~= s);
    }
}

/// Without its commas, a grouped number is the plain number.
pub proof fn law_grouping(n: nat)
    ensures
        without_commas(thousands(n)) == text::numeral(n as int, 10),
    decreases n,
{
    if n < 1000 {
        lemma_numeral_has_no_commas(n as int);
    } else {
        law_grouping(n / 1000);
        let h = thousands(n / 1000);
        let l = text::padded(n as int % 1000, 10, 3);
        lemma_without_commas_add(h.push(','), l);
        lemma_padded_has_no_commas(n as int % 1000, 3);
        assert(h.push(',').drop_last() =~= h);
        lemma_pow0(10);
        lemma_pow1(10);
        lemma_pow_adds(10, 1, 1);
        lemma_pow_adds(10, 2, 1);
        text::lemma_numeral_split(n as int, 10, 3);
    }
}

/// A byte in words.
pub open spec fn byte_words(b: u8) -> Seq<char> {
    if b == 32 {
        "(space)"@
    } else if b == 9 {
        "(tab)"@
    } else if b == 10 {
        "(LF)"@
    } else if b == 13 {
        "(CR)"@
    } else if 33 <= b <= 126 {
        "('"@ + seq![b as char] + "')"@
    } else {
        "(non-printable "@ + text::numeral(b as int, 10) + ")"@
    }
}

/// A byte in words.
pub fn describe_byte(b: u8) -> (s: String)
    ensures
        s@ == byte_words(b),
{
    if b == 32 {
        return "(space)".to_owned();
    }
    if b == 9 {
        return "(tab)".to_owned();
    }
    if b == 10 {
        return "(LF)".to_owned();
    }
    if b == 13 {
        return "(CR)".to_owned();
    }
    let mut s: String = String::new();
    if 33 <= b && b <= 126 {
        s.append("('");
        s.push(b as char);
        s.append("')");
    } else {
        s.append("(non-printable ");
        push_decimal(&mut s, b as u64);
        s.append(")");
    }
    assert(s@ =~= byte_words(b));
    s
}

/// `0x` and `len` digits of `n` in base sixteen.
pub open spec fn hex_words(n: int, len: nat) -> Seq<char> {
    "0x"@ + text::padded(n, 16, len)
}

/// Append `0x` and `len` digits of `n` in base sixteen.
pub fn push_hex(out: &mut String, n: u64, len: u32)
    ensures
        final(out)@ == old(out)@ + hex_words(n as int, len as nat),
{
    let ghost start = out@;
    out.append("0x");
    push_padded(out, n, 16, len);
    assert(out@ =~= start + hex_words(n as int, len as nat));
}

/// In a grouped number every fourth character from the right is a comma, and no
/// other; it does not begin with one.
pub proof fn law_commas(n: nat)
    ensures
        thousands(n).len() >= 1,
        thousands(n).len() % 4 != 0,
        forall|i: int|
            0 <= i < thousands(n).len() ==> (#[trigger] thousands(n)[i] as int == 44 <==> (
            thousands(n).len() - 1 - i) % 4 == 3),
    decreases n,
{
    lemma_pow0(10);
    lemma_pow1(10);
    lemma_pow_adds(10, 1, 1);
    lemma_pow_adds(10, 2, 1);
    let t = thousands(n);
    if n < 1000 {
        text::law_numeral(n as int, 10);
        text::lemma_numeral_len(n as int, 10, 3);
        assert forall|i: int| 0 <= i < t.len() implies (#[trigger] t[i] as int == 44 <==> (t.len()
            - 1 - i) % 4 == 3) by {
            assert(t[i] == text::numeral(n as int, 10)[i]);
        }
    } else {
        law_commas(n / 1000);
        let h = thousands(n / 1000);
        let l = text::padded(n as int % 1000, 10, 3);
        text::law_low_digits(n as int % 1000, 10, 3);
        assert(t =~= h.push(',') + l);
        assert forall|i: int| 0 <= i < t.len() implies (#[trigger] t[i] as int == 44 <==> (t.len()
            - 1 - i) % 4 == 3) by {
            if i < h.len() {
                assert(t[i] == h[i]);
            } else if i > h.len() {
                assert(t[i] == l[i - h.len() - 1]);
            }
        }
    }
}

/// A printable byte is shown between quotes, the others by name or by number.
pub proof fn law_byte_words(b: u8)
    ensures
        33 <= b <= 126 ==> byte_words(b) == seq!['(', '\'', b as char, '\'', ')'],
        b == 32 ==> byte_words(b) == "(space)"@,
        b == 9 ==> byte_words(b) == "(tab)"@,
        b == 10 ==> byte_words(b) == "(LF)"@,
        b == 13 ==> byte_words(b) == "(CR)"@,
        b > 126 || (b < 32 && b != 9 && b != 10 && b != 13) ==> byte_words(b)
            == "(non-printable "@ + text::numeral(b as int, 10) + ")"@,
{
    reveal_strlit("('");
    reveal_strlit("')");
    assert(33 <= b <= 126 ==> byte_words(b) =~= seq!['(', '\'', b as char, '\'', ')']);
}

/// A number of base sixteen is `0x` and so many digits, each for four bits.
pub proof fn law_hex_words(n: int, len: nat)
    requires
        n >= 0,
    ensures
        hex_words(n, len).len() == len + 2,
        hex_words(n, len)[0] as int == 48,
        hex_words(n, len)[1] as int == 120,
        forall|i: int|
            0 <= i < len ==> #[trigger] hex_words(n, len)[i + 2] as int == {
                let d = (n / pow(16, (len - 1 - i) as nat)) % 16;
                if d < 10 {
                    48 + d
                } else {
                    87 + d
                }
            },
{
    reveal_strlit("0x");
    text::law_low_digits(n, 16, len);
    let p = text::padded(n, 16, len);
    assert forall|i: int| 0 <= i < len implies #[trigger] hex_words(n, len)[i + 2] == p[i] by {}
}

} // verus!
