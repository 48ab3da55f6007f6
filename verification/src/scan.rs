//! Scanning UTF-8 text given as bytes: white space, lines, fields and numbers.
use crate::text;
use vstd::prelude::*;
use vstd::slice::slice_subrange;

verus! {

/// The length of the white-space character that `s` begins with, or zero.
pub open spec fn blank_front(s: Seq<u8>) -> nat {
    if s.len() >= 1 && (9 <= s[0] <= 13 || s[0] == 32) {
        1
    } else if s.len() >= 2 && s[0] == 0xc2 && (s[1] == 0x85 || s[1] == 0xa0) {
        2
    } else if s.len() >= 3 && wide_blank(s[0], s[1], s[2]) {
        3
    } else {
        0
    }
}

/// The length of the white-space character that `s` ends with, or zero.
pub open spec fn blank_back(s: Seq<u8>) -> nat {
    let n = s.len() as int;
    if n >= 1 && (9 <= s[n - 1] <= 13 || s[n - 1] == 32) {
        1
    } else if n >= 2 && s[n - 2] == 0xc2 && (s[n - 1] == 0x85 || s[n - 1] == 0xa0) {
        2
    } else if n >= 3 && wide_blank(s[n - 3], s[n - 2], s[n - 1]) {
        3
    } else {
        0
    }
}

/// Whether three bytes encode a white-space character.
pub open spec fn wide_blank(a: u8, b: u8, c: u8) -> bool {
    ||| a == 0xe1 && b == 0x9a && c == 0x80
    ||| a == 0xe2 && b == 0x80 && (0x80 <= c <= 0x8a || c == 0xa8 || c == 0xa9 || c == 0xaf)
    ||| a == 0xe2 && b == 0x81 && c == 0x9f
    ||| a == 0xe3 && b == 0x80 && c == 0x80
}

/// `s` without white space at its front.
pub open spec fn trim_front(s: Seq<u8>) -> Seq<u8>
    decreases s.len(),
{
    if blank_front(s) == 0 {
        s
    } else {
        trim_front(s.skip(blank_front(s) as int))
    }
}

/// `s` without white space at its end.
pub open spec fn trim_back(s: Seq<u8>) -> Seq<u8>
    decreases s.len(),
{
    if blank_back(s) == 0 {
        s
    } else {
        trim_back(s.take(s.len() - blank_back(s)))
    }
}

/// `s` without white space at either end.
pub open spec fn trimmed(s: Seq<u8>) -> Seq<u8> {
    trim_back(trim_front(s))
}

/// Trimming shortens.
pub proof fn lemma_trimmed_len(s: Seq<u8>)
    ensures
        trimmed(s).len() <= s.len(),
{
    lemma_trim_front_len(s);
    lemma_trim_back_len(trim_front(s));
}

proof fn lemma_trim_front_len(s: Seq<u8>)
    ensures
        trim_front(s).len() <= s.len(),
    decreases s.len(),
{
    if blank_front(s) > 0 {
        lemma_trim_front_len(s.skip(blank_front(s) as int));
    }
}

proof fn lemma_trim_back_len(s: Seq<u8>)
    ensures
        trim_back(s).len() <= s.len(),
    decreases s.len(),
{
    if blank_back(s) > 0 {
        lemma_trim_back_len(s.take(s.len() - blank_back(s)));
    }
}

fn is_wide_blank(a: u8, b: u8, c: u8) -> (r: bool)
    ensures
        r == wide_blank(a, b, c),
{
    (a == 0xe1 && b == 0x9a && c == 0x80) || (a == 0xe2 && b == 0x80 && ((0x80 <= c && c <= 0x8a)
        || c == 0xa8 || c == 0xa9 || c == 0xaf)) || (a == 0xe2 && b == 0x81 && c == 0x9f) || (a
        == 0xe3 && b == 0x80 && c == 0x80)
}

/// The length of the white-space character at the front.
pub fn front_blank(s: &[u8]) -> (n: usize)
    ensures
        n == blank_front(s@),
{
    let len: usize = s.len();
    if len >= 1 && ((9 <= s[0] && s[0] <= 13) || s[0] == 32) {
        1
    } else if len >= 2 && s[0] == 0xc2 && (s[1] == 0x85 || s[1] == 0xa0) {
        2
    } else if len >= 3 && is_wide_blank(s[0], s[1], s[2]) {
        3
    } else {
        0
    }
}

/// The length of the white-space character at the end.
pub fn back_blank(s: &[u8]) -> (n: usize)
    ensures
        n == blank_back(s@),
{
    let len: usize = s.len();
    if len >= 1 && ((9 <= s[len - 1] && s[len - 1] <= 13) || s[len - 1] == 32) {
        1
    } else if len >= 2 && s[len - 2] == 0xc2 && (s[len - 1] == 0x85 || s[len - 1] == 0xa0) {
        2
    } else if len >= 3 && is_wide_blank(s[len - 3], s[len - 2], s[len - 1]) {
        3
    } else {
        0
    }
}

/// Cut white space off the front.
pub fn trim_start(s: &[u8]) -> (r: &[u8])
    ensures
        r@ == trim_front(s@),
{
    let mut from: usize = 0;
    let len: usize = s.len();
    assert(s@.skip(0) =~= s@);
    let mut k: usize = front_blank(s);
    while k > 0
        invariant
            from <= len == s@.len(),
            k == blank_front(s@.skip(from as int)),
            trim_front(s@.skip(from as int)) == trim_front(s@),
        decreases len - from,
    {
        assert(s@.skip(from as int).skip(k as int) =~= s@.skip(from + k));
        from = from + k;
        let rest: &[u8] = slice_subrange(s, from, len);
        assert(rest@ =~= s@.skip(from as int));
        k = front_blank(rest);
    }
    let r: &[u8] = slice_subrange(s, from, len);
    assert(r@ =~= s@.skip(from as int));
    r
}

/// Cut white space off both ends.
pub fn trim(s: &[u8]) -> (r: &[u8])
    ensures
        r@ == trimmed(s@),
{
    let front: &[u8] = trim_start(s);
    let mut to: usize = front.len();
    assert(front@.take(front@.len() as int) =~= front@);
    let mut k: usize = back_blank(front);
    while k > 0
        invariant
            to <= front@.len(),
            k == blank_back(front@.take(to as int)),
            trim_back(front@.take(to as int)) == trim_back(front@),
        decreases to,
    {
        assert(front@.take(to as int).take(to - k) =~= front@.take(to - k));
        to = to - k;
        let rest: &[u8] = slice_subrange(front, 0, to);
        assert(rest@ =~= front@.take(to as int));
        k = back_blank(rest);
    }
    let r: &[u8] = slice_subrange(front, 0, to);
    assert(r@ =~= front@.take(to as int));
    r
}

/// The position of the first `b` in `s`, or the length of `s`.
pub open spec fn find(s: Seq<u8>, b: u8) -> nat
    decreases s.len(),
{
    if s.len() == 0 || s[0] == b {
        0
    } else {
        find(s.skip(1), b) + 1
    }
}

pub proof fn lemma_find(s: Seq<u8>, b: u8)
    ensures
        find(s, b) <= s.len(),
        find(s, b) < s.len() ==> s[find(s, b) as int] == b,
        forall|i: int| 0 <= i < find(s, b) ==> s[i] != b,
    decreases s.len(),
{
    if s.len() > 0 && s[0] != b {
        lemma_find(s.skip(1), b);
        assert forall|i: int| 0 <= i < find(s, b) implies s[i] != b by {
            if i > 0 {
                assert(s[i] == s.skip(1)[i - 1]);
            }
        }
    }
}

/// Where `b` is first found is determined by what stands before it.
pub proof fn lemma_find_unique(s: Seq<u8>, b: u8, n: nat)
    requires
        n <= s.len(),
        n < s.len() ==> s[n as int] == b,
        forall|i: int| 0 <= i < n ==> s[i] != b,
    ensures
        find(s, b) == n,
{
    lemma_find(s, b);
    if find(s, b) < n {
        assert(s[find(s, b) as int] != b);
    }
}

/// The position of the first `b`, or the length.
pub fn position(s: &[u8], b: u8) -> (n: usize)
    ensures
        n == find(s@, b),
        n <= s@.len(),
{
    let mut n: usize = 0;
    while n < s.len() && s[n] != b
        invariant
            n <= s@.len(),
            forall|i: int| 0 <= i < n ==> s@[i] != b,
        decreases s@.len() - n,
    {
        n = n + 1;
    }
    proof {
        lemma_find_unique(s@, b, n as nat);
    }
    n
}

/// A line without the carriage return before its end.
pub open spec fn chomped(line: Seq<u8>) -> Seq<u8> {
    if line.len() > 0 && line.last() == 13 {
        line.drop_last()
    } else {
        line
    }
}

/// The first line of `s`: its end is a line feed, or a carriage return and a
/// line feed.
pub open spec fn first_line(s: Seq<u8>) -> Seq<u8> {
    let n = find(s, 10);
    if n < s.len() {
        chomped(s.take(n as int))
    } else {
        s
    }
}

/// What follows the first line of `s`.
pub open spec fn after_line(s: Seq<u8>) -> Seq<u8> {
    let n = find(s, 10);
    if n < s.len() {
        s.skip((n + 1) as int)
    } else {
        Seq::empty()
    }
}

/// The lines of `s`.
pub open spec fn lines(s: Seq<u8>) -> Seq<Seq<u8>>
    decreases s.len(),
    via lines_decreases
{
    if s.len() == 0 {
        Seq::empty()
    } else {
        seq![first_line(s)] + lines(after_line(s))
    }
}

#[via_fn]
proof fn lines_decreases(s: Seq<u8>) {
    lemma_find(s, 10);
}

/// The first line, and what follows it.
pub fn split_line(s: &[u8]) -> (r: (&[u8], &[u8]))
    ensures
        r.0@ == first_line(s@),
        r.1@ == after_line(s@),
        s@.len() > 0 ==> r.1@.len() < s@.len(),
{
    let n: usize = position(s, 10);
    let len: usize = s.len();
    if n < len {
        let rest: &[u8] = slice_subrange(s, n + 1, len);
        assert(rest@ =~= s@.skip(n + 1));
        if n > 0 && s[n - 1] == 13 {
            let line: &[u8] = slice_subrange(s, 0, n - 1);
            assert(line@ =~= s@.take(n as int).drop_last());
            (line, rest)
        } else {
            let line: &[u8] = slice_subrange(s, 0, n);
            assert(line@ =~= s@.take(n as int));
            (line, rest)
        }
    } else {
        let rest: &[u8] = slice_subrange(s, len, len);
        assert(rest@ =~= Seq::<u8>::empty());
        (s, rest)
    }
}

/// `prefix` stands at the front of `s`.
pub open spec fn begins_with(s: Seq<u8>, prefix: Seq<u8>) -> bool {
    s.len() >= prefix.len() && s.take(prefix.len() as int) == prefix
}

/// Whether `prefix` stands at the front of `s`.
pub fn has_prefix(s: &[u8], prefix: &[u8]) -> (r: bool)
    ensures
        r == begins_with(s@, prefix@),
{
    if s.len() < prefix.len() {
        return false;
    }
    let mut i: usize = 0;
    while i < prefix.len() && s[i] == prefix[i]
        invariant
            i <= prefix@.len() <= s@.len(),
            forall|j: int| 0 <= j < i ==> s@[j] == prefix@[j],
        decreases prefix@.len() - i,
    {
        i = i + 1;
    }
    proof {
        if i == prefix.len() {
            assert(s@.take(prefix@.len() as int) =~= prefix@);
        } else {
            assert(s@.take(prefix@.len() as int)[i as int] != prefix@[i as int]);
        }
    }
    i == prefix.len()
}

/// Where the first white space of `s` stands, or its length.
pub open spec fn token_len(s: Seq<u8>) -> nat
    decreases s.len(),
{
    if s.len() == 0 || blank_front(s) > 0 {
        0
    } else {
        token_len(s.skip(1)) + 1
    }
}

/// The first word of `s`, or nothing where it has none.
pub open spec fn first_word(s: Seq<u8>) -> Seq<u8> {
    let t = trim_front(s);
    t.take(token_len(t) as int)
}

proof fn lemma_token_len(s: Seq<u8>)
    ensures
        token_len(s) <= s.len(),
    decreases s.len(),
{
    if s.len() > 0 && blank_front(s) == 0 {
        lemma_token_len(s.skip(1));
    }
}

/// The first word.
pub fn word(s: &[u8]) -> (r: &[u8])
    ensures
        r@ == first_word(s@),
{
    let t: &[u8] = trim_start(s);
    let len: usize = t.len();
    let mut n: usize = 0;
    assert(t@.skip(0) =~= t@);
    let mut blank: usize = front_blank(t);
    while n < len && blank == 0
        invariant
            n <= len == t@.len(),
            blank == blank_front(t@.skip(n as int)),
            token_len(t@) == n + token_len(t@.skip(n as int)),
        decreases len - n,
    {
        assert(t@.skip(n as int).skip(1) =~= t@.skip(n + 1));
        n = n + 1;
        let rest: &[u8] = slice_subrange(t, n, len);
        assert(rest@ =~= t@.skip(n as int));
        blank = front_blank(rest);
    }
    assert(token_len(t@.skip(n as int)) == 0);
    let r: &[u8] = slice_subrange(t, 0, n);
    assert(r@ =~= t@.take(n as int));
    r
}

/// The digits of a decimal number: what follows an optional plus sign.
pub open spec fn unsigned_digits(s: Seq<u8>) -> Seq<u8> {
    if s.len() > 0 && s[0] == 43 {
        s.skip(1)
    } else {
        s
    }
}

/// The number that `s` spells, if it is one below `2^64`.
pub open spec fn parsed(s: Seq<u8>) -> Option<u64> {
    let d = unsigned_digits(s);
    if d.len() > 0 && text::all_digits(d, 10) && text::numeral_value(d, 10) <= u64::MAX {
        Some(text::numeral_value(d, 10) as u64)
    } else {
        None
    }
}

/// The value of digits that begin with others is at least that of the others.
proof fn lemma_value_grows(s: Seq<u8>, k: int)
    requires
        text::all_digits(s, 10),
        0 <= k <= s.len(),
    ensures
        text::numeral_value(s.take(k), 10) <= text::numeral_value(s, 10),
        0 <= text::numeral_value(s.take(k), 10),
    decreases s.len() - k,
{
    if k == s.len() {
        assert(s.take(k) =~= s);
        lemma_value_positive(s);
    } else {
        lemma_value_grows(s, k + 1);
        assert(s.take(k + 1).drop_last() =~= s.take(k));
        assert(s.take(k + 1).last() == s[k]);
        assert(text::digit_value(s[k], 10) >= 0);
        assert forall|i: int| 0 <= i < k implies text::digit_value(#[trigger] s.take(k)[i], 10)
            >= 0 by {
            assert(s.take(k)[i] == s[i]);
        }
        lemma_value_positive(s.take(k));
    }
}

proof fn lemma_value_positive(s: Seq<u8>)
    requires
        text::all_digits(s, 10),
    ensures
        text::numeral_value(s, 10) >= 0,
    decreases s.len(),
{
    if s.len() > 0 {
        assert forall|i: int| 0 <= i < s.len() - 1 implies text::digit_value(
            #[trigger] s.drop_last()[i],
            10,
        ) >= 0 by {
            assert(s.drop_last()[i] == s[i]);
        }
        lemma_value_positive(s.drop_last());
        assert(text::digit_value(s[s.len() - 1], 10) >= 0);
    }
}

/// Parse a decimal number.
pub fn parse_number(s: &[u8]) -> (r: Option<u64>)
    ensures
        r == parsed(s@),
{
    let len: usize = s.len();
    let start: usize = if len > 0 && s[0] == 43 { 1 } else { 0 };
    let d: &[u8] = slice_subrange(s, start, len);
    assert(d@ =~= unsigned_digits(s@));
    if d.len() == 0 {
        return None;
    }
    let mut value: u64 = 0;
    let mut i: usize = 0;
    assert(d@.take(0).len() == 0);
    while i < d.len()
        invariant
            i <= d@.len(),
            d@ == unsigned_digits(s@),
            d@.len() > 0,
            value == text::numeral_value(d@.take(i as int), 10),
            forall|j: int| 0 <= j < i ==> text::digit_value(#[trigger] d@[j], 10) >= 0,
        decreases d@.len() - i,
    {
        let c: u8 = d[i];
        if c < 48 || c > 57 {
            proof {
                assert(text::digit_value(d@[i as int], 10) < 0);
            }
            return None;
        }
        let digit: u64 = (c - 48) as u64;
        proof {
            assert(d@.take(i + 1).drop_last() =~= d@.take(i as int));
            assert(d@.take(i + 1).last() == c);
            assert(text::digit_value(c, 10) == digit);
            assert(text::numeral_value(d@.take(i + 1), 10) == value * 10 + digit);
        }
        if value > (0xffff_ffff_ffff_ffff - digit) / 10 {
            proof {
                if text::all_digits(d@, 10) {
                    lemma_value_grows(d@, i + 1);
                }
            }
            return None;
        }
        value = value * 10 + digit;
        i = i + 1;
    }
    proof {
        assert(d@.take(d@.len() as int) =~= d@);
    }
    Some(value)
}

/// A white-space character of one byte is a tab, line feed, vertical tab, form
/// feed, carriage return or space; one of two or three bytes encodes one of the
/// code points U+0085 and U+00A0, or U+1680, U+2000 to U+200A, U+2028, U+2029,
/// U+202F, U+205F and U+3000.
pub proof fn law_blank_front(s: Seq<u8>)
    ensures
        blank_front(s) == 1 <==> s.len() >= 1 && (9 <= s[0] <= 13 || s[0] == 32),
        blank_front(s) == 2 <==> s.len() >= 2 && 0xc0 <= s[0] <= 0xdf && 0x80 <= s[1] <= 0xbf && {
            let code = (s[0] - 0xc0) * 64 + (s[1] - 0x80);
            code == 0x85 || code == 0xa0
        },
        blank_front(s) == 3 <==> s.len() >= 3 && 0xe0 <= s[0] <= 0xef && 0x80 <= s[1] <= 0xbf
            && 0x80 <= s[2] <= 0xbf && {
            let code = (s[0] - 0xe0) * 4096 + (s[1] - 0x80) * 64 + (s[2] - 0x80);
            code == 0x1680 || 0x2000 <= code <= 0x200a || code == 0x2028 || code == 0x2029 || code
                == 0x202f || code == 0x205f || code == 0x3000
        },
        blank_front(s) <= 3,
{
}

/// A text ends with a white-space character just where its last bytes are one.
pub proof fn law_blank_back(s: Seq<u8>, k: nat)
    requires
        1 <= k <= 3,
    ensures
        blank_back(s) == k <==> s.len() >= k && blank_front(s.skip(s.len() - k)) == k,
        blank_back(s) <= 3,
{
    if s.len() >= k {
        let t = s.skip(s.len() - k);
        assert(t[0] == s[s.len() - k]);
        if k >= 2 {
            assert(t[1] == s[s.len() - k + 1]);
        }
        if k >= 3 {
            assert(t[2] == s[s.len() - k + 2]);
        }
    }
}

proof fn lemma_trim_front_blanks(s: Seq<u8>, k: int)
    requires
        0 <= k <= s.len(),
        forall|i: int| 0 <= i < k ==> 9 <= #[trigger] s[i] <= 13 || s[i] == 32,
    ensures
        trim_front(s) == trim_front(s.skip(k)),
    decreases k,
{
    if k == 0 {
        assert(s.skip(0) =~= s);
    } else {
        assert(9 <= s[0] <= 13 || s[0] == 32);
        let t = s.skip(1);
        assert forall|i: int| 0 <= i < k - 1 implies 9 <= #[trigger] t[i] <= 13 || t[i] == 32 by {
            assert(t[i] == s[i + 1]);
        }
        lemma_trim_front_blanks(t, k - 1);
        assert(t.skip(k - 1) =~= s.skip(k));
    }
}

proof fn lemma_trim_back_blanks(s: Seq<u8>, k: int)
    requires
        0 <= k <= s.len(),
        forall|i: int| k <= i < s.len() ==> 9 <= #[trigger] s[i] <= 13 || s[i] == 32,
    ensures
        trim_back(s) == trim_back(s.take(k)),
    decreases s.len() - k,
{
    if k == s.len() {
        assert(s.take(k) =~= s);
    } else {
        let n = s.len() as int;
        assert(9 <= s[n - 1] <= 13 || s[n - 1] == 32);
        let t = s.take(n - 1);
        assert forall|i: int| k <= i < t.len() implies 9 <= #[trigger] t[i] <= 13 || t[i] == 32 by {
            assert(t[i] == s[i]);
        }
        lemma_trim_back_blanks(t, k);
        assert(t.take(k) =~= s.take(k));
    }
}

/// Trimming cuts off the white space at both ends and nothing else: where all bytes
/// before `a` and from `b` on are white space, and those at `a` and before `b` are
/// ASCII characters that are not, what is between them is left.
pub proof fn law_trimmed(s: Seq<u8>, a: int, b: int)
    requires
        0 <= a <= b <= s.len(),
        forall|i: int| 0 <= i < a ==> 9 <= #[trigger] s[i] <= 13 || s[i] == 32,
        forall|i: int| b <= i < s.len() ==> 9 <= #[trigger] s[i] <= 13 || s[i] == 32,
        a < b ==> s[a] < 128 && !(9 <= s[a] <= 13 || s[a] == 32),
        a < b ==> s[b - 1] < 128 && !(9 <= s[b - 1] <= 13 || s[b - 1] == 32),
    ensures
        trimmed(s) == s.subrange(a, b),
{
    if a == b {
        lemma_trim_front_blanks(s, s.len() as int);
        assert(s.skip(s.len() as int) =~= Seq::<u8>::empty());
        assert(trim_front(Seq::<u8>::empty()) =~= Seq::<u8>::empty());
        assert(trim_back(Seq::<u8>::empty()) =~= Seq::<u8>::empty());
        assert(s.subrange(a, b) =~= Seq::<u8>::empty());
    } else {
        lemma_trim_front_blanks(s, a);
        let t = s.skip(a);
        assert(t[0] == s[a]);
        assert(trim_front(t) == t);
        assert forall|i: int| b - a <= i < t.len() implies 9 <= #[trigger] t[i] <= 13 || t[i]
            == 32 by {
            assert(t[i] == s[a + i]);
        }
        lemma_trim_back_blanks(t, b - a);
        let u = t.take(b - a);
        assert(u[u.len() - 1] == s[b - 1]);
        assert(trim_back(u) == u);
        assert(u =~= s.subrange(a, b));
    }
}

/// A prefix is the same bytes, from the first on.
pub proof fn law_begins_with(s: Seq<u8>, prefix: Seq<u8>)
    ensures
        begins_with(s, prefix) <==> s.len() >= prefix.len() && forall|i: int|
            0 <= i < prefix.len() ==> s[i] == #[trigger] prefix[i],
{
    if begins_with(s, prefix) {
        assert forall|i: int| 0 <= i < prefix.len() implies s[i] == #[trigger] prefix[i] by {
            assert(s.take(prefix.len() as int)[i] == prefix[i]);
        }
    }
    if s.len() >= prefix.len() && forall|i: int|
        0 <= i < prefix.len() ==> s[i] == #[trigger] prefix[i] {
        assert(s.take(prefix.len() as int) =~= prefix);
    }
}

/// A line feed, or a carriage return and a line feed, ends a line; the last line
/// needs no end.
pub proof fn law_lines(line: Seq<u8>, rest: Seq<u8>)
    requires
        forall|i: int| 0 <= i < line.len() ==> #[trigger] line[i] != 10,
    ensures
        lines(Seq::<u8>::empty()).len() == 0,
        line.len() > 0 ==> lines(line) == seq![line],
        line.len() == 0 || line[line.len() - 1] != 13 ==> lines(line + seq![10u8] + rest)
            == seq![line] + lines(rest),
        lines(line + seq![13u8, 10u8] + rest) == seq![line] + lines(rest),
{
    lemma_find_unique(line, 10, line.len());
    assert(lines(Seq::<u8>::empty()) =~= Seq::<Seq<u8>>::empty());
    if line.len() > 0 {
        assert(after_line(line) =~= Seq::<u8>::empty());
        assert(lines(line) =~= seq![line]);
    }
    let a = line + seq![10u8] + rest;
    lemma_find_unique(a, 10, line.len());
    assert(a.take(line.len() as int) =~= line);
    assert(a.skip(line.len() as int + 1) =~= rest);
    let b = line + seq![13u8, 10u8] + rest;
    assert forall|i: int| 0 <= i < line.len() + 1 implies b[i] != 10 by {
        if i < line.len() {
            assert(b[i] == line[i]);
        }
    }
    lemma_find_unique(b, 10, line.len() + 1);
    let l = b.take(line.len() as int + 1);
    assert(l.last() == 13);
    assert(l.drop_last() =~= line);
    assert(b.skip(line.len() as int + 2) =~= rest);
}

proof fn lemma_token_end(t: Seq<u8>, k: int)
    requires
        0 <= k <= t.len(),
        forall|i: int|
            0 <= i < k ==> #[trigger] t[i] < 128 && !(9 <= t[i] <= 13 || t[i] == 32),
        k < t.len() ==> 9 <= t[k] <= 13 || t[k] == 32,
    ensures
        token_len(t) == k,
    decreases k,
{
    if k > 0 {
        assert(t[0] < 128 && !(9 <= t[0] <= 13 || t[0] == 32));
        let u = t.skip(1);
        assert forall|i: int| 0 <= i < k - 1 implies #[trigger] u[i] < 128 && !(9 <= u[i] <= 13
            || u[i] == 32) by {
            assert(u[i] == t[i + 1]);
        }
        lemma_token_end(u, k - 1);
    }
}

/// The first word of a text: white space before it is passed over, and it ends
/// with the text or with the next white space.
pub proof fn law_first_word(front: Seq<u8>, w: Seq<u8>, sep: u8, rest: Seq<u8>)
    requires
        forall|i: int| 0 <= i < front.len() ==> 9 <= #[trigger] front[i] <= 13 || front[i] == 32,
        w.len() > 0,
        forall|i: int|
            0 <= i < w.len() ==> #[trigger] w[i] < 128 && !(9 <= w[i] <= 13 || w[i] == 32),
        9 <= sep <= 13 || sep == 32,
    ensures
        first_word(front + w) == w,
        first_word(front + w + seq![sep] + rest) == w,
{
    let k = front.len() as int;
    let s = front + w;
    assert forall|i: int| 0 <= i < k implies 9 <= #[trigger] s[i] <= 13 || s[i] == 32 by {
        assert(s[i] == front[i]);
    }
    lemma_trim_front_blanks(s, k);
    assert(s.skip(k) =~= w);
    assert(w[0] < 128);
    assert(trim_front(w) == w);
    lemma_token_end(w, w.len() as int);
    assert(w.take(w.len() as int) =~= w);
    let t = front + w + seq![sep] + rest;
    assert forall|i: int| 0 <= i < k implies 9 <= #[trigger] t[i] <= 13 || t[i] == 32 by {
        assert(t[i] == front[i]);
    }
    lemma_trim_front_blanks(t, k);
    let u = t.skip(k);
    assert(u =~= w + seq![sep] + rest);
    assert(u[0] == w[0]);
    assert(trim_front(u) == u);
    assert forall|i: int| 0 <= i < w.len() implies #[trigger] u[i] < 128 && !(9 <= u[i] <= 13 || u[i]
        == 32) by {
        assert(u[i] == w[i]);
    }
    lemma_token_end(u, w.len() as int);
    assert(u.take(w.len() as int) =~= w);
}

/// A text spells the number `v` where it is decimal digits, with a plus sign before
/// them or not, and their value is `v`.
pub proof fn law_parsed(s: Seq<u8>, d: Seq<u8>, v: u64)
    requires
        s == seq![43u8] + d || (s == d && (d.len() == 0 || d[0] != 43)),
    ensures
        parsed(s) == Some(v) <==> {
            &&& d.len() > 0
            &&& forall|i: int| 0 <= i < d.len() ==> 48 <= #[trigger] d[i] <= 57
            &&& text::numeral_value(d, 10) == v
        },
{
    assert(unsigned_digits(s) =~= d);
    if text::all_digits(d, 10) {
        text::law_numeral_value(d, 10);
        assert forall|i: int| 0 <= i < d.len() implies 48 <= #[trigger] d[i] <= 57 by {
            assert(text::digit_value(d[i], 10) >= 0);
        }
    }
    if forall|i: int| 0 <= i < d.len() ==> 48 <= #[trigger] d[i] <= 57 {
        assert forall|i: int| 0 <= i < d.len() implies text::digit_value(#[trigger] d[i], 10)
            >= 0 by {
            assert(48 <= d[i] <= 57);
        }
    }
}

} // verus!
