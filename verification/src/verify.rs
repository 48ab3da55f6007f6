//! Comparing two digit files: trailing white space is ignored, and the shorter
//! content has to be a prefix of the longer.
//!
//! The files are read in pieces by the caller; the types here say which piece
//! comes next and what follows from it.
use crate::display;
use crate::display::{describe_byte, push_hex, push_thousands};
use vstd::prelude::*;
use vstd::string::*;

verus! {

/// Bytes that are read at a time from the end of a file.
pub const TAIL_CHUNK: u64 = 4096;

/// Bytes that are compared at a time.
pub const COMPARE_CHUNK: u64 = 65536;

/// Space, tab, line feed and carriage return.
pub open spec fn is_blank(b: u8) -> bool {
    b == 32 || b == 9 || b == 10 || b == 13
}

/// Whether a byte is white space.
pub fn blank(b: u8) -> (r: bool)
    ensures
        r == is_blank(b),
{
    b == 32 || b == 9 || b == 10 || b == 13
}

/// The length of `s` without the white space at its end.
pub open spec fn content_len(s: Seq<u8>) -> nat
    decreases s.len(),
{
    if s.len() == 0 {
        0
    } else if is_blank(s.last()) {
        content_len(s.drop_last())
    } else {
        s.len()
    }
}

proof fn lemma_content_len(s: Seq<u8>)
    ensures
        content_len(s) <= s.len(),
        content_len(s) > 0 ==> !is_blank(s[content_len(s) - 1]),
        forall|i: int| content_len(s) <= i < s.len() ==> is_blank(#[trigger] s[i]),
    decreases s.len(),
{
    if s.len() > 0 && is_blank(s.last()) {
        lemma_content_len(s.drop_last());
        assert forall|i: int| content_len(s) <= i < s.len() implies is_blank(#[trigger] s[i]) by {
            if i < s.len() - 1 {
                assert(s[i] == s.drop_last()[i]);
            }
        }
    }
}

proof fn lemma_content_len_unique(s: Seq<u8>, n: nat)
    requires
        n <= s.len(),
        n > 0 ==> !is_blank(s[n - 1]),
        forall|i: int| n <= i < s.len() ==> is_blank(#[trigger] s[i]),
    ensures
        content_len(s) == n,
{
    lemma_content_len(s);
    if content_len(s) < n {
        assert(is_blank(s[n - 1]));
    }
    if content_len(s) > n {
        assert(is_blank(s[content_len(s) - 1]));
    }
}

/// The length of a piece without the white space at its end.
pub fn content_length(s: &[u8]) -> (n: usize)
    ensures
        n == content_len(s@),
        n <= s@.len(),
{
    let mut n: usize = s.len();
    while n > 0 && blank(s[n - 1])
        invariant
            n <= s@.len(),
            forall|i: int| n <= i < s@.len() ==> is_blank(#[trigger] s@[i]),
        decreases n,
    {
        n = n - 1;
    }
    proof {
        lemma_content_len_unique(s@, n as nat);
    }
    n
}

/// A search, from the end of a file, for the end of its content.
#[derive(Debug, Clone, Copy)]
pub struct ContentScan {
    /// Everything from here on is white space.
    pub end: u64,
}

impl ContentScan {
    /// Whether everything that has been read of `file` is white space.
    pub open spec fn scans(self, file: Seq<u8>) -> bool {
        self.end <= file.len() && forall|i: int|
            self.end <= i < file.len() ==> is_blank(#[trigger] file[i])
    }

    /// Where the next piece starts.
    pub open spec fn start(self) -> int {
        if self.end <= TAIL_CHUNK {
            0
        } else {
            self.end - TAIL_CHUNK
        }
    }

    /// Start at the end of a file.
    pub fn new(total_len: u64) -> (s: ContentScan)
        ensures
            s.end == total_len,
            forall|file: Seq<u8>| file.len() == total_len ==> #[trigger] s.scans(file),
    {
        ContentScan { end: total_len }
    }

    /// The next piece to read, by its start and its length, or nothing where the
    /// whole file has been read.
    pub fn next_piece(&self) -> (r: Option<(u64, u64)>)
        ensures
            self.end == 0 ==> r is None,
            self.end > 0 ==> r == Some((self.start() as u64, (self.end - self.start()) as u64)),
            self.end > 0 ==> 1 <= self.end - self.start() <= TAIL_CHUNK,
    {
        if self.end == 0 {
            None
        } else if self.end <= TAIL_CHUNK {
            Some((0, self.end))
        } else {
            Some((self.end - TAIL_CHUNK, TAIL_CHUNK))
        }
    }

    /// Take in the piece.  The result is the length of the content, where the
    /// piece holds its end.
    pub fn feed(&mut self, piece: &[u8]) -> (r: Option<u64>)
        requires
            piece@.len() == old(self).end - old(self).start(),
        ensures
            r is Some <==> content_len(piece@) > 0,
            r matches Some(n) ==> n == old(self).start() + content_len(piece@) && *final(self) == *old(
                self,
            ),
            r is None ==> final(self).end == old(self).start(),
            forall|file: Seq<u8>| #[trigger]
                old(self).scans(file) && piece@ == file.subrange(
                    old(self).start(),
                    old(self).end as int,
                ) ==> match r {
                    Some(n) => n == content_len(file),
                    None => final(self).scans(file),
                },
    {
        let n: usize = content_length(piece);
        let start: u64 = if self.end <= TAIL_CHUNK {
            0
        } else {
            self.end - TAIL_CHUNK
        };
        proof {
            let before = *self;
            lemma_content_len(piece@);
            assert forall|file: Seq<u8>| #[trigger]
                before.scans(file) && piece@ == file.subrange(
                    before.start(),
                    before.end as int,
                ) implies if n > 0 {
                start + n == content_len(file)
            } else {
                (ContentScan { end: start }).scans(file)
            } by {
                assert forall|i: int| start + n <= i < file.len() implies is_blank(
                    #[trigger] file[i],
                ) by {
                    if i < before.end {
                        assert(file[i] == piece@[i - start]);
                    }
                }
                if n > 0 {
                    assert(file[start + n - 1] == piece@[n - 1]);
                    lemma_content_len_unique(file, (start + n) as nat);
                }
            }
        }
        if n > 0 {
            Some(start + n as u64)
        } else {
            self.end = start;
            None
        }
    }
}

/// A search that has read the whole file found no content.
pub proof fn law_scan_exhausted(s: ContentScan, file: Seq<u8>)
    requires
        s.scans(file),
        s.end == 0,
    ensures
        content_len(file) == 0,
{
    lemma_content_len_unique(file, 0);
}

/// Where two files differ first, and how.
#[derive(Debug, Clone, Copy)]
pub struct Difference {
    pub offset: u64,
    pub left: u8,
    pub right: u8,
}

impl Difference {
    /// This is the first difference of two files.
    pub open spec fn is_first(self, a: Seq<u8>, b: Seq<u8>) -> bool {
        let k = self.offset as int;
        &&& k < a.len()
        &&& k < b.len()
        &&& a.take(k) == b.take(k)
        &&& a[k] == self.left
        &&& b[k] == self.right
        &&& self.left != self.right
    }

    /// The difference in words, by the names of the files.
    pub open spec fn words(self, a: Seq<char>, b: Seq<char>) -> Seq<char> {
        "verify: differ at byte offset "@ + display::thousands(self.offset as nat) + "\n  "@ + a
            + ": "@ + display::hex_words(self.left as int, 2) + " "@ + display::byte_words(self.left)
            + "\n  "@ + b + ": "@ + display::hex_words(self.right as int, 2) + " "@
            + display::byte_words(self.right)
    }

    /// The difference in words.
    pub fn report(&self, a: &str, b: &str) -> (s: String)
        ensures
            s@ == self.words(a@, b@),
    {
        let mut s: String = "verify: differ at byte offset ".to_owned();
        push_thousands(&mut s, self.offset);
        s.append("\n  ");
        s.append(a);
        s.append(": ");
        push_hex(&mut s, self.left as u64, 2);
        s.append(" ");
        s.append(describe_byte(self.left).as_str());
        s.append("\n  ");
        s.append(b);
        s.append(": ");
        push_hex(&mut s, self.right as u64, 2);
        s.append(" ");
        s.append(describe_byte(self.right).as_str());
        s
    }

    /// The failure in words.
    pub fn failure(&self) -> (s: String)
        ensures
            s@ == "verify failed at offset "@ + display::thousands(self.offset as nat),
    {
        let mut s: String = "verify failed at offset ".to_owned();
        push_thousands(&mut s, self.offset);
        s
    }
}

/// The outcome of a comparison without differences.
#[derive(Debug, Clone, Copy, PartialEq, Eq, Structural)]
pub enum Verdict {
    /// The contents are the same.
    Identical { len: u64 },
    /// The first content is a prefix of the second.
    FirstIsPrefix { short: u64, long: u64 },
    /// The second content is a prefix of the first.
    SecondIsPrefix { short: u64, long: u64 },
}

/// A prefix in words.
pub open spec fn prefix_words(short: Seq<char>, n: u64, long: Seq<char>, m: u64) -> Seq<char> {
    "verify: all "@ + display::thousands(n as nat) + " content bytes of "@ + short
        + " match the prefix of "@ + long + " ("@ + display::thousands(m as nat)
        + " content bytes total)"@
}

fn prefix_report(short: &str, n: u64, long: &str, m: u64) -> (s: String)
    ensures
        s@ == prefix_words(short@, n, long@, m),
{
    let mut s: String = "verify: all ".to_owned();
    push_thousands(&mut s, n);
    s.append(" content bytes of ");
    s.append(short);
    s.append(" match the prefix of ");
    s.append(long);
    s.append(" (");
    push_thousands(&mut s, m);
    s.append(" content bytes total)");
    s
}

impl Verdict {
    /// The outcome in words, by the names of the files.
    pub open spec fn words(self, a: Seq<char>, b: Seq<char>) -> Seq<char> {
        match self {
            Verdict::Identical { len } => "verify: "@ + a + " and "@ + b + " are identical ("@
                + display::thousands(len as nat) + " content bytes)"@,
            Verdict::FirstIsPrefix { short, long } => prefix_words(a, short, b, long),
            Verdict::SecondIsPrefix { short, long } => prefix_words(b, short, a, long),
        }
    }

    /// The outcome in words.
    pub fn report(&self, a: &str, b: &str) -> (s: String)
        ensures
            s@ == self.words(a@, b@),
    {
        match self {
            Verdict::Identical { len } => {
                let mut s: String = "verify: ".to_owned();
                s.append(a);
                s.append(" and ");
                s.append(b);
                s.append(" are identical (");
                push_thousands(&mut s, *len);
                s.append(" content bytes)");
                s
            },
            Verdict::FirstIsPrefix { short, long } => prefix_report(a, *short, b, *long),
            Verdict::SecondIsPrefix { short, long } => prefix_report(b, *short, a, *long),
        }
    }
}

/// A comparison of two contents, piece by piece.
#[derive(Debug, Clone, Copy)]
pub struct Comparison {
    /// Length of the first content.
    pub a_len: u64,
    /// Length of the second content.
    pub b_len: u64,
    /// The contents agree up to here.
    pub pos: u64,
}

impl Comparison {
    /// The length that is compared: that of the shorter content.
    pub open spec fn common(self) -> u64 {
        if self.a_len <= self.b_len {
            self.a_len
        } else {
            self.b_len
        }
    }

    /// The position is within the shorter content.
    pub open spec fn wf(self) -> bool {
        self.pos <= self.common()
    }

    /// Everything that has been read of two contents agrees.
    pub open spec fn agrees(self, a: Seq<u8>, b: Seq<u8>) -> bool {
        &&& a.len() == self.a_len
        &&& b.len() == self.b_len
        &&& a.take(self.pos as int) == b.take(self.pos as int)
    }

    /// Length of the next pieces; zero at the end.
    pub open spec fn step(self) -> int {
        if self.common() - self.pos <= COMPARE_CHUNK {
            self.common() - self.pos
        } else {
            COMPARE_CHUNK as int
        }
    }

    /// Compare contents of the given lengths from their start.
    pub fn new(a_len: u64, b_len: u64) -> (c: Comparison)
        ensures
            c.wf(),
            c.pos == 0,
            c.a_len == a_len,
            c.b_len == b_len,
            forall|a: Seq<u8>, b: Seq<u8>|
                a.len() == a_len && b.len() == b_len ==> #[trigger] c.agrees(a, b),
    {
        let c: Comparison = Comparison { a_len, b_len, pos: 0 };
        proof {
            assert forall|a: Seq<u8>, b: Seq<u8>| a.len() == a_len && b.len()
                == b_len implies #[trigger] c.agrees(a, b) by {
                assert(a.take(0) =~= b.take(0));
            }
        }
        c
    }

    /// How many bytes to read next from each content; none at the end.
    pub fn next_len(&self) -> (n: usize)
        requires
            self.wf(),
        ensures
            n == self.step(),
            n == 0 <==> self.pos == self.common(),
    {
        let common: u64 = if self.a_len <= self.b_len {
            self.a_len
        } else {
            self.b_len
        };
        if common - self.pos <= COMPARE_CHUNK {
            (common - self.pos) as usize
        } else {
            COMPARE_CHUNK as usize
        }
    }

    /// Take in the next pieces.  The result is the first difference between them.
    pub fn feed(&mut self, a: &[u8], b: &[u8]) -> (r: Option<Difference>)
        requires
            old(self).wf(),
            a@.len() == old(self).step(),
            b@.len() == old(self).step(),
        ensures
            r is None <==> a@ == b@,
            r is None ==> *final(self) == (Comparison {
                pos: (old(self).pos + old(self).step()) as u64,
                ..*old(self)
            }) && final(self).wf(),
            r matches Some(d) ==> *final(self) == *old(self) && old(self).pos <= d.offset && (
            Difference { offset: (d.offset - old(self).pos) as u64, ..d }).is_first(a@, b@),
            forall|x: Seq<u8>, y: Seq<u8>| #[trigger]
                old(self).agrees(x, y) && a@ == x.subrange(
                    old(self).pos as int,
                    old(self).pos + old(self).step(),
                ) && b@ == y.subrange(old(self).pos as int, old(self).pos + old(self).step())
                    ==> match r {
                    Some(d) => d.is_first(x, y),
                    None => final(self).agrees(x, y),
                },
    {
        let n: usize = a.len();
        let mut i: usize = 0;
        while i < n && a[i] == b[i]
            invariant
                i <= n == a@.len() == b@.len(),
                forall|j: int| 0 <= j < i ==> a@[j] == b@[j],
            decreases n - i,
        {
            i = i + 1;
        }
        proof {
            let before = *self;
            assert(a@.take(i as int) =~= b@.take(i as int));
            assert forall|x: Seq<u8>, y: Seq<u8>| #[trigger]
                before.agrees(x, y) && a@ == x.subrange(
                    before.pos as int,
                    before.pos + before.step(),
                ) && b@ == y.subrange(before.pos as int, before.pos + before.step()) implies x.take(
                before.pos + i,
            ) == y.take(before.pos + i) && (i < n ==> x[before.pos + i] == a@[i as int]
                && y[before.pos + i] == b@[i as int]) by {
                assert forall|j: int| 0 <= j < before.pos + i implies x[j] == y[j] by {
                    if j < before.pos {
                        assert(x.take(before.pos as int)[j] == x[j]);
                        assert(y.take(before.pos as int)[j] == y[j]);
                    } else {
                        assert(x[j] == a@[j - before.pos]);
                        assert(y[j] == b@[j - before.pos]);
                    }
                }
                assert(x.take(before.pos + i) =~= y.take(before.pos + i));
            }
        }
        if i < n {
            proof {
                assert(a@[i as int] != b@[i as int]);
            }
            Some(Difference { offset: self.pos + i as u64, left: a[i], right: b[i] })
        } else {
            proof {
                assert(a@ =~= b@);
            }
            self.pos = self.pos + n as u64;
            None
        }
    }

    /// The outcome, once the shorter content has been read.
    pub fn verdict(&self) -> (v: Verdict)
        requires
            self.pos == self.common(),
        ensures
            v == if self.a_len == self.b_len {
                Verdict::Identical { len: self.a_len }
            } else if self.a_len < self.b_len {
                Verdict::FirstIsPrefix { short: self.a_len, long: self.b_len }
            } else {
                Verdict::SecondIsPrefix { short: self.b_len, long: self.a_len }
            },
            forall|a: Seq<u8>, b: Seq<u8>| #[trigger]
                self.agrees(a, b) ==> match v {
                    Verdict::Identical { .. } => a == b,
                    Verdict::FirstIsPrefix { short, .. } => a == b.take(short as int),
                    Verdict::SecondIsPrefix { short, .. } => b == a.take(short as int),
                },
    {
        proof {
            assert forall|a: Seq<u8>, b: Seq<u8>| #[trigger] self.agrees(a, b) implies (self.a_len
                <= self.b_len ==> a == b.take(self.a_len as int)) && (self.b_len <= self.a_len ==> b
                == a.take(self.b_len as int)) by {
                assert(a.take(a.len() as int) =~= a);
                assert(b.take(b.len() as int) =~= b);
            }
            assert forall|a: Seq<u8>, b: Seq<u8>| #[trigger]
                self.agrees(a, b) && self.a_len == self.b_len implies a == b by {
                assert(b.take(b.len() as int) =~= b);
            }
        }
        if self.a_len == self.b_len {
            Verdict::Identical { len: self.a_len }
        } else if self.a_len < self.b_len {
            Verdict::FirstIsPrefix { short: self.a_len, long: self.b_len }
        } else {
            Verdict::SecondIsPrefix { short: self.b_len, long: self.a_len }
        }
    }
}

/// The content ends with the last byte that is none of space, tab, line feed and
/// carriage return: `n` is its length just where every byte from `n` on is one of
/// these, and the byte before them, if there is one, is not.
pub proof fn law_content_len(s: Seq<u8>, n: nat)
    ensures
        content_len(s) == n <==> {
            &&& n <= s.len()
            &&& n > 0 ==> s[n - 1] != 32 && s[n - 1] != 9 && s[n - 1] != 10 && s[n - 1] != 13
            &&& forall|i: int|
                n <= i < s.len() ==> #[trigger] s[i] == 32 || s[i] == 9 || s[i] == 10 || s[i] == 13
        },
{
    lemma_content_len(s);
    if {
        &&& n <= s.len()
        &&& n > 0 ==> s[n - 1] != 32 && s[n - 1] != 9 && s[n - 1] != 10 && s[n - 1] != 13
        &&& forall|i: int|
            n <= i < s.len() ==> #[trigger] s[i] == 32 || s[i] == 9 || s[i] == 10 || s[i] == 13
    } {
        lemma_content_len_unique(s, n);
    }
    if content_len(s) == n {
        assert forall|i: int| n <= i < s.len() implies #[trigger] s[i] == 32 || s[i] == 9 || s[i]
            == 10 || s[i] == 13 by {
            assert(is_blank(s[i]));
        }
    }
}

/// Nothing is cut off a file that ends with a printable character, such as a
/// digit, and line ends behind it change nothing.
pub proof fn law_content_of_digits(s: Seq<u8>, ends: Seq<u8>)
    requires
        s.len() > 0,
        33 <= s[s.len() - 1] <= 126,
        forall|i: int| 0 <= i < ends.len() ==> #[trigger] ends[i] == 10 || ends[i] == 13,
    ensures
        content_len(s) == s.len(),
        content_len(s + ends) == s.len(),
{
    law_content_len(s, s.len());
    law_content_len(s + ends, s.len());
}

/// What a search through a file has read is white space, and each piece that it
/// asks for ends where the last one began, with 4096 bytes, or fewer at the front.
pub proof fn law_scan(s: ContentScan, file: Seq<u8>)
    ensures
        s.scans(file) <==> s.end <= file.len() && forall|i: int|
            s.end <= i < file.len() ==> #[trigger] file[i] == 32 || file[i] == 9 || file[i] == 10
                || file[i] == 13,
        0 <= s.start() <= s.end,
        s.end > 4096 ==> s.end - s.start() == 4096,
        s.end <= 4096 ==> s.start() == 0,
{
    if s.scans(file) {
        assert forall|i: int| s.end <= i < file.len() implies #[trigger] file[i] == 32 || file[i]
            == 9 || file[i] == 10 || file[i] == 13 by {
            assert(is_blank(file[i]));
        }
    }
}

/// The first difference of two files: they agree on every byte before it and
/// hold the two given bytes, which are not the same, at it.
pub proof fn law_first_difference(d: Difference, a: Seq<u8>, b: Seq<u8>)
    ensures
        d.is_first(a, b) <==> {
            &&& d.offset < a.len() && d.offset < b.len()
            &&& a[d.offset as int] == d.left && b[d.offset as int] == d.right
            &&& d.left != d.right
            &&& forall|i: int| 0 <= i < d.offset ==> #[trigger] a[i] == b[i]
        },
{
    let k = d.offset as int;
    if d.is_first(a, b) {
        assert forall|i: int| 0 <= i < k implies #[trigger] a[i] == b[i] by {
            assert(a.take(k)[i] == b.take(k)[i]);
        }
    }
    if k < a.len() && k < b.len() && forall|i: int| 0 <= i < k ==> #[trigger] a[i] == b[i] {
        assert(a.take(k) =~= b.take(k));
    }
}

/// Two files have one first difference at most.
pub proof fn law_one_first_difference(d: Difference, e: Difference, a: Seq<u8>, b: Seq<u8>)
    requires
        d.is_first(a, b),
        e.is_first(a, b),
    ensures
        d == e,
{
    law_first_difference(d, a, b);
    law_first_difference(e, a, b);
    if d.offset < e.offset {
        assert(a[d.offset as int] == b[d.offset as int]);
    }
    if e.offset < d.offset {
        assert(a[e.offset as int] == b[e.offset as int]);
    }
}

/// A comparison has found the contents equal up to its position, byte by byte;
/// the next pieces are 65536 bytes, or what is left of the shorter content.
pub proof fn law_comparison(c: Comparison, a: Seq<u8>, b: Seq<u8>)
    requires
        a.len() == c.a_len,
        b.len() == c.b_len,
        c.pos <= a.len(),
        c.pos <= b.len(),
    ensures
        c.wf(),
        c.agrees(a, b) <==> forall|i: int| 0 <= i < c.pos ==> #[trigger] a[i] == b[i],
        0 <= c.step() <= 65536,
        c.pos + c.step() <= a.len(),
        c.pos + c.step() <= b.len(),
        c.step() == 65536 || c.pos + c.step() == a.len() || c.pos + c.step() == b.len(),
        c.common() == if a.len() <= b.len() {
            a.len()
        } else {
            b.len()
        },
{
    let k = c.pos as int;
    if c.agrees(a, b) {
        assert forall|i: int| 0 <= i < k implies #[trigger] a[i] == b[i] by {
            assert(a.take(k)[i] == b.take(k)[i]);
        }
    }
    if forall|i: int| 0 <= i < k ==> #[trigger] a[i] == b[i] {
        assert(a.take(k) =~= b.take(k));
    }
}

/// A difference in words: its offset, and for each file its byte in base sixteen and
/// by name.
pub proof fn law_difference_words(d: Difference, a: Seq<char>, b: Seq<char>)
    ensures
        d.words(a, b) == "verify: differ at byte offset "@ + display::thousands(d.offset as nat)
            + "\n  "@ + a + ": "@ + display::hex_words(d.left as int, 2) + " "@
            + display::byte_words(d.left) + "\n  "@ + b + ": "@ + display::hex_words(
            d.right as int,
            2,
        ) + " "@ + display::byte_words(d.right),
{
}

/// An outcome in words: equal contents by their length, and a prefix by its length
/// and that of the longer content, which is named second.
pub proof fn law_verdict_words(short: u64, long: u64, a: Seq<char>, b: Seq<char>)
    ensures
        (Verdict::Identical { len: short }).words(a, b) == "verify: "@ + a + " and "@ + b
            + " are identical ("@ + display::thousands(short as nat) + " content bytes)"@,
        (Verdict::FirstIsPrefix { short, long }).words(a, b) == "verify: all "@
            + display::thousands(short as nat) + " content bytes of "@ + a
            + " match the prefix of "@ + b + " ("@ + display::thousands(long as nat)
            + " content bytes total)"@,
        (Verdict::SecondIsPrefix { short, long }).words(a, b) == (Verdict::FirstIsPrefix {
            short,
            long,
        }).words(b, a),
{
}

} // verus!
