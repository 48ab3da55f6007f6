//! Checking a file of hexadecimal digits of pi against the digits that the
//! Bailey-Borwein-Plouffe formula gives at single positions.
//!
//! The caller reads the file; what is read where, and what follows from it, is
//! decided here.
use crate::bbp;
use crate::bbp::{MAX_POSITION, hex_digits_at};
use crate::display;
use crate::display::{push_hex, push_thousands};
use crate::text;
use crate::verify;
use rand::Rng;
use rand::rngs::OsRng;
use vstd::arithmetic::power::*;
use vstd::prelude::*;
use vstd::string::*;

verus! {

/// Digits of a sanity region and of a random window.
pub const WINDOW: u64 = 1_000_000;

/// Bytes in which white space at the end of a file is looked for.
pub const TAIL: u64 = 4096;

/// Where the first digit after `3.` stands.
pub const DATA_OFFSET: u64 = 2;

/// Why a check cannot start.
#[derive(Debug, Clone, Copy, PartialEq, Eq, Structural)]
pub enum PreflightError {
    /// There is no file to check and none to convert.
    NothingToCheck,
}

impl PreflightError {
    /// The error in words, by the name of the file.
    pub open spec fn words(self, hex: Seq<char>) -> Seq<char> {
        "hex file `"@ + hex
            + "` does not exist and no `--from-decimal` was provided; pass `--from-decimal <FILE>` to create it"@
    }

    /// The error in words.
    pub fn to_text(&self, hex: &str) -> (s: String)
        ensures
            s@ == self.words(hex@),
    {
        let mut s: String = "hex file `".to_owned();
        s.append(hex);
        s.append(
            "` does not exist and no `--from-decimal` was provided; pass `--from-decimal <FILE>` to create it",
        );
        s
    }
}

/// Whether a conversion has to be made first.  A file that exists is checked as it
/// is, and a decimal file is then ignored.
pub fn preflight(hex_exists: bool, decimal_given: bool) -> (r: Result<bool, PreflightError>)
    ensures
        match r {
            Ok(convert) => (hex_exists || decimal_given) && convert == (!hex_exists
                && decimal_given),
            Err(PreflightError::NothingToCheck) => !hex_exists && !decimal_given,
        },
{
    if hex_exists {
        Ok(false)
    } else if decimal_given {
        Ok(true)
    } else {
        Err(PreflightError::NothingToCheck)
    }
}

/// Why a file holds no hexadecimal digits of pi.
#[derive(Debug, Clone, Copy, PartialEq, Eq, Structural)]
pub enum ScanError {
    /// The file has less than two bytes.
    TooShort,
    /// The file does not start with `3.`.
    NoLeadingThree,
    /// The file has less than eight digits.
    NothingToSample,
}

impl ScanError {
    /// The error in words.
    pub open spec fn words(self) -> Seq<char> {
        match self {
            ScanError::TooShort => "hex file is too short"@,
            ScanError::NoLeadingThree => "hex file doesn't start with \"3.\""@,
            ScanError::NothingToSample => "hex file has fewer than 8 hex digits; nothing to sample"@,
        }
    }

    /// The error in words.
    pub fn to_text(&self) -> (s: String)
        ensures
            s@ == self.words(),
    {
        match self {
            ScanError::TooShort => "hex file is too short".to_owned(),
            ScanError::NoLeadingThree => "hex file doesn't start with \"3.\"".to_owned(),
            ScanError::NothingToSample => {
                "hex file has fewer than 8 hex digits; nothing to sample".to_owned()
            },
        }
    }
}

/// How many bytes to read from the end of a file of `total_len` bytes.
pub fn tail_len(total_len: u64) -> (n: u64)
    ensures
        n == if total_len < TAIL { total_len } else { TAIL },
        n <= total_len && n <= 4096,
        n == total_len || n == 4096,
{
    if total_len < TAIL {
        total_len
    } else {
        TAIL
    }
}

/// The digits of a file: where the first stands, and how many there are.  White
/// space at the end of the file does not count.
///
/// `header` is the first two bytes of the file, `tail` its last.
pub fn scan_hex_file(total_len: u64, header: &[u8], tail: &[u8]) -> (r: Result<
    (u64, u64),
    ScanError,
>)
    requires
        total_len >= 2 ==> header@.len() == 2,
        tail@.len() == if total_len < TAIL { total_len } else { TAIL },
        total_len > TAIL ==> verify::content_len(tail@) > 0,
    ensures
        match r {
            Ok((offset, n)) => {
                &&& total_len >= 2
                &&& header@ == seq![51u8, 46]
                &&& offset == DATA_OFFSET
                &&& offset == 2
                &&& n == if total_len - tail@.len() + verify::content_len(tail@) <= DATA_OFFSET {
                    0
                } else {
                    total_len - tail@.len() + verify::content_len(tail@) - DATA_OFFSET
                }
            },
            Err(ScanError::TooShort) => total_len < 2,
            Err(ScanError::NoLeadingThree) => total_len >= 2 && header@ != seq![51u8, 46],
            Err(ScanError::NothingToSample) => false,
        },
{
    if total_len < 2 {
        return Err(ScanError::TooShort);
    }
    if header[0] != 51 || header[1] != 46 {
        proof {
            assert(header@[0] != seq![51u8, 46][0] || header@[1] != seq![51u8, 46][1]);
        }
        return Err(ScanError::NoLeadingThree);
    }
    proof {
        assert(header@ =~= seq![51u8, 46]);
    }
    let end: u64 = total_len - tail.len() as u64 + verify::content_length(tail) as u64;
    if end <= DATA_OFFSET {
        Ok((DATA_OFFSET, 0))
    } else {
        Ok((DATA_OFFSET, end - DATA_OFFSET))
    }
}

/// Digits at the end of a file that are not checked: the conversion rounds down,
/// so that the last digits may be those of a slightly smaller number.
pub const TAIL_SKIP: u64 = 32;

/// Digits of the sanity region in the middle of a file.
pub const MIDDLE_REGION: u64 = 100_000;

/// Digits of the sanity region at the end of a file.
pub const LAST_REGION: u64 = 10_000;

/// How many of the `n` digits of a file are checked.
pub open spec fn checked_len(n: int) -> int {
    if n < TAIL_SKIP {
        0
    } else {
        n - TAIL_SKIP
    }
}

/// How many of the `n` digits of a file are checked.
pub fn checkable_digits(n: u64) -> (r: u64)
    ensures
        r == checked_len(n as int),
{
    if n < TAIL_SKIP {
        0
    } else {
        n - TAIL_SKIP
    }
}

/// A region of up to `len` digits within `n`, from `start` on.
pub open spec fn region_at(start: int, len: int, n: int) -> (int, int) {
    (start, if start + len < n { start + len } else { n })
}

/// The three sanity regions of a file of `n` digits, each by its start and its
/// end: of the digits that are checked the first million, a hundred thousand
/// from the middle on, and the last ten thousand.
pub open spec fn regions(n: int) -> Seq<(int, int)> {
    let m = checked_len(n);
    seq![
        region_at(0, WINDOW as int, m),
        region_at(m / 2, MIDDLE_REGION as int, m),
        region_at(if m < LAST_REGION { 0 } else { m - LAST_REGION }, LAST_REGION as int, m),
    ]
}

/// A region of up to `len` digits within `n`, from `start` on.
fn region_from(start: u64, len: u64, n: u64) -> (r: (u64, u64))
    requires
        start <= n,
    ensures
        r.0 == region_at(start as int, len as int, n as int).0,
        r.1 == region_at(start as int, len as int, n as int).1,
        r.0 <= r.1 <= n,
        r.1 - r.0 <= len,
{
    if len < n - start {
        (start, start + len)
    } else {
        (start, n)
    }
}

/// The three sanity regions of a file of `n` digits.
pub fn sanity_regions(n: u64) -> (r: [(u64, u64); 3])
    ensures
        forall|i: int|
            0 <= i < 3 ==> r@[i].0 == regions(n as int)[i].0 && r@[i].1 == regions(n as int)[i].1,
        forall|i: int|
            0 <= i < 3 ==> (#[trigger] r@[i]).0 <= r@[i].1 <= checked_len(n as int) && r@[i].1
                - r@[i].0 <= WINDOW,
{
    let m: u64 = checkable_digits(n);
    let last: u64 = if m < LAST_REGION { 0 } else { m - LAST_REGION };
    [
        region_from(0, WINDOW, m),
        region_from(m / 2, MIDDLE_REGION, m),
        region_from(last, LAST_REGION, m),
    ]
}

/// How many positions are checked in each sanity region: fewer where a check
/// costs more, a tenth in the middle and a hundredth at the end.
pub open spec fn sample_counts(samples: int) -> Seq<int> {
    seq![samples, samples / 10, samples / 100]
}

/// How many positions are checked in each sanity region.
pub fn region_samples(samples: usize) -> (r: [usize; 3])
    ensures
        forall|i: int| 0 <= i < 3 ==> #[trigger] r@[i] == sample_counts(samples as int)[i],
{
    [samples, samples / 10, samples / 100]
}

/// Position `i` of `samples` spread over a region, from its start to the last
/// place where eight digits fit.
pub open spec fn spread(start: int, end: int, samples: int, i: int) -> int {
    start + ((end - 8 - start) * i) / if samples <= 2 {
        1
    } else {
        samples - 1
    }
}

/// The positions that are checked in a sanity region; none in one that does not
/// hold eight digits.
pub fn sanity_positions(start: u64, end: u64, samples: usize) -> (r: Vec<u64>)
    requires
        start <= end,
        end - start >= 8 && samples > 0 ==> (end - 8 - start) * (samples - 1) <= u64::MAX,
    ensures
        end - start < 8 ==> r@.len() == 0,
        end - start >= 8 ==> r@.len() == samples,
        forall|i: int|
            0 <= i < r@.len() ==> #[trigger] r@[i] == spread(
                start as int,
                end as int,
                samples as int,
                i,
            ) && start <= r@[i] <= end - 8,
{
    let mut r: Vec<u64> = Vec::new();
    if end - start < 8 {
        return r;
    }
    let span: u64 = end - 8 - start;
    let steps: u64 = if samples <= 2 {
        1
    } else {
        samples as u64 - 1
    };
    let mut i: usize = 0;
    while i < samples
        invariant
            i <= samples,
            r@.len() == i,
            start + span == end - 8,
            samples > 0 ==> span * (samples - 1) <= u64::MAX,
            steps == if samples <= 2 {
                1
            } else {
                samples - 1
            },
            forall|j: int|
                0 <= j < i ==> #[trigger] r@[j] == spread(
                    start as int,
                    end as int,
                    samples as int,
                    j,
                ) && start <= r@[j] <= end - 8,
        decreases samples - i,
    {
        proof {
            assert(span * i <= span * (samples - 1)) by (nonlinear_arith)
                requires
                    0 <= i <= samples - 1,
                    0 <= span,
            ;
            assert(0 <= (span * i) / (steps as int) <= span) by {
                assert(span * i <= span * steps) by (nonlinear_arith)
                    requires
                        0 <= i <= steps,
                        0 <= span,
                ;
                assert(span * i >= 0) by (nonlinear_arith)
                    requires
                        0 <= i,
                        0 <= span,
                ;
                vstd::arithmetic::div_mod::lemma_div_is_ordered(
                    span * i,
                    span * steps,
                    steps as int,
                );
                vstd::arithmetic::div_mod::lemma_div_by_multiple(span as int, steps as int);
                vstd::arithmetic::div_mod::lemma_div_pos_is_pos(span * i, steps as int);
            }
        }
        r.push(start + span * i as u64 / steps);
        i = i + 1;
    }
    r
}

/// The positions `v` are those of sanity region `i` of a file of `n` digits.
pub open spec fn is_sweep(v: Seq<u64>, n: int, samples: int, i: int) -> bool {
    let (start, end) = regions(n)[i];
    let count = sample_counts(samples)[i];
    &&& v.len() == if end - start < 8 {
        0
    } else {
        count
    }
    &&& forall|j: int|
        0 <= j < v.len() ==> #[trigger] v[j] == spread(start, end, count, j) && start <= v[j]
            && v[j] + 8 <= end
}

/// The positions that are checked in the three sanity regions of a file of `n`
/// digits.  None of them reaches into the last digits, which are not checked.
pub fn sanity_sweep(n: u64, samples: usize) -> (r: [Vec<u64>; 3])
    requires
        WINDOW * samples <= u64::MAX,
    ensures
        forall|i: int| 0 <= i < 3 ==> is_sweep((#[trigger] r@[i])@, n as int, samples as int, i),
        forall|i: int, j: int|
            0 <= i < 3 && 0 <= j < r@[i]@.len() ==> (#[trigger] r@[i]@[j]) + 8 <= n - TAIL_SKIP,
{
    let regions: [(u64, u64); 3] = sanity_regions(n);
    let counts: [usize; 3] = region_samples(samples);
    proof {
        lemma_sweep_room(regions@[0], counts@[0] as int, samples as int);
        lemma_sweep_room(regions@[1], counts@[1] as int, samples as int);
        lemma_sweep_room(regions@[2], counts@[2] as int, samples as int);
    }
    let first: Vec<u64> = sanity_positions(regions[0].0, regions[0].1, counts[0]);
    let middle: Vec<u64> = sanity_positions(regions[1].0, regions[1].1, counts[1]);
    let last: Vec<u64> = sanity_positions(regions[2].0, regions[2].1, counts[2]);
    assert(is_sweep(first@, n as int, samples as int, 0));
    assert(is_sweep(middle@, n as int, samples as int, 1));
    assert(is_sweep(last@, n as int, samples as int, 2));
    [first, middle, last]
}

/// The products in a sweep fit.
proof fn lemma_sweep_room(region: (u64, u64), count: int, samples: int)
    requires
        region.0 <= region.1,
        region.1 - region.0 <= WINDOW,
        0 <= count <= samples,
        WINDOW * samples <= u64::MAX,
    ensures
        region.1 - region.0 >= 8 && count > 0 ==> (region.1 - 8 - region.0) * (count - 1)
            <= u64::MAX,
{
    if region.1 - region.0 >= 8 && count > 0 {
        let span = region.1 - 8 - region.0;
        assert(span * (count - 1) <= WINDOW * samples) by (nonlinear_arith)
            requires
                0 <= span <= WINDOW,
                0 <= count - 1 <= samples,
        ;
    }
}

/// A window from which positions are drawn.
#[derive(Debug, Clone, Copy)]
pub struct SampleWindow {
    /// The first position.
    pub start: u64,
    /// How far a position may be from the first.
    pub max_offset: u64,
    /// How many positions are drawn.
    pub samples: usize,
}

impl SampleWindow {
    /// Every position of the window leaves room for eight of `n` digits.
    pub open spec fn fits(self, n: u64) -> bool {
        self.start + self.max_offset + 8 <= n
    }
}

/// The window that starts at `p` among `n` digits.  It ends with them, or after a million digits; where only one position fits, one is drawn.
pub fn window_at(n: u64, p: u64, samples: usize) -> (w: SampleWindow)
    requires
        p + 8 <= n,
    ensures
        w.start == p,
        w.max_offset == if n - p < WINDOW {
            n - p - 8
        } else {
            WINDOW - 8
        },
        w.samples == if w.max_offset == 0 {
            1
        } else {
            samples
        },
        w.fits(n),
        is_window(n as int, samples, w),
{
    let span: u64 = if n - p < WINDOW {
        n - p
    } else {
        WINDOW
    };
    let max_offset: u64 = span - 8;
    SampleWindow { start: p, max_offset, samples: if max_offset == 0 { 1 } else { samples } }
}

/// A random number up to `max`: `Rng::gen_range` on the range `0..=max` with the
/// operating system's generator.  It lies in the range; nothing else is known of
/// it.
#[verifier::external_body]
fn random_up_to(max: u64) -> (r: u64)
    ensures
        r <= max,
{
    OsRng.gen_range(0..=max)
}

/// Draw the positions of a random window in a file of `n` digits.  None of them
/// reaches into the last digits, which are not checked.
pub fn draw_positions(n: u64, samples: usize) -> (r: Result<Vec<u64>, ScanError>)
    ensures
        r is Err <==> checked_len(n as int) < 8,
        r matches Err(e) ==> e == ScanError::NothingToSample,
        r matches Ok(v) ==> exists|w: SampleWindow| #[trigger]
            is_window(checked_len(n as int), samples, w) && v@.len() == w.samples && forall|i: int|
                0 <= i < v@.len() ==> w.start <= #[trigger] v@[i] <= w.start + w.max_offset,
        r matches Ok(v) ==> forall|i: int|
            0 <= i < v@.len() ==> (#[trigger] v@[i]) + 8 <= n - TAIL_SKIP,
{
    let m: u64 = checkable_digits(n);
    if m < 8 {
        return Err(ScanError::NothingToSample);
    }
    let p: u64 = random_up_to(m - 8);
    let w: SampleWindow = window_at(m, p, samples);
    let mut v: Vec<u64> = Vec::new();
    let mut i: usize = 0;
    while i < w.samples
        invariant
            i <= w.samples,
            v@.len() == i,
            w.fits(m),
            forall|j: int|
                0 <= j < i ==> w.start <= #[trigger] v@[j] <= w.start + w.max_offset,
        decreases w.samples - i,
    {
        let offset: u64 = if w.max_offset == 0 {
            0
        } else {
            random_up_to(w.max_offset)
        };
        v.push(w.start + offset);
        i = i + 1;
    }
    assert(is_window(checked_len(n as int), samples, w));
    Ok(v)
}

/// `w` is the window at its start among `n` digits.
pub open spec fn is_window(n: int, samples: usize, w: SampleWindow) -> bool {
    &&& w.start + w.max_offset + 8 <= n
    &&& w.max_offset == if n - w.start < WINDOW {
        n - w.start - 8
    } else {
        WINDOW - 8
    }
    &&& w.samples == if w.max_offset == 0 {
        1
    } else {
        samples
    }
}

/// Why the digits at a position fail the check.
#[derive(Debug, Clone, Copy, PartialEq, Eq, Structural)]
pub enum CheckError {
    /// A byte that is no hexadecimal digit.
    NonHex { byte: u8, at: u64 },
    /// The digits are not those of pi.
    Mismatch { pos: u64, file: u32, bbp: u32 },
}

impl CheckError {
    /// The error in words.
    pub open spec fn words(self) -> Seq<char> {
        match self {
            CheckError::NonHex { byte, at } => "non-hex character "@ + display::hex_words(
                byte as int,
                2,
            ) + " at file byte position "@ + display::thousands(at as nat),
            CheckError::Mismatch { pos, file, bbp } => "MISMATCH at hex position "@
                + display::thousands(pos as nat) + ":\n  file: "@ + display::hex_words(
                file as int,
                8,
            ) + "\n  bbp:  "@ + display::hex_words(bbp as int, 8),
        }
    }

    /// The error in words.
    pub fn to_text(&self) -> (s: String)
        ensures
            s@ == self.words(),
    {
        match self {
            CheckError::NonHex { byte, at } => {
                let mut s: String = "non-hex character ".to_owned();
                push_hex(&mut s, *byte as u64, 2);
                s.append(" at file byte position ");
                push_thousands(&mut s, *at);
                s
            },
            CheckError::Mismatch { pos, file, bbp } => {
                let mut s: String = "MISMATCH at hex position ".to_owned();
                push_thousands(&mut s, *pos);
                s.append(":\n  file: ");
                push_hex(&mut s, *file as u64, 8);
                s.append("\n  bbp:  ");
                push_hex(&mut s, *bbp as u64, 8);
                s
            },
        }
    }
}

/// The index of the first byte that is no hexadecimal digit, or the length.
pub open spec fn first_non_hex(s: Seq<u8>) -> nat
    decreases s.len(),
{
    if s.len() == 0 || text::digit_value(s[0], 16) < 0 {
        0
    } else {
        first_non_hex(s.skip(1)) + 1
    }
}

proof fn lemma_first_non_hex(s: Seq<u8>, k: nat)
    requires
        k <= s.len(),
        forall|i: int| 0 <= i < k ==> text::digit_value(#[trigger] s[i], 16) >= 0,
        k < s.len() ==> text::digit_value(s[k as int], 16) < 0,
    ensures
        first_non_hex(s) == k,
    decreases s.len(),
{
    if s.len() > 0 && k > 0 {
        let t = s.skip(1);
        assert(text::digit_value(s[0], 16) >= 0);
        assert forall|i: int| 0 <= i < k - 1 implies text::digit_value(#[trigger] t[i], 16) >= 0 by {
            assert(t[i] == s[i + 1]);
        }
        if k < s.len() {
            assert(t[k - 1] == s[k as int]);
        }
        lemma_first_non_hex(t, (k - 1) as nat);
    }
}

/// What a check of eight bytes against the digits `expected` gives.
pub open spec fn check_result(bytes: Seq<u8>, pos: u64, expected: u32) -> Result<(), CheckError> {
    let k = first_non_hex(bytes);
    let value = text::numeral_value(bytes, 16) as u32;
    if k < bytes.len() {
        Err(CheckError::NonHex { byte: bytes[k as int], at: (DATA_OFFSET + pos + k) as u64 })
    } else if value != expected {
        Err(CheckError::Mismatch { pos, file: value, bbp: expected })
    } else {
        Ok(())
    }
}

/// Check eight bytes of a file, from digit `pos` on, against the digits
/// `expected`.
pub fn check_digits(bytes: &[u8], pos: u64, expected: u32) -> (r: Result<(), CheckError>)
    requires
        bytes@.len() == 8,
        pos <= u64::MAX - 16,
    ensures
        r == check_result(bytes@, pos, expected),
        r is Ok ==> text::all_digits(bytes@, 16) && text::numeral_value(bytes@, 16) == expected,
{
    let mut value: u64 = 0;
    let mut i: usize = 0;
    let ghost mut limit: int = 1;
    assert(bytes@.take(0).len() == 0);
    while i < 8
        invariant
            i <= 8,
            bytes@.len() == 8,
            pos <= u64::MAX - 16,
            value == text::numeral_value(bytes@.take(i as int), 16),
            value < limit,
            i == 0 ==> limit == 1,
            i == 1 ==> limit == 0x10,
            i == 2 ==> limit == 0x100,
            i == 3 ==> limit == 0x1000,
            i == 4 ==> limit == 0x1_0000,
            i == 5 ==> limit == 0x10_0000,
            i == 6 ==> limit == 0x100_0000,
            i == 7 ==> limit == 0x1000_0000,
            i == 8 ==> limit == 0x1_0000_0000,
            forall|j: int| 0 <= j < i ==> text::digit_value(#[trigger] bytes@[j], 16) >= 0,
        decreases 8 - i,
    {
        let c: u8 = bytes[i];
        let digit: u8 = if 48 <= c && c <= 57 {
            c - 48
        } else if 97 <= c && c <= 102 {
            c - 87
        } else if 65 <= c && c <= 70 {
            c - 55
        } else {
            proof {
                assert(text::digit_value(bytes@[i as int], 16) < 0);
                lemma_first_non_hex(bytes@, i as nat);
            }
            return Err(CheckError::NonHex { byte: c, at: DATA_OFFSET + pos + i as u64 });
        };
        proof {
            assert(text::digit_value(bytes@[i as int], 16) == digit);
            assert(bytes@.take(i + 1).drop_last() =~= bytes@.take(i as int));
            assert(bytes@.take(i + 1).last() == c);
            limit = limit * 16;
        }
        value = value * 16 + digit as u64;
        i = i + 1;
    }
    proof {
        assert(bytes@.take(8) =~= bytes@);
        lemma_first_non_hex(bytes@, 8);
    }
    let found: u32 = value as u32;
    if found != expected {
        Err(CheckError::Mismatch { pos, file: found, bbp: expected })
    } else {
        Ok(())
    }
}

/// Check eight bytes of a file, from digit `pos` on, against pi.
pub fn check_position(bytes: &[u8], pos: u64) -> (r: Result<(), CheckError>)
    requires
        bytes@.len() == 8,
        pos <= MAX_POSITION,
    ensures
        r == check_result(bytes@, pos, (bbp::fixed_pi(pos as int) / 0x1_0000_0000) as u32),
{
    let expected: u32 = hex_digits_at(pos);
    check_digits(bytes, pos, expected)
}

/// The sanity regions of `n` digits, of which the last 32 are left out: the first
/// million, a hundred thousand from the middle on, and the last ten thousand, or
/// as many as there are.
pub proof fn law_regions(n: int)
    requires
        n >= 0,
    ensures
        ({
            let m = if n < 32 {
                0
            } else {
                n - 32
            };
            let (first, middle, last) = (regions(n)[0], regions(n)[1], regions(n)[2]);
            &&& checked_len(n) == m
            &&& regions(n).len() == 3
            &&& first.0 == 0
            &&& first.1 == 1_000_000 || first.1 == m
            &&& first.1 <= 1_000_000 && first.1 <= m
            &&& 2 * middle.0 == m || 2 * middle.0 == m - 1
            &&& middle.1 - middle.0 == 100_000 || middle.1 == m
            &&& middle.1 - middle.0 <= 100_000 && middle.1 <= m
            &&& last.1 == m
            &&& last.1 - last.0 == 10_000 || last.0 == 0
            &&& 0 <= last.1 - last.0 <= 10_000
        }),
{
}

/// As many positions are checked in the first region as asked for, a tenth of them
/// in the middle and a hundredth at the end.
pub proof fn law_sample_counts(samples: int)
    requires
        samples >= 0,
    ensures
        sample_counts(samples).len() == 3,
        sample_counts(samples)[0] == samples,
        10 * sample_counts(samples)[1] <= samples < 10 * (sample_counts(samples)[1] + 1),
        100 * sample_counts(samples)[2] <= samples < 100 * (sample_counts(samples)[2] + 1),
{
}

/// Positions are spread evenly over a region: the first is its start, the last of
/// two or more is the last place where eight digits fit, and position `i` is the
/// whole number at or below its even share of the way.
pub proof fn law_spread(start: int, end: int, samples: int, i: int)
    requires
        start + 8 <= end,
        0 <= i < samples,
    ensures
        start <= spread(start, end, samples, i) <= end - 8,
        spread(start, end, samples, 0) == start,
        samples >= 2 ==> spread(start, end, samples, samples - 1) == end - 8,
        samples >= 2 ==> {
            let d = spread(start, end, samples, i) - start;
            d * (samples - 1) <= (end - 8 - start) * i < (d + 1) * (samples - 1)
        },
{
    let span = end - 8 - start;
    let steps = if samples <= 2 {
        1
    } else {
        samples - 1
    };
    assert(span * 0 == 0);
    vstd::arithmetic::div_mod::lemma_div_basics(steps);
    vstd::arithmetic::div_mod::lemma_div_by_multiple(span, steps);
    let x = span * i;
    assert(0 <= x <= span * steps) by (nonlinear_arith)
        requires
            x == span * i,
            0 <= span,
            0 <= i <= steps,
    ;
    vstd::arithmetic::div_mod::lemma_div_pos_is_pos(x, steps);
    vstd::arithmetic::div_mod::lemma_div_is_ordered(x, span * steps, steps);
    vstd::arithmetic::div_mod::lemma_fundamental_div_mod(x, steps);
    vstd::arithmetic::div_mod::lemma_mod_bound(x, steps);
    let d = x / steps;
    vstd::arithmetic::mul::lemma_mul_is_commutative(steps, d);
    assert((d + 1) * steps == d * steps + steps) by (nonlinear_arith);
}

/// The positions of a sweep: as many as the region is given, none where it does not
/// hold eight digits; they begin with its start, end eight digits before its end,
/// and never reach the 32 digits that are left out.
pub proof fn law_sweep(v: Seq<u64>, n: int, samples: int, i: int)
    requires
        n >= 0,
        samples >= 0,
        0 <= i < 3,
        is_sweep(v, n, samples, i),
    ensures
        ({
            let (start, end) = regions(n)[i];
            let count = sample_counts(samples)[i];
            &&& end - start < 8 ==> v.len() == 0
            &&& end - start >= 8 ==> v.len() == count
            &&& v.len() > 0 ==> v[0] == start
            &&& v.len() > 1 ==> v[v.len() - 1] == end - 8
            &&& forall|j: int| 0 <= j < v.len() ==> (#[trigger] v[j]) + 8 <= n - 32
        }),
{
    let (start, end) = regions(n)[i];
    let count = sample_counts(samples)[i];
    law_regions(n);
    law_sample_counts(samples);
    if v.len() > 0 {
        law_spread(start, end, count, 0);
        law_spread(start, end, count, count - 1);
        assert(v[0] == spread(start, end, count, 0));
        assert(v[v.len() - 1] == spread(start, end, count, v.len() - 1));
        assert forall|j: int| 0 <= j < v.len() implies (#[trigger] v[j]) + 8 <= n - 32 by {
            assert(v[j] == spread(start, end, count, j));
        }
    }
}

/// A window ends with the digits or holds a million of them, and every position in
/// it leaves room for eight digits; one position is drawn from one that holds no
/// more than eight, and as many as asked for from any other.
pub proof fn law_window(n: int, samples: usize, w: SampleWindow)
    requires
        is_window(n, samples, w),
    ensures
        w.start + w.max_offset + 8 <= n,
        w.max_offset + 8 <= 1_000_000,
        w.max_offset + 8 == 1_000_000 || w.start + w.max_offset + 8 == n,
        w.max_offset == 0 ==> w.samples == 1,
        w.max_offset > 0 ==> w.samples == samples,
        n <= u64::MAX ==> w.fits(n as u64),
{
}

/// A check succeeds just where each of the eight bytes is the hexadecimal digit of
/// the expected number at its place, in either case.
pub proof fn law_check_passes(bytes: Seq<u8>, pos: u64, expected: u32)
    requires
        bytes.len() == 8,
    ensures
        check_result(bytes, pos, expected) is Ok <==> forall|i: int|
            0 <= i < 8 ==> text::digit_value(#[trigger] bytes[i], 16) == (expected as int / pow(
                16,
                (7 - i) as nat,
            )) % 16,
{
    let v = text::numeral_value(bytes, 16);
    let e = expected as int;
    lemma_sixteen_powers();
    lemma_first_bad(bytes);
    if check_result(bytes, pos, expected) is Ok {
        text::law_numeral_value(bytes, 16);
        assert forall|i: int| 0 <= i < 8 implies text::digit_value(#[trigger] bytes[i], 16) == (e
            / pow(16, (7 - i) as nat)) % 16 by {
            assert((v / pow(16, (bytes.len() - 1 - i) as nat)) % 16 == text::digit_value(
                bytes[i],
                16,
            ));
        }
    }
    if forall|i: int|
        0 <= i < 8 ==> text::digit_value(#[trigger] bytes[i], 16) == (e / pow(
            16,
            (7 - i) as nat,
        )) % 16 {
        assert forall|i: int| 0 <= i < 8 implies text::digit_value(#[trigger] bytes[i], 16)
            >= 0 by {}
        text::law_only_value(bytes, 16, e);
    }
}

/// A check that fails names the first byte that is no hexadecimal digit, by its
/// place in the file, which has two bytes before the digits; or, where there is
/// none, the number that the eight digits spell, which is not the expected one.
pub proof fn law_check_fails(bytes: Seq<u8>, pos: u64, expected: u32, k: nat)
    requires
        bytes.len() == 8,
        pos <= u64::MAX - 16,
        k <= 8,
        forall|i: int| 0 <= i < k ==> text::digit_value(#[trigger] bytes[i], 16) >= 0,
        k < 8 ==> text::digit_value(bytes[k as int], 16) < 0,
    ensures
        k < 8 ==> check_result(bytes, pos, expected) == Err::<(), CheckError>(
            CheckError::NonHex { byte: bytes[k as int], at: (pos + 2 + k) as u64 },
        ),
        k == 8 ==> match check_result(bytes, pos, expected) {
            Ok(()) => true,
            Err(CheckError::Mismatch { pos: p, file, bbp: b }) => {
                &&& p == pos
                &&& b == expected
                &&& file != expected
                &&& forall|i: int|
                    0 <= i < 8 ==> text::digit_value(#[trigger] bytes[i], 16) == (file as int / pow(
                        16,
                        (7 - i) as nat,
                    )) % 16
            },
            Err(CheckError::NonHex { .. }) => false,
        },
{
    lemma_first_non_hex(bytes, k);
    if k == 8 {
        lemma_sixteen_powers();
        text::law_numeral_value(bytes, 16);
        let v = text::numeral_value(bytes, 16);
        assert forall|i: int| 0 <= i < 8 implies text::digit_value(#[trigger] bytes[i], 16) == (v
            / pow(16, (7 - i) as nat)) % 16 by {
            assert((v / pow(16, (bytes.len() - 1 - i) as nat)) % 16 == text::digit_value(
                bytes[i],
                16,
            ));
        }
    }
}

/// Eight hexadecimal digits make 32 bits.
proof fn lemma_sixteen_powers()
    ensures
        pow(16, 8) == 0x1_0000_0000,
{
    lemma_pow0(16);
    reveal_with_fuel(pow, 9);
}

/// Without a byte that is no digit, all are digits.
proof fn lemma_first_bad(s: Seq<u8>)
    ensures
        first_non_hex(s) <= s.len(),
        first_non_hex(s) == s.len() ==> text::all_digits(s, 16),
        first_non_hex(s) < s.len() ==> text::digit_value(s[first_non_hex(s) as int], 16) < 0,
    decreases s.len(),
{
    if s.len() > 0 && text::digit_value(s[0], 16) >= 0 {
        let t = s.skip(1);
        lemma_first_bad(t);
        assert forall|i: int|
            0 <= i < s.len() && first_non_hex(s) == s.len() implies text::digit_value(
            #[trigger] s[i],
            16,
        ) >= 0 by {
            if i > 0 {
                assert(s[i] == t[i - 1]);
            }
        }
    }
}

/// A failed check in words: the byte that is no digit and its place in the file, or
/// the position and both numbers, with eight digits each.
pub proof fn law_check_words(byte: u8, at: u64, pos: u64, file: u32, bbp: u32)
    ensures
        (CheckError::NonHex { byte, at }).words() == "non-hex character "@ + display::hex_words(
            byte as int,
            2,
        ) + " at file byte position "@ + display::thousands(at as nat),
        (CheckError::Mismatch { pos, file, bbp }).words() == "MISMATCH at hex position "@
            + display::thousands(pos as nat) + ":\n  file: "@ + display::hex_words(file as int, 8)
            + "\n  bbp:  "@ + display::hex_words(bbp as int, 8),
{
}

} // verus!
