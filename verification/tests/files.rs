//! Files of digits: comparing them, converting them and checking them.
use pi_digits::algorithm::{Chudnovsky, PiAlgorithm};
use pi_digits::display::{describe_byte, fmt_thousands};
use pi_digits::hex_convert::{convert_decimal_to_hex, ConvertError};
use pi_digits::output::{Layout, WriterSink};
use pi_digits::progress::{NoopProgress, Phase, ProgressReporter};
use pi_digits::scan::trim;
use pi_digits::verify::{content_length, Comparison, ContentScan, Difference, Verdict};
use pi_digits::verify_hex::{
    check_digits, check_position, checkable_digits, draw_positions, preflight, region_samples,
    sanity_positions, sanity_regions, sanity_sweep, scan_hex_file, tail_len, window_at, CheckError, PreflightError, ScanError,
};

#[test]
fn thousands_are_grouped() {
    assert_eq!(fmt_thousands(0), "0");
    assert_eq!(fmt_thousands(999), "999");
    assert_eq!(fmt_thousands(1_000), "1,000");
    assert_eq!(fmt_thousands(12_034), "12,034");
    assert_eq!(fmt_thousands(1_234_567), "1,234,567");
    assert_eq!(fmt_thousands(u64::MAX), "18,446,744,073,709,551,615");
    for n in [5_u64, 1_000_000, 987_654_321] {
        assert_eq!(fmt_thousands(n).replace(',', ""), n.to_string());
    }
}

#[test]
fn bytes_are_described() {
    assert_eq!(describe_byte(b' '), "(space)");
    assert_eq!(describe_byte(b'\t'), "(tab)");
    assert_eq!(describe_byte(b'\n'), "(LF)");
    assert_eq!(describe_byte(b'\r'), "(CR)");
    assert_eq!(describe_byte(b'7'), "('7')");
    assert_eq!(describe_byte(b'~'), "('~')");
    assert_eq!(describe_byte(0), "(non-printable 0)");
    assert_eq!(describe_byte(0xff), "(non-printable 255)");
}

fn content_of(file: &[u8]) -> u64 {
    let mut scan = ContentScan::new(file.len() as u64);
    while let Some((start, len)) = scan.next_piece() {
        let piece = &file[start as usize..(start + len) as usize];
        if let Some(n) = scan.feed(piece) {
            return n;
        }
    }
    0
}

#[test]
fn trailing_white_space_is_no_content() {
    assert_eq!(content_of(b""), 0);
    assert_eq!(content_of(b" \n\t\r"), 0);
    assert_eq!(content_of(b"3.14 \n"), 4);
    assert_eq!(content_of(b" 3.14"), 5);
    let mut long = vec![b'3'; 10];
    long.resize(20_000, b'\n');
    assert_eq!(content_of(&long), 10);
    assert_eq!(content_length(&long), 10);
    let blank = vec![b' '; 9_000];
    assert_eq!(content_of(&blank), 0);
}

fn compare(a: &[u8], b: &[u8]) -> Result<Verdict, Difference> {
    let mut c = Comparison::new(content_of(a), content_of(b));
    loop {
        let n = c.next_len();
        if n == 0 {
            return Ok(c.verdict());
        }
        let at = c.pos as usize;
        if let Some(d) = c.feed(&a[at..at + n], &b[at..at + n]) {
            return Err(d);
        }
    }
}

#[test]
fn contents_are_compared() {
    let v = compare(b"3.14159\n", b"3.14159").unwrap();
    assert_eq!(v, Verdict::Identical { len: 7 });
    assert_eq!(v.report("a", "b"), "verify: a and b are identical (7 content bytes)");
    let v = compare(b"3.14\n", b"3.14159\n\n").unwrap();
    assert_eq!(v, Verdict::FirstIsPrefix { short: 4, long: 7 });
    assert_eq!(
        v.report("a", "b"),
        "verify: all 4 content bytes of a match the prefix of b (7 content bytes total)"
    );
    let v = compare(b"3.14159", b"3.1").unwrap();
    assert_eq!(v, Verdict::SecondIsPrefix { short: 3, long: 7 });
    assert_eq!(
        v.report("a", "b"),
        "verify: all 3 content bytes of b match the prefix of a (7 content bytes total)"
    );
    assert_eq!(compare(b"", b"\n").unwrap(), Verdict::Identical { len: 0 });
}

#[test]
fn the_first_difference_is_found() {
    let d = compare(b"3.14159", b"3.14 59").unwrap_err();
    assert_eq!((d.offset, d.left, d.right), (4, b'1', b' '));
    assert_eq!(
        d.report("a.txt", "b.txt"),
        "verify: differ at byte offset 4\n  a.txt: 0x31 ('1')\n  b.txt: 0x20 (space)"
    );
    assert_eq!(d.failure(), "verify failed at offset 4");
    // Beyond the first piece.
    let a = vec![b'1'; 150_000];
    let mut b = a.clone();
    b[140_001] = b'2';
    b[149_999] = b'3';
    let d = compare(&a, &b).unwrap_err();
    assert_eq!((d.offset, d.left, d.right), (140_001, b'1', b'2'));
    assert_eq!(d.failure(), "verify failed at offset 140,001");
}

#[test]
fn white_space_is_trimmed_as_text() {
    assert_eq!(trim(b"  3.1\t\n"), b"3.1");
    assert_eq!(trim("\u{a0}\u{2003}3.1\u{3000}\u{85}".as_bytes()), b"3.1");
    assert_eq!(trim("\u{2028} ".as_bytes()), b"");
    assert_eq!(trim("é ".as_bytes()), "é".as_bytes());
}

const DECIMAL: &str = "3.14159265358979323846264338327950288419716939937510582097494459";

#[test]
fn decimal_digits_become_hexadecimal_ones() {
    let hex = convert_decimal_to_hex(DECIMAL.as_bytes(), &mut NoopProgress).unwrap();
    // 62 digits after the point determine 51 hexadecimal ones.
    assert_eq!(hex, "3.243f6a8885a308d313198a2e03707344a4093822299f31d0082\n");
    let padded = format!("\n {DECIMAL} \r\n");
    assert_eq!(convert_decimal_to_hex(padded.as_bytes(), &mut NoopProgress).unwrap(), hex);
    assert_eq!(convert_decimal_to_hex(b"3.", &mut NoopProgress).unwrap(), "3.\n");
    assert_eq!(convert_decimal_to_hex(b"3.5", &mut NoopProgress).unwrap(), "3.\n");
    assert_eq!(convert_decimal_to_hex(b"3.50", &mut NoopProgress).unwrap(), "3.8\n");
    assert_eq!(convert_decimal_to_hex(b"3.00", &mut NoopProgress).unwrap(), "3.0\n");
    assert_eq!(convert_decimal_to_hex(b"3.9999", &mut NoopProgress).unwrap(), "3.fff\n");
}

#[test]
fn bad_decimal_files_are_refused() {
    let e = convert_decimal_to_hex(b"2.71828", &mut NoopProgress).unwrap_err();
    assert_eq!(e, ConvertError::NoLeadingThree);
    assert_eq!(e.to_text("e.txt"), "`e.txt` doesn't start with \"3.\"");
    assert_eq!(convert_decimal_to_hex(b"", &mut NoopProgress).unwrap_err(), ConvertError::NoLeadingThree);
    let e = convert_decimal_to_hex(b"3.14x59", &mut NoopProgress).unwrap_err();
    assert_eq!(e, ConvertError::NonDigit);
    assert_eq!(e.to_text("p"), "`p` has non-digit characters after \"3.\"");
    assert_eq!(convert_decimal_to_hex(b"3.14 15", &mut NoopProgress).unwrap_err(), ConvertError::NonDigit);
    assert_eq!(
        ConvertError::TooLong.to_text("p"),
        "fractional decimal digit count exceeds u32::MAX"
    );
}

#[test]
fn long_files_convert() {
    // A third in base ten, cut off, is a third in base sixteen, cut off.
    let mut text = String::from("3.");
    text.push_str(&"3".repeat(20_000));
    let hex = convert_decimal_to_hex(text.as_bytes(), &mut NoopProgress).unwrap();
    let expected = (20_000_f64 * (10.0_f64.log2() / 4.0)) as usize;
    assert_eq!(hex.len(), expected + 3);
    assert!(hex.starts_with("3.5555555555"));
    assert!(hex[2..2 + expected - 1].bytes().all(|b| b == b'5'));
}

#[test]
fn a_check_needs_one_file() {
    assert_eq!(preflight(true, false), Ok(false));
    assert_eq!(preflight(false, true), Ok(true));
    let e = preflight(false, false).unwrap_err();
    assert_eq!(
        e.to_text("h"),
        "hex file `h` does not exist and no `--from-decimal` was provided; pass `--from-decimal <FILE>` to create it"
    );
    assert_eq!(e, PreflightError::NothingToCheck);
    // A file that exists is checked as it is.
    assert_eq!(preflight(true, true), Ok(false));
}

fn scan(file: &[u8]) -> Result<(u64, u64), ScanError> {
    let n = file.len();
    let tail = tail_len(n as u64) as usize;
    let header = if n >= 2 { &file[..2] } else { &file[..0] };
    scan_hex_file(n as u64, header, &file[n - tail..])
}

#[test]
fn hexadecimal_files_are_scanned() {
    assert_eq!(scan(b"3.243f6a88\n"), Ok((2, 8)));
    assert_eq!(scan(b"3."), Ok((2, 0)));
    assert_eq!(scan(b"3.\n\n"), Ok((2, 0)));
    assert_eq!(scan(b"3"), Err(ScanError::TooShort));
    assert_eq!(scan(b"2.7"), Err(ScanError::NoLeadingThree));
    let mut long = b"3.".to_vec();
    long.resize(10_002, b'a');
    long.extend_from_slice(b" \n\t\r");
    assert_eq!(scan(&long), Ok((2, 10_000)));
    assert_eq!(ScanError::TooShort.to_text(), "hex file is too short");
    assert_eq!(ScanError::NoLeadingThree.to_text(), "hex file doesn't start with \"3.\"");
    assert_eq!(
        ScanError::NothingToSample.to_text(),
        "hex file has fewer than 8 hex digits; nothing to sample"
    );
}

#[test]
fn sanity_regions_are_spread() {
    assert_eq!(sanity_regions(132), [(0, 100), (50, 100), (0, 100)]);
    assert_eq!(
        sanity_regions(10_000_032),
        [(0, 1_000_000), (5_000_000, 5_100_000), (9_990_000, 10_000_000)]
    );
    assert_eq!(
        sanity_regions(150_032),
        [(0, 150_000), (75_000, 150_000), (140_000, 150_000)]
    );
    assert_eq!(sanity_regions(20), [(0, 0), (0, 0), (0, 0)]);
    assert_eq!(region_samples(100), [100, 10, 1]);
    assert_eq!(region_samples(99), [99, 9, 0]);
    assert_eq!(sanity_positions(0, 7, 10), Vec::<u64>::new());
    assert_eq!(sanity_positions(10, 18, 3), vec![10, 10, 10]);
    assert_eq!(sanity_positions(0, 108, 5), vec![0, 25, 50, 75, 100]);
    assert_eq!(sanity_positions(0, 108, 1), vec![0]);
    assert_eq!(sanity_positions(0, 108, 2), vec![0, 100]);
    assert_eq!(sanity_positions(0, 108, 0), Vec::<u64>::new());
}

#[test]
fn a_sweep_stays_clear_of_the_end() {
    for n in [0u64, 39, 40, 41, 500, 150_032, 3_000_000, 10_000_000_000] {
        let sweep = sanity_sweep(n, 200);
        let regions = sanity_regions(n);
        for (i, count) in [200usize, 20, 2].into_iter().enumerate() {
            let (start, end) = regions[i];
            assert_eq!(sweep[i], sanity_positions(start, end, count));
            assert_eq!(sweep[i].len(), if end - start < 8 { 0 } else { count });
            assert!(sweep[i].iter().all(|p| start <= *p && p + 8 <= n - 32));
        }
    }
    assert_eq!(sanity_sweep(3_000_000, 100)[1].len(), 10);
    assert_eq!(sanity_sweep(3_000_000, 100)[2], vec![2_989_968]);
}

#[test]
fn converted_digits_agree_with_the_formula() {
    let mut sink = WriterSink::new();
    Chudnovsky.compute(500, &mut sink, &mut NoopProgress).unwrap();
    let hex = convert_decimal_to_hex(sink.text().as_bytes(), &mut NoopProgress).unwrap();
    let bytes = hex.as_bytes();
    let (start, n) = scan_hex_file(bytes.len() as u64, &bytes[..2], bytes).unwrap();
    assert_eq!((start, n), (2, 414));
    assert_eq!(checkable_digits(n), 382);
    for pos in 0..=checkable_digits(n) - 8 {
        let at = (start + pos) as usize;
        assert_eq!(check_position(&bytes[at..at + 8], pos), Ok(()));
    }
    assert_eq!(checkable_digits(31), 0);
    assert_eq!(checkable_digits(32), 0);
    assert_eq!(checkable_digits(33), 1);
}

#[test]
fn windows_end_with_the_file() {
    let w = window_at(5_000_000, 10, 7);
    assert_eq!((w.start, w.max_offset, w.samples), (10, 999_992, 7));
    let w = window_at(1_000, 500, 7);
    assert_eq!((w.start, w.max_offset, w.samples), (500, 492, 7));
    let w = window_at(1_000, 992, 7);
    assert_eq!((w.start, w.max_offset, w.samples), (992, 0, 1));
}

#[test]
fn random_positions_fit_the_file() {
    assert_eq!(draw_positions(7, 3), Err(ScanError::NothingToSample));
    assert_eq!(draw_positions(39, 3), Err(ScanError::NothingToSample));
    assert_eq!(draw_positions(40, 3), Ok(vec![0]));
    let mut seen = Vec::new();
    for _ in 0..50 {
        let v = draw_positions(3_000_000, 4).unwrap();
        assert!(v.len() == 4 || v.len() == 1);
        for p in v {
            assert!(p + 8 <= 2_999_968);
            seen.push(p);
        }
    }
    // Not all draws are the same.
    assert!(seen.iter().any(|p| *p != seen[0]));
}

#[test]
fn digits_of_a_file_are_checked() {
    assert_eq!(check_position(b"243f6a88", 0), Ok(()));
    assert_eq!(check_position(b"243F6A88", 0), Ok(()));
    assert_eq!(check_position(b"85a308d3", 8), Ok(()));
    let e = check_position(b"243f6a89", 0).unwrap_err();
    assert_eq!(e, CheckError::Mismatch { pos: 0, file: 0x243f_6a89, bbp: 0x243f_6a88 });
    assert_eq!(
        e.to_text(),
        "MISMATCH at hex position 0:\n  file: 0x243f6a89\n  bbp:  0x243f6a88"
    );
    let e = check_digits(b"12g45678", 1_000, 0).unwrap_err();
    assert_eq!(e, CheckError::NonHex { byte: b'g', at: 1_004 });
    assert_eq!(e.to_text(), "non-hex character 0x67 at file byte position 1,004");
    assert_eq!(check_digits(b"00000000", 3, 0), Ok(()));
    assert_eq!(check_digits(b"ffffffff", 3, u32::MAX), Ok(()));
}

#[test]
fn converted_digits_pass_the_check() {
    let hex = convert_decimal_to_hex(DECIMAL.as_bytes(), &mut NoopProgress).unwrap();
    let digits = &hex.as_bytes()[2..];
    for pos in 0..40_usize {
        assert_eq!(check_position(&digits[pos..pos + 8], pos as u64), Ok(()));
    }
}

/// Writes down the phases it is told of.
struct Phases {
    lines: Vec<String>,
}

impl ProgressReporter for Phases {
    fn set_phases(&mut self, _phases: &[Phase]) {}

    fn start_phase(&mut self, name: &str, total: u64) {
        self.lines.push(format!("{name} {total}"));
    }

    fn tick(&mut self) {
        self.lines.push("tick".to_string());
    }

    fn end_phase(&mut self) {
        self.lines.push("end".to_string());
    }

    fn milestone(&mut self, _name: &str) {}
}

#[test]
fn a_conversion_tells_its_phases() {
    let mut p = Phases { lines: Vec::new() };
    assert!(convert_decimal_to_hex(b"2.7", &mut p).is_err());
    assert_eq!(p.lines, ["convert: parse decimal 1"]);
    p.lines.clear();
    assert!(convert_decimal_to_hex(b"3.14", &mut p).is_ok());
    let told = [
        "convert: parse decimal 1",
        "tick",
        "end",
        "convert: build scales 1",
        "tick",
        "end",
        "convert: mul + div 1",
        "tick",
        "end",
        "convert: write hex 1",
    ];
    assert_eq!(p.lines, told);
}

#[test]
fn a_layout_puts_one_point_and_one_line_end() {
    let mut l = Layout::new(true);
    assert_eq!((l.before_fraction(), l.before_fraction(), l.ending()), (".", "", "\n"));
    assert_eq!(Layout::new(false).ending(), "");
}
