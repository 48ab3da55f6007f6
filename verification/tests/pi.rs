//! Digits of pi: the algorithms, their plans and the digits at a position.
use pi_digits::algorithm::{
    Algorithm, AlgorithmKind, Chudnovsky, ComputeError, GaussLegendre, PiAlgorithm,
};
use pi_digits::bbp::hex_digits_at;
use pi_digits::output::{DigitSink, SinkError, WriterSink};
use pi_digits::pi_config::ChudnovskyConfig;
use pi_digits::precision::{PlanError, PrecisionPlan, MAX_DIGITS};
use pi_digits::progress::{NoopProgress, Phase, ProgressReporter, Throttle};

const FIRST_100: &str = "3.141592653589793238462643383279502884197169399375105820974944592307816406286208998628034825342117067";

fn digits_of<A: PiAlgorithm>(algorithm: &A, digits: u64) -> String {
    let mut sink = WriterSink::new().without_trailing_newline();
    algorithm.compute(digits, &mut sink, &mut NoopProgress).unwrap();
    sink.text()
}

#[test]
fn chudnovsky_one_digit() {
    assert_eq!(digits_of(&Chudnovsky, 1), "3");
}

#[test]
fn chudnovsky_fifty_digits() {
    assert_eq!(digits_of(&Chudnovsky, 50), &FIRST_100[..51]);
}

#[test]
fn chudnovsky_one_hundred_digits() {
    assert_eq!(digits_of(&Chudnovsky, 100), FIRST_100);
}

#[test]
fn chudnovsky_one_thousand_digits_match_known_prefix() {
    let out = digits_of(&Chudnovsky, 1_000);
    assert_eq!(out.len(), 1_001);
    assert_eq!(&out[..101], FIRST_100);
}

#[test]
fn gauss_legendre_one_digit() {
    assert_eq!(digits_of(&GaussLegendre, 1), "3");
}

#[test]
fn gauss_legendre_fifty_digits() {
    assert_eq!(digits_of(&GaussLegendre, 50), &FIRST_100[..51]);
}

#[test]
fn gauss_legendre_one_hundred_digits() {
    assert_eq!(digits_of(&GaussLegendre, 100), FIRST_100);
}

#[test]
fn gauss_legendre_one_thousand_digits_match_known_prefix() {
    let out = digits_of(&GaussLegendre, 1_000);
    assert_eq!(out.len(), 1_001);
    assert_eq!(&out[..101], FIRST_100);
}

#[test]
fn both_algorithms_give_the_same_digits() {
    for digits in [2_u64, 3, 10, 777, 5_000] {
        assert_eq!(digits_of(&Chudnovsky, digits), digits_of(&GaussLegendre, digits));
    }
}

#[test]
fn thousandth_digits_are_known() {
    // The last ten of the first thousand digits after the point.
    let out = digits_of(&Chudnovsky, 1_001);
    assert_eq!(&out[out.len() - 10..], "2164201989");
}

#[test]
fn no_digits_only_finish_the_sink() {
    let mut sink = WriterSink::new();
    Chudnovsky.compute(0, &mut sink, &mut NoopProgress).unwrap();
    assert_eq!(sink.text(), "\n");
    let mut sink = WriterSink::new().without_trailing_newline();
    GaussLegendre.compute(0, &mut sink, &mut NoopProgress).unwrap();
    assert_eq!(sink.text(), "");
}

#[test]
fn kinds_build_their_algorithms() {
    let c: Algorithm = AlgorithmKind::Chudnovsky.build();
    let g: Algorithm = AlgorithmKind::GaussLegendre.build();
    assert_eq!(c.name(), "chudnovsky");
    assert_eq!(g.name(), "gauss-legendre");
    assert_eq!(AlgorithmKind::Chudnovsky.to_text(), "chudnovsky");
    assert_eq!(AlgorithmKind::GaussLegendre.to_text(), "gauss-legendre");
    assert_eq!(digits_of(&c, 20), &FIRST_100[..21]);
    assert_eq!(digits_of(&g, 20), &FIRST_100[..21]);
}

#[test]
fn splitting_settings_do_not_change_the_digits() {
    for config in [
        ChudnovskyConfig {
            parallel_split_threshold: 2,
            sequential_top_threshold: 0,
            parallel_final_assembly: true,
        },
        ChudnovskyConfig {
            parallel_split_threshold: 1_000_000,
            sequential_top_threshold: 10,
            parallel_final_assembly: false,
        },
    ] {
        let mut sink = WriterSink::new().without_trailing_newline();
        Chudnovsky::compute_with(&config, 2_000, &mut sink, &mut NoopProgress).unwrap();
        assert_eq!(sink.text(), digits_of(&Chudnovsky, 2_000));
    }
}

#[test]
fn too_many_digits_reach_no_sink() {
    let mut sink = WriterSink::new();
    let err = Chudnovsky
        .compute(MAX_DIGITS + 1, &mut sink, &mut NoopProgress)
        .unwrap_err();
    match err {
        ComputeError::Plan(e) => assert_eq!(e, PlanError::TooManyDigits { digits: MAX_DIGITS + 1 }),
        ComputeError::Sink(_) => panic!("the sink was written to"),
    }
    assert_eq!(sink.text(), "");
}

/// A sink that refuses everything after the integer part.
struct Stubborn {
    calls: usize,
}

impl DigitSink for Stubborn {
    fn write_integer_part(&mut self, _digits: &str) -> Result<(), SinkError> {
        self.calls += 1;
        Ok(())
    }

    fn write_fractional_digits(&mut self, _digits: &str) -> Result<(), SinkError> {
        Err(SinkError { message: "disk full".to_string() })
    }

    fn finish(&mut self) -> Result<(), SinkError> {
        self.calls += 1;
        Ok(())
    }
}

#[test]
fn a_sink_that_fails_ends_the_computation() {
    let mut sink = Stubborn { calls: 0 };
    let err = Chudnovsky.compute(50, &mut sink, &mut NoopProgress).unwrap_err();
    match err {
        ComputeError::Sink(e) => assert_eq!(e.message, "disk full"),
        ComputeError::Plan(_) => panic!("the plan failed"),
    }
    assert_eq!(sink.calls, 1);
}

/// Writes down what it is told.
struct Diary {
    lines: Vec<String>,
}

impl ProgressReporter for Diary {
    fn set_phases(&mut self, phases: &[Phase]) {
        let all: Vec<String> = phases.iter().map(|p| format!("{} {}", p.name, p.total)).collect();
        self.lines.push(all.join(", "));
    }

    fn start_phase(&mut self, name: &str, total: u64) {
        self.lines.push(format!("start {name} {total}"));
    }

    fn tick(&mut self) {
        self.lines.push("tick".to_string());
    }

    fn end_phase(&mut self) {
        self.lines.push("end".to_string());
    }

    fn milestone(&mut self, name: &str) {
        self.lines.push(name.to_string());
    }
}

const CONVERSION: [&str; 9] = [
    "start decimal conversion 1",
    "dc.scale_build.start",
    "dc.scale_build.end",
    "dc.scale_mul.start",
    "dc.scale_mul.end",
    "dc.to_integer.start",
    "dc.to_integer.end",
    "dc.to_string.start",
    "dc.to_string.end",
];

#[test]
fn phases_of_the_series_are_told_in_order() {
    let mut diary = Diary { lines: Vec::new() };
    Chudnovsky.compute(100, &mut WriterSink::new(), &mut diary).unwrap();
    // 100 digits take 8 terms and 8 more.
    let mut expected = vec![
        "binary splitting 16, final assembly 4, decimal conversion 1",
        "start binary splitting 16",
    ];
    expected.extend(vec!["tick"; 16]);
    expected.extend(["end", "start final assembly 3", "tick", "tick", "tick", "end"]);
    expected.extend(CONVERSION);
    expected.extend(["tick", "end"]);
    assert_eq!(diary.lines, expected);
}

#[test]
fn phases_of_the_iteration_are_told_in_order() {
    let mut diary = Diary { lines: Vec::new() };
    GaussLegendre.compute(10, &mut WriterSink::new(), &mut diary).unwrap();
    let bits = PrecisionPlan::for_digits(10).unwrap().precision_bits;
    assert_eq!(bits, 290);
    let mut expected = vec![
        "initialization 1, agm iterations 11, final assembly 1, decimal conversion 1",
        "start initialization 1",
        "tick",
        "end",
        "start agm iterations 11",
    ];
    expected.extend(vec!["tick"; 11]);
    expected.extend(["end", "start final assembly 1", "tick", "end"]);
    expected.extend(CONVERSION);
    expected.extend(["tick", "end"]);
    assert_eq!(diary.lines, expected);
}

#[test]
fn a_sink_that_fails_leaves_the_conversion_open() {
    let mut diary = Diary { lines: Vec::new() };
    assert!(GaussLegendre.compute(10, &mut Stubborn { calls: 0 }, &mut diary).is_err());
    assert_eq!(diary.lines.last().unwrap(), "dc.to_string.end");
}

#[test]
fn without_digits_nothing_is_told() {
    let mut diary = Diary { lines: Vec::new() };
    Chudnovsky.compute(0, &mut WriterSink::new(), &mut diary).unwrap();
    assert!(Chudnovsky.compute(MAX_DIGITS + 1, &mut WriterSink::new(), &mut diary).is_err());
    GaussLegendre.compute(0, &mut WriterSink::new(), &mut diary).unwrap();
    assert!(diary.lines.is_empty());
}

#[test]
fn more_digits_keep_the_first_ones() {
    let long = digits_of(&Chudnovsky, 400);
    for digits in [1, 2, 7, 100, 399] {
        let end = if digits == 1 { 1 } else { digits as usize + 1 };
        assert_eq!(digits_of(&Chudnovsky, digits), &long[..end]);
        assert_eq!(digits_of(&GaussLegendre, digits), &long[..end]);
    }
}

#[test]
fn updates_are_thinned_out() {
    let mut t = Throttle::start(1_000);
    assert_eq!(t.tick_every, 10);
    let shown: Vec<u64> = (0..30).filter_map(|_| t.tick()).collect();
    assert_eq!(shown, vec![10, 20, 30]);
    let mut t = Throttle::start(5);
    assert_eq!(t.tick(), Some(1));
    assert_eq!(t.tick(), Some(2));
}

/// First 16 hex digits of pi's fractional expansion: `243F6A8885A308D3`.
const PI_HEX_PREFIX: [u8; 16] = [
    0x2, 0x4, 0x3, 0xF, 0x6, 0xA, 0x8, 0x8, 0x8, 0x5, 0xA, 0x3, 0x0, 0x8, 0xD, 0x3,
];

#[test]
fn first_8_hex_digits_packed() {
    assert_eq!(hex_digits_at(0), 0x243F_6A88);
}

#[test]
fn next_8_hex_digits_packed() {
    assert_eq!(hex_digits_at(8), 0x85A3_08D3);
}

#[test]
fn top_nibble_matches_each_of_first_16_positions() {
    for (n, &expected) in PI_HEX_PREFIX.iter().enumerate() {
        let d = hex_digits_at(n as u64);
        let top = ((d >> 28) & 0xf) as u8;
        assert_eq!(top, expected, "position {n}: got {top:x}, expected {expected:x}");
    }
}

#[test]
fn consecutive_positions_overlap() {
    for n in 0..16_u64 {
        let dn = hex_digits_at(n);
        let dn1 = hex_digits_at(n + 1);
        let dn_low7 = dn & 0x0FFF_FFFF;
        let dn1_top7 = dn1 >> 4;
        assert_eq!(dn_low7, dn1_top7, "overlap mismatch at n={n}");
    }
}

#[test]
fn deeper_position_exercises_loop() {
    let d = hex_digits_at(10_000);
    // Eight hexadecimal digits from position 10,000 on.
    assert_eq!(d, 0x8AC8_FCFB);
}

#[test]
fn zero_digits_gives_empty_plan() {
    let plan = PrecisionPlan::for_digits(0).unwrap();
    assert_eq!(plan.digits, 0);
    assert_eq!(plan.precision_bits, 0);
}

#[test]
fn one_million_digits_fits_in_u64_precision() {
    let plan = PrecisionPlan::for_digits(1_000_000).unwrap();
    assert!(plan.precision_bits > 3_321_928);
    assert!(plan.precision_bits < 3_322_500);
}

#[test]
fn ten_billion_digits_planned_without_u32_overflow() {
    let plan = PrecisionPlan::for_digits(10_000_000_000).unwrap();
    assert!(plan.precision_bits > 33_219_280_000);
    assert!(plan.precision_bits as u128 > u32::MAX as u128);
}

#[test]
fn too_many_digits_is_a_clean_error() {
    let err = PrecisionPlan::for_digits(MAX_DIGITS + 1).unwrap_err();
    let msg = err.to_text();
    assert!(msg.contains("exceeds the supported maximum"), "got: {msg}");
}

#[test]
fn precision_follows_double_arithmetic() {
    for digits in [1_u64, 2, 10, 99, 1_000, 123_456, 1_000_000, 9_999_999_999] {
        let expected = (digits as f64 * std::f64::consts::LOG2_10).ceil() as u64 + 256;
        let plan = PrecisionPlan::for_digits(digits).unwrap();
        assert_eq!(plan.precision_bits, expected, "{digits} digits");
    }
}

#[test]
fn plan_errors_in_words() {
    let e = PlanError::TooPrecise { digits: 7, bits: 8, cap: 9 };
    assert_eq!(
        e.to_text(),
        "7 digits requires 8 bits of working precision, which exceeds MPFR's cap (9)"
    );
}
