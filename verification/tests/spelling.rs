//! Values and what they spell, and what holds between several calls.
use pi_digits::algorithm::{Chudnovsky, ComputeError, GaussLegendre, PiAlgorithm};
use pi_digits::bbp::{hex_digits_at, DigitSearch};
use pi_digits::config_gen::{generate, pick_knobs};
use pi_digits::digits::write_decimal_digits;
use pi_digits::float::Float;
use pi_digits::float_ops::{F64Bits, Round};
use pi_digits::hardware::HardwareProfile;
use pi_digits::integer::{add_signed, neg_signed, sub_signed, Integer};
use pi_digits::intervals::{coverage_text, IntervalSet};
use pi_digits::magnitude::{shl_mag, shr_mag};
use pi_digits::multiply::{mul_mag_karatsuba, mul_mag_schoolbook};
use pi_digits::ntt_mul::mul_mag_ntt;
use pi_digits::numerals::decimal_digits_estimate;
use pi_digits::operators::PowAssign;
use pi_digits::output::{DigitSink, SinkError, WriterSink};
use pi_digits::progress::NoopProgress;
use pi_digits::storage::{mmap_bytes_live, mmap_count_live, LimbStorage, Scratch};

fn float(prec: u64, v: f64) -> Float {
    Float::with_val_64(prec, F64Bits(v.to_bits()))
}

fn spelled(prec: u64, v: f64, digits: u64) -> String {
    let mut sink = WriterSink::new().without_trailing_newline();
    write_decimal_digits(float(prec, v), digits, &mut sink, &mut NoopProgress).unwrap();
    sink.text()
}

#[test]
fn values_below_one_are_filled_up() {
    assert_eq!(spelled(128, 0.5, 3), "0.50");
    assert_eq!(spelled(128, 0.0625, 5), "0.0625");
    assert_eq!(spelled(128, 0.0, 4), "0.000");
    assert_eq!(spelled(64, 0.25, 1), "0");
}

#[test]
fn digits_are_cut_off_not_rounded() {
    assert_eq!(spelled(128, 2.96875, 2), "2.9");
    assert_eq!(spelled(128, 2.96875, 6), "2.96875");
    assert_eq!(spelled(64, 9.75, 1), "9");
}

#[test]
fn values_from_ten_on_keep_their_first_digits() {
    assert_eq!(spelled(128, 31.25, 2), "3.1");
    assert_eq!(spelled(128, 31.25, 4), "3.125");
}

#[test]
fn powers_that_fit_are_exact() {
    let mut ten = Float::with_val_64(128, 10u32);
    ten.pow_assign_integer(&Integer::from(5u32));
    assert!(ten == Float::with_val_64(128, 100_000u32));
    assert_eq!(ten.prec_64(), 128);
    let mut minus_three = Float::with_val_64(64, -3i32);
    minus_three.pow_assign(&Integer::from(3u32));
    assert!(minus_three == Float::with_val_64(64, -27i32));
    let mut zero = Float::with_val_64(64, 0u32);
    zero.pow_assign_integer(&Integer::from(0u32));
    assert!(zero == Float::with_val_64(64, 1u32));
    let mut large = Float::with_val_64(64, 10u32);
    large.pow_assign_integer(&Integer::from(19u32));
    assert!(large == Float::with_val_64(64, 10_000_000_000_000_000_000u64));
}

#[test]
fn halves_go_to_the_even_neighbour() {
    let at_two_bits = |v: u32| Float::with_val_64(2, v);
    assert!(at_two_bits(5) == Float::with_val_64(2, 4u32));
    assert!(at_two_bits(7) == Float::with_val_64(2, 8u32));
    assert!(at_two_bits(9) == Float::with_val_64(2, 8u32));
    assert!(at_two_bits(11) == Float::with_val_64(2, 12u32));
    let (n, _) = at_two_bits(5).to_integer_round(Round::Down).unwrap();
    assert_eq!(n.to_string_radix(10), "4");
    assert_eq!(at_two_bits(5).prec_64(), 2);
}

#[test]
fn bits_that_are_cut_off_break_a_tie() {
    let power = Integer::u_pow_u(2, 400);
    let tie = &power * 5u32;
    let above = &tie + 1u32;
    let two_bits = |n: &Integer| Float::from(n).truncated_to_prec(2);
    let spelled = |f: Float| f.to_integer_round(Round::Down).unwrap().0;
    assert!(spelled(two_bits(&tie)) == &power * 4u32);
    assert!(spelled(two_bits(&above)) == &power * 6u32);
    assert!(two_bits(&above) == Float::with_val_64(2, &above));
}

#[test]
fn products_do_not_depend_on_method_or_order() {
    let a: Vec<u64> = (1..80u64).map(|i| i.wrapping_mul(0x9e37_79b9_7f4a_7c15)).collect();
    let b: Vec<u64> = (1..50u64).map(|i| i.wrapping_mul(0xc2b2_ae3d_27d4_eb4f)).collect();
    let product = mul_mag_schoolbook(&a, &b);
    assert_eq!(mul_mag_karatsuba(&a, &b), product);
    assert_eq!(mul_mag_ntt(&b, &a), product);
    assert_eq!(mul_mag_ntt(&a, &[]), Vec::<u64>::new());
    let x = float(64, 1.5);
    let y = float(64, -2.25);
    assert!(x.mul_at_prec(&y, 20) == y.mul_at_prec(&x, 20));
    assert!(x.mul_at_prec(&y, 20) == float(20, -3.375));
}

#[test]
fn sums_and_powers_keep_their_laws() {
    let a = Integer::parse_radix("-123456789012345678901234567890", 10).unwrap();
    let b = Integer::from(97u32);
    let sum = add_signed(&a, &b);
    assert!(add_signed(&b, &a) == sum);
    assert!(sub_signed(&sum, &b) == a);
    let zero = add_signed(&a, &neg_signed(&a));
    assert!(zero.limbs.is_empty() && !zero.negative);
    assert!(a.pow_u32(5) == &a.pow_u32(2) * &a.pow_u32(3));
    assert!(a.pow_u32(1) == a);
    assert!(Integer::new().pow_u32(0) == Integer::from(1u32));
    assert!(a.pow_u32(5).negative && !a.pow_u32(4).negative);
    let limbs = [3u64, 0, 7];
    for n in [0u64, 1, 63, 64, 130, 192] {
        assert_eq!(shr_mag(&shl_mag(&limbs, n), n), limbs.to_vec());
    }
    assert_eq!(shr_mag(&limbs, 131), Vec::<u64>::new());
    assert_eq!(shr_mag(&limbs, 130), vec![1]);
}

#[test]
fn digit_estimates_are_those_of_doubles() {
    assert_eq!(decimal_digits_estimate(0), 0);
    assert_eq!(decimal_digits_estimate(1), 1);
    assert_eq!(decimal_digits_estimate(1000), 302);
    assert_eq!(decimal_digits_estimate(210_960_791), 63_505_526);
    assert_eq!(decimal_digits_estimate(u64::MAX), u32::MAX);
}

#[test]
fn conversions_choose_the_precision() {
    let a = Float::from(7u32);
    assert_eq!((a.prec, a.sign, a.exp), (64, false, 0));
    let b = Float::from(u64::MAX);
    assert_eq!((b.prec, b.sign, b.exp), (64, false, 0));
    let c = Float::from(-7i32);
    assert_eq!((c.prec, c.sign, c.exp), (64, true, 0));
    let d = Float::from(i64::MIN);
    assert_eq!((d.prec, d.sign), (64, true));
    assert!(d == Float::with_val_64(64, i64::MIN));
    let long = Integer::u_pow_u(10, 30);
    let e = Float::from(&long);
    assert_eq!((e.prec, e.sign, e.exp), (100, false, 0));
    let f = Float::from(long);
    assert!(e == f);
    let g = Float::from(&f);
    assert_eq!(g.prec, 100);
    assert!(f == g);
}

#[test]
fn short_operands_multiply_by_halves() {
    let a = [0xffff_ffff_ffff_fff1u64, 2, 3];
    let b = [5u64, 0xffff_ffff_ffff_ffff];
    assert_eq!(mul_mag_karatsuba(&a, &b), mul_mag_schoolbook(&a, &b));
    assert_eq!(mul_mag_karatsuba(&a, &[9]), mul_mag_schoolbook(&a, &[9]));
    assert_eq!(mul_mag_karatsuba(&[3], &[4]), vec![12]);
}

fn digits_of(a: &impl PiAlgorithm, digits: u64) -> String {
    let mut sink = WriterSink::new().without_trailing_newline();
    a.compute(digits, &mut sink, &mut NoopProgress).unwrap();
    sink.text()
}

#[test]
fn both_algorithms_keep_their_first_digits() {
    let long = digits_of(&Chudnovsky, 120);
    let longer = digits_of(&GaussLegendre, 90);
    for digits in [2u64, 3, 20, 50, 89] {
        assert!(long.starts_with(&digits_of(&Chudnovsky, digits)));
        assert!(longer.starts_with(&digits_of(&GaussLegendre, digits)));
    }
    assert!(long.starts_with(&longer));
}

#[test]
fn windows_overlap_in_seven_digits() {
    for n in [0u64, 1, 7, 100, 4095] {
        assert_eq!(hex_digits_at(n) & 0x0FFF_FFFF, hex_digits_at(n + 1) >> 4);
    }
}

#[test]
fn generated_text_sets_what_was_picked() {
    let hw = HardwareProfile {
        logical_cores: 16,
        physical_cores: 8,
        ram_bytes: 32 << 30,
        os: "linux",
        arch: "x86_64",
    };
    let k = pick_knobs(1_000_000_000, &hw);
    let text = generate(1_000_000_000, &hw);
    let set: Vec<&str> = text.lines().filter(|l| !l.is_empty() && !l.starts_with('#')).collect();
    assert_ne!(k.disk_limb_threshold, usize::MAX);
    let expected = vec![
        "[runtime]".to_string(),
        "threads = 0".to_string(),
        "[bignum]".to_string(),
        "karatsuba_threshold = 32".to_string(),
        format!("parallel_karatsuba_threshold = {}", k.parallel_karatsuba_threshold),
        "ntt_threshold = 8192".to_string(),
        "newton_div_threshold = 64".to_string(),
        format!("disk_limb_threshold = {}", k.disk_limb_threshold),
        "[bignum.ntt]".to_string(),
        format!("target_task_size = {}", k.ntt_target_task_size),
        "parallel_pack_threshold = 1024".to_string(),
        "parallel_pointwise_threshold = 1024".to_string(),
        "[chudnovsky]".to_string(),
        format!("parallel_split_threshold = {}", k.parallel_split_threshold),
        format!("sequential_top_threshold = {}", k.sequential_top_threshold),
        format!("parallel_final_assembly = {}", k.parallel_final_assembly),
        "[decimal_conversion]".to_string(),
        "to_string_dc_threshold = 32".to_string(),
        format!("parallel_to_string_threshold = {}", k.parallel_to_string_threshold),
        "[perf]".to_string(),
        format!("default_sample_ms = {}", k.default_sample_ms),
    ];
    assert_eq!(set, expected);
}

#[test]
fn live_bytes_are_those_of_the_buffers_that_live() {
    let mut scratch = Scratch::new(2);
    let a = LimbStorage::allocate_zeroed(&mut scratch, 1, 3);
    let b = LimbStorage::allocate_zeroed(&mut scratch, 1, 5);
    let c = LimbStorage::allocate_zeroed(&mut scratch, 1, 1);
    assert_eq!((mmap_bytes_live(&scratch), mmap_count_live(&scratch)), (64, 2));
    assert!(a.release(&mut scratch).is_some());
    assert_eq!((mmap_bytes_live(&scratch), mmap_count_live(&scratch)), (40, 1));
    assert!(c.release(&mut scratch).is_none());
    let d = b.duplicate(&mut scratch, 1);
    assert_eq!((mmap_bytes_live(&scratch), mmap_count_live(&scratch)), (80, 2));
    assert!(d.release(&mut scratch).is_some());
    assert!(b.release(&mut scratch).is_some());
    assert_eq!((mmap_bytes_live(&scratch), mmap_count_live(&scratch)), (0, 0));
}

/// Takes so many pieces and refuses the next one.
struct Limited {
    room: usize,
    taken: Vec<String>,
}

impl Limited {
    fn take(&mut self, piece: &str) -> Result<(), SinkError> {
        if self.taken.len() == self.room {
            return Err(SinkError { message: format!("no room for {piece}") });
        }
        self.taken.push(piece.to_string());
        Ok(())
    }
}

impl DigitSink for Limited {
    fn write_integer_part(&mut self, digits: &str) -> Result<(), SinkError> {
        self.take(digits)
    }

    fn write_fractional_digits(&mut self, digits: &str) -> Result<(), SinkError> {
        self.take(digits)
    }

    fn finish(&mut self) -> Result<(), SinkError> {
        self.take("end")
    }
}

#[test]
fn a_refusal_leaves_what_was_taken_before_it() {
    let pieces = ["3", "1415", "end"];
    for room in 0..3usize {
        for digits in [5u64, 0] {
            let all: Vec<&str> = if digits == 0 { vec!["end"] } else { pieces.to_vec() };
            let mut sink = Limited { room, taken: Vec::new() };
            let r = Chudnovsky.compute(digits, &mut sink, &mut NoopProgress);
            if room < all.len() {
                match r.unwrap_err() {
                    ComputeError::Sink(e) => {
                        assert_eq!(e.message, format!("no room for {}", all[room]))
                    }
                    ComputeError::Plan(_) => panic!("the plan failed"),
                }
                assert_eq!(sink.taken, all[..room].to_vec());
            } else {
                assert!(r.is_ok());
                assert_eq!(sink.taken, all);
            }
        }
    }
}

#[test]
fn a_search_in_steps_finds_the_digits() {
    for n in [0u64, 1, 8, 999, 10_000] {
        for terms in [1u64, 7, 1_000, u64::MAX] {
            if terms == 1 && n > 1_000 {
                continue;
            }
            let mut search = DigitSearch::start(n);
            let mut steps: u64 = 1;
            let digits = loop {
                if let Some(d) = search.advance(terms) {
                    break d;
                }
                steps += 1;
            };
            assert_eq!(digits, hex_digits_at(n));
            assert_eq!(steps, 4 * (n / terms + 1));
            assert_eq!(search.advance(terms), Some(digits));
        }
    }
}

#[test]
fn intervals_join_where_they_touch() {
    let mut s = IntervalSet::new();
    assert_eq!((s.covered(), s.count()), (0, 0));
    s.insert(100, 108);
    s.insert(20, 28);
    s.insert(60, 68);
    assert_eq!(s.spans, vec![(20, 28), (60, 68), (100, 108)]);
    assert_eq!((s.covered(), s.count()), (24, 3));
    s.insert(28, 36);
    assert_eq!(s.spans, vec![(20, 36), (60, 68), (100, 108)]);
    s.insert(64, 72);
    assert_eq!(s.spans, vec![(20, 36), (60, 72), (100, 108)]);
    s.insert(61, 70);
    s.insert(5, 5);
    s.insert(9, 3);
    assert_eq!((s.covered(), s.count()), (36, 3));
    s.insert(30, 100);
    assert_eq!(s.spans, vec![(20, 108)]);
    assert_eq!((s.covered(), s.count()), (88, 1));
    s.insert(u64::MAX - 8, u64::MAX);
    s.insert(0, 8);
    assert_eq!((s.covered(), s.count()), (104, 3));
}

#[test]
fn coverage_is_told_in_words() {
    assert_eq!(
        coverage_text(12_345_678, 8_300_000_000, 1234),
        "covered 12,345,678 of 8,300,000,000 verifiable hex digits (0.14874%) across 1234 disjoint intervals"
    );
    assert_eq!(
        coverage_text(0, 0, 0),
        "covered 0 of 0 verifiable hex digits (0.00000%) across 0 disjoint intervals"
    );
    assert_eq!(
        coverage_text(8, 8, 1),
        "covered 8 of 8 verifiable hex digits (100.00000%) across 1 disjoint intervals"
    );
}
