//! Laws of the arithmetic on concrete values, and edge cases.
use pi_digits::bbp::series_fixed;
use pi_digits::double::Double;
use pi_digits::field::{inv, mul, pow, primitive_root_of_unity};
use pi_digits::float::Float;
use pi_digits::float_ops::{F64Bits, Round};
use pi_digits::integer::{div_rem_small, Integer};
use pi_digits::newton_div::div_rem_signed;
use pi_digits::numerals::ParseIntegerError;
use pi_digits::operators::{Assign, Pow, PowAssign};
use pi_digits::twiddles::TwiddleCache;

fn number(s: &str) -> Integer {
    Integer::parse_radix(s, 10).unwrap()
}

#[test]
fn division_rounds_toward_zero() {
    for (a, b, q, r) in [(7, 2, 3, 1), (-7, 2, -3, -1), (7, -2, -3, 1), (-7, -2, 3, -1), (0, 5, 0, 0)] {
        let x = Integer::from(a as i64);
        let y = Integer::from(b as i64);
        assert_eq!(&x / &y, Integer::from(q as i64));
        assert_eq!(&x % &y, Integer::from(r as i64));
        assert_eq!(&(&(&x / &y) * &y) + &(&x % &y), x);
    }
}

#[test]
fn rendering_and_parsing_undo_each_other() {
    for s in ["0", "-1", "10", "-123456789012345678901234567890", "99999999999999999999"] {
        let n = number(s);
        assert_eq!(n.to_string_radix(10), s);
        assert_eq!(Integer::parse_radix(&n.to_string_radix(16), 16).unwrap(), n);
        assert_eq!(n.to_text(), s);
    }
}

#[test]
fn parsing_failures_say_why() {
    let why = |s: &str, radix: u32| -> String {
        let e: ParseIntegerError = Integer::parse_radix(s, radix).unwrap_err();
        e.0
    };
    assert_eq!(why("", 10), "empty string");
    assert_eq!(why("-", 10), "no digits");
    assert_eq!(why("+", 16), "no digits");
    assert_eq!(why("12", 7), "unsupported radix 7");
    assert!(why("12a", 10).contains("a"));
    assert_eq!(Integer::parse_radix("+17", 10).unwrap(), Integer::from(17_u32));
    assert_eq!(Integer::parse_radix("FF", 16).unwrap(), Integer::from(255_u32));
}

#[test]
fn every_operator_form_agrees() {
    let a = number("123456789012345678901234567890");
    let b = number("987654321");
    let sum = number("123456789012345678902222222211");
    assert_eq!(&a + &b, sum);
    assert_eq!(a.clone() + &b, sum);
    assert_eq!(&a + b.clone(), sum);
    assert_eq!(a.clone() + b.clone(), sum);
    assert_eq!(&a + 987_654_321_u32, sum);
    assert_eq!(a.clone() + 987_654_321_u64, sum);
    assert_eq!(987_654_321_u64 + &a, sum);
    let mut c = a.clone();
    c += &b;
    assert_eq!(c, sum);
    c -= b.clone();
    assert_eq!(c, a);
    c += 1_u32;
    c -= 1_u32;
    c *= 3_u32;
    assert_eq!(c, &a * 3_u32);
    assert_eq!(&a - &a, Integer::new());
    assert_eq!(10_u32 - Integer::from(12_u32), Integer::from(-2_i32));
    assert_eq!(100_u32 / Integer::from(7_u32), Integer::from(14_u32));
    assert_eq!(100_u64 % Integer::from(7_u32), Integer::from(2_u32));
    assert_eq!(-(&a), Integer::new() - a.clone());
}

#[test]
fn integers_are_ordered() {
    let v: Vec<Integer> = ["-1000000000000000000000", "-1", "0", "5", "18446744073709551616"]
        .iter()
        .map(|s| number(s))
        .collect();
    for i in 0..v.len() {
        for j in 0..v.len() {
            assert_eq!(v[i].partial_cmp(&v[j]), Some(i.cmp(&j)));
            assert_eq!(v[i] < v[j], i < j);
        }
    }
}

#[test]
fn powers_and_assignments() {
    assert_eq!(Integer::from(-3_i32).pow(3_u32), Integer::from(-27_i32));
    assert_eq!((&Integer::from(2_u32)).pow(100_u32), Integer::u_pow_u(2, 100));
    assert_eq!(Integer::from(5_u32).pow(0_u32), Integer::from(1_u32));
    let mut x = Integer::from(1_u32);
    Assign::assign(&mut x, &Integer::from(9_u32));
    assert_eq!(x, Integer::from(9_u32));
    x.assign(Integer::from(4_u32));
    assert_eq!(x, Integer::from(4_u32));
    let mut f = Float::with_val_64(64, 3_u32);
    f.pow_assign(&Integer::from(4_u32));
    assert!(f == Float::with_val_64(64, 81_u32));
    let mut g = Float::with_val_64(64, 0_u32);
    Assign::assign(&mut g, &f);
    assert!(g == f);
}

#[test]
fn shifts_multiply_by_powers_of_two() {
    let mut a = number("-12345678901234567890");
    a <<= 3_i32;
    assert_eq!(a, number("-98765431209876543120"));
    a <<= 0_u32;
    assert_eq!(a, number("-98765431209876543120"));
}

#[test]
fn small_divisors() {
    let (q, r) = div_rem_small(&number("100000000000000000000"), 7);
    assert_eq!(q, number("14285714285714285714"));
    assert_eq!(r, 2);
    let (q, r) = div_rem_signed(&number("100000000000000000000"), &number("30000000000000000000"));
    assert_eq!(q, Integer::from(3_u32));
    assert_eq!(r, number("10000000000000000000"));
}

#[test]
fn floors_go_down() {
    let half = Float::with_val_64(64, F64Bits(0.5_f64.to_bits()));
    let seven = Float::with_val_64(64, 7_u32);
    let x = &half * &seven;
    let (f, _) = x.to_integer_round(Round::Down).unwrap();
    assert_eq!(f, Integer::from(3_u32));
    let y = &Float::with_val_64(64, 0_u32) - &x;
    let (f, _) = y.to_integer_round(Round::Down).unwrap();
    assert_eq!(f, Integer::from(-4_i32));
}

#[test]
fn float_operators_with_integers() {
    let x = Float::with_val_64(128, 10_u32);
    assert!(&x + 5_u32 == Float::with_val_64(128, 15_u32));
    assert!(&x - &Integer::from(11_u32) == Float::with_val_64(128, -1_i32));
    assert!(x.clone() * Integer::from(3_u32) == Float::with_val_64(128, 30_u32));
    let mut y = x.clone();
    y += &x;
    y -= 1_u32;
    y *= Integer::from(2_u32);
    assert!(y == Float::with_val_64(128, 38_u32));
    y /= 2_u32;
    let (f, _) = (&y + &Float::with_val_64(128, F64Bits(0.25_f64.to_bits())))
        .to_integer_round(Round::Down)
        .unwrap();
    assert_eq!(f, Integer::from(19_u32));
}

#[test]
fn inverses_in_the_field() {
    for a in [1_u64, 2, 3, 5, 17, 257, 65_537, 0xFFFF_FFFF_0000_0000, 0x1234_5678_9ABC_DEF0] {
        assert_eq!(mul(a, inv(a)), 1);
    }
    assert_eq!(inv(0), 0);
}

fn value(d: Double) -> f64 {
    d.mant as f64 * 2.0_f64.powi(d.exp)
}

#[test]
fn doubles_match_the_machine() {
    let xs = [1_u64, 2, 3, 7, 10, 100_000_000, (1 << 53) - 1, 1 << 53, (1 << 53) + 1, u64::MAX, 0x1234_5678_9ABC_DEF1];
    for a in xs {
        let x = Double::from_u64(a);
        assert_eq!(value(x), a as f64);
        for b in xs {
            let y = Double::from_u64(b);
            assert_eq!(value(x.times(y)), a as f64 * b as f64, "{a} * {b}");
            assert_eq!(value(x.over(y)), a as f64 / b as f64, "{a} / {b}");
            assert_eq!(x.less(y), (a as f64) < (b as f64), "{a} < {b}");
        }
    }
}

#[test]
fn doubles_are_printed_to_places() {
    for (a, b) in [(1_u64, 4_u64), (3, 4), (5, 2), (1, 2), (7, 2), (1, 3), (2, 3), (1234567, 10), (1, 1000)] {
        let d = Double::from_u64(a).over(Double::from_u64(b));
        let f = a as f64 / b as f64;
        let mut s0 = String::new();
        d.push_fixed(&mut s0, 0);
        assert_eq!(s0, format!("{f:.0}"));
        let mut s1 = String::new();
        d.push_fixed(&mut s1, 1);
        assert_eq!(s1, format!("{f:.1}"));
        let mut s3 = String::new();
        d.push_fixed(&mut s3, 3);
        assert_eq!(s3, format!("{f:.3}"));
    }
}

#[test]
fn roots_of_unity_are_primitive() {
    for n in [1, 2, 3, 4, 5, 15, 16, 17, 64, 257] {
        let root = primitive_root_of_unity(n);
        assert_eq!(pow(root, n), 1);
        for d in 1..n {
            assert_ne!(pow(root, d), 1);
        }
    }
}

#[test]
fn sums_of_doubles_match_the_machine() {
    let numbers = [0u64, 1, 3, 10, 0xffff_ffff, 0x1f_ffff_ffff_ffff, 0x20_0000_0000_0001, u64::MAX];
    for a in numbers {
        for b in numbers {
            for scale in [0i32, 1, 53, 54, 60, 61, 80, 200] {
                let x = Double::from_u64(a);
                let y = Double::from_u64(b);
                let y = Double { mant: y.mant, exp: y.exp - scale };
                let expected = a as f64 + b as f64 * 2f64.powi(-scale);
                assert_eq!(value(x.plus(y)), expected, "{a} + {b} / 2^{scale}");
                assert_eq!(value(y.plus(x)), expected, "{b} / 2^{scale} + {a}");
            }
        }
    }
    assert_eq!(Double { mant: 5, exp: -1 }.to_whole(0), 2);
    assert_eq!(Double { mant: 5, exp: -1 }.to_whole(3), 20);
    assert_eq!(Double { mant: 5, exp: -100 }.to_whole(0), 0);
}

/// The sum that stands for one of the series, in hardware arithmetic.
fn series_on_the_machine(j: u64, n: u64) -> u64 {
    let mut sum: u64 = 0;
    for k in 0..=n {
        let d = 8 * k + j;
        let mut power: u128 = 1 % d as u128;
        for _ in 0..n - k {
            power = power * 16 % d as u128;
        }
        sum = sum.wrapping_add(((power << 64) / d as u128) as u64);
    }
    let mut tail = 0.0_f64;
    for o in 1..=20 {
        tail += 1.0 / (16.0_f64.powi(o) * (8 * (n + o as u64) + j) as f64);
    }
    sum.wrapping_add((tail * 2.0_f64.powi(64)) as u64)
}

#[test]
fn series_match_the_machine() {
    for n in [0, 1, 2, 7, 50, 333] {
        for j in [1, 4, 5, 6] {
            assert_eq!(series_fixed(j, n), series_on_the_machine(j, n), "series {j} at {n}");
        }
    }
}

#[test]
fn both_divisions_agree() {
    let one = Float::with_val_64(256, 1u32);
    let three = Float::from_f64_at_prec(F64Bits(3.0_f64.to_bits()), 256);
    assert_eq!(three.mantissa.bits() as i64 + three.exp, 2);
    let long = one.div_at_prec_knuth(&three, 200);
    let short = one.div_at_prec(&three, 200);
    assert_eq!(long, short);
    assert_eq!(long.prec_64(), 200);
    // Two hundred bits of 0.010101...
    assert_eq!(long.mantissa.bits(), 200);
    assert_eq!(long.mantissa.to_string_radix(16), "a".repeat(49) + "b");
}

#[test]
fn tables_are_built_once() {
    let mut cache = TwiddleCache::new();
    assert_eq!(cache.entry_count(), 0);
    let first = cache.get(8, false);
    let again = cache.get(8, false);
    assert_eq!(first, again);
    assert_eq!(cache.entry_count(), 1);
    cache.get(8, true);
    assert_eq!(cache.entry_count(), 2);
    cache.clear();
    assert_eq!(cache.entry_count(), 0);
}
