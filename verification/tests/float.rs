//! Floating-point numbers.
use pi_digits::float::Float;
use pi_digits::float_ops::{F64Bits, Round};
use pi_digits::integer::Integer;
use pi_digits::operators::PowAssign;


fn approx_eq(a: &Float, b: &Float, tol_ulp: u64) -> bool {
    // Equal-or-near at the smaller precision.
    if a == b {
        return true;
    }
    let diff = a.sub_at_prec(b, a.prec.max(b.prec));
    if diff.is_zero() {
        return true;
    }
    // bit length of diff vs smaller of |a|,|b|.
    let mag_a = a.mantissa.bits() as i64 + a.exp;
    let mag_b = b.mantissa.bits() as i64 + b.exp;
    let mag_min = mag_a.min(mag_b);
    let mag_diff = diff.mantissa.bits() as i64 + diff.exp;
    // |diff| <= 2^(mag_min - prec + tol_ulp_bits)
    let prec = a.prec.min(b.prec) as i64;
    mag_diff <= mag_min - prec + tol_ulp as i64
}

#[test]
fn from_int() {
    let a = Float::with_val_64(64, 1_u32);
    let b = Float::with_val_64(64, 2_u32);
    assert!(!a.is_zero());
    assert!(!b.is_zero());
}

#[test]
fn add_simple() {
    let a = Float::with_val_64(64, 1_u32);
    let b = Float::with_val_64(64, 2_u32);
    let c = &a + &b;
    let three = Float::with_val_64(64, 3_u32);
    assert!(approx_eq(&c, &three, 1));
}

#[test]
fn sub_simple() {
    let a = Float::with_val_64(64, 5_u32);
    let b = Float::with_val_64(64, 2_u32);
    let c = &a - &b;
    let three = Float::with_val_64(64, 3_u32);
    assert!(approx_eq(&c, &three, 1));
}

#[test]
fn mul_simple() {
    let a = Float::with_val_64(64, 6_u32);
    let b = Float::with_val_64(64, 7_u32);
    let c = &a * &b;
    let exp = Float::with_val_64(64, 42_u32);
    assert!(approx_eq(&c, &exp, 1));
}

#[test]
fn div_simple() {
    let a = Float::with_val_64(128, 1_u32);
    let b = Float::with_val_64(128, 4_u32);
    let c = &a / &b;
    let exp = Float::with_val_64(128, F64Bits(0.25_f64.to_bits()));
    assert!(approx_eq(&c, &exp, 2));
}

#[test]
fn sqrt_simple() {
    let mut a = Float::with_val_64(256, 2_u32);
    a.sqrt_mut();
    // square should give back 2 within tolerance
    let mut sq = a.clone();
    sq.square_mut();
    let two = Float::with_val_64(256, 2_u32);
    assert!(approx_eq(&sq, &two, 4));
}

#[test]
fn div_large_exercises_newton_path() {
    // Precision chosen so mantissas exceed RECIPROCAL_THRESHOLD (64
    // limbs ≈ 4096 bits) and `div_at_prec` routes through
    // `reciprocal_at_prec` instead of the Knuth fallback.
    let prec = 8192_u64;
    let a = Float::with_val_64(prec, 17_u32);
    let b = Float::with_val_64(prec, 3_u32);
    // Compute (a/b) * b and verify ≈ a within a few ULPs.  This
    // round-trip catches sign mistakes, exponent drift, and
    // Newton-convergence shortfalls that any unit value test would
    // miss.
    let q = a.div_at_prec(&b, prec);
    let back = q.mul_at_prec(&b, prec);
    assert!(
        approx_eq(&back, &a, 4),
        "round-trip a/b*b at NR path lost precision",
    );
}

#[test]
fn reciprocal_round_trip_at_large_prec() {
    let prec = 8192_u64;
    // 1/7 reciprocated twice should land back ≈ 7.
    let seven = Float::with_val_64(prec, 7_u32);
    let one_seventh = seven.reciprocal_at_prec(prec);
    let back = one_seventh.reciprocal_at_prec(prec);
    assert!(
        approx_eq(&back, &seven, 4),
        "reciprocate-twice didn't land back on the original",
    );
}

#[test]
fn sqrt_large() {
    let mut a = Float::with_val_64(512, 10_005_u32);
    a.sqrt_mut();
    let mut sq = a.clone();
    sq.square_mut();
    let exp = Float::with_val_64(512, 10_005_u32);
    assert!(approx_eq(&sq, &exp, 4));
}

#[test]
fn sqrt_at_off_by_one_bug_precision() {
    // 110000 bits is a precision at which doubling from 64 bits lands just
    // short of the target: log2(110000 / 64) is about 10.75, so one more
    // iteration has to follow at full precision.
    let prec = 110_000_u64;
    let mut a = Float::with_val_64(prec, 10_005_u32);
    a.sqrt_mut();
    let mut sq = a.clone();
    sq.square_mut();
    let exp = Float::with_val_64(prec, 10_005_u32);
    assert!(
        approx_eq(&sq, &exp, 8),
        "sqrt didn't converge to full precision at 110000 bits",
    );
}

#[test]
fn reciprocal_at_off_by_one_bug_precision() {
    // The Newton reciprocal doubles its precision in the same way.
    let prec = 110_000_u64;
    let three = Float::with_val_64(prec, 3_u32);
    let recip = three.reciprocal_at_prec(prec);
    // 3 * (1/3) should be ≈ 1 to ~full precision.
    let product = three.mul_at_prec(&recip, prec);
    let one = Float::with_val_64(prec, 1_u32);
    assert!(
        approx_eq(&product, &one, 8),
        "reciprocal didn't converge to full precision at 110000 bits",
    );
}

#[test]
fn square_mut_works() {
    let mut a = Float::with_val_64(64, 13_u32);
    a.square_mut();
    let exp = Float::with_val_64(64, 169_u32);
    assert!(approx_eq(&a, &exp, 1));
}

#[test]
fn pow_assign_works() {
    let mut a = Float::with_val_64(128, 10_u32);
    a.pow_assign(&Integer::from(5_u32));
    let exp = Float::with_val_64(128, 100_000_u32);
    assert!(approx_eq(&a, &exp, 1));
}

#[test]
fn to_integer_round_down_positive() {
    let a = Float::with_val_64(64, F64Bits(0.5_f64.to_bits())); // exactly 1/2
    let f2 = Float::with_val_64(64, 5_u32);
    let v = &a * &f2; // 2.5
    let (i, _) = (&v).to_integer_round(Round::Down).unwrap();
    assert_eq!(i.to_string_radix(10), "2");
}

#[test]
fn assign_replaces_value() {
    let mut a = Float::with_val_64(128, 1_u32);
    let b = Float::with_val_64(128, 100_u32);
    a.assign(&b + &b);
    let exp = Float::with_val_64(128, 200_u32);
    assert!(approx_eq(&a, &exp, 1));
}
