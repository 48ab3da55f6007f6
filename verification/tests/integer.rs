//! Integers: arithmetic, division, conversion and parsing.
use pi_digits::divide::div_rem_mag;
use pi_digits::integer::Integer;
use pi_digits::multiply::{mul_mag, mul_mag_schoolbook};
use pi_digits::newton_div::div_rem_newton;


#[test]
fn zero_is_zero() {
    let a = Integer::new();
    assert!(a.is_zero());
    assert_eq!(a.to_string_radix(10), "0");
    assert_eq!(a.to_string_radix(16), "0");
    assert_eq!(a.bits(), 0);
}

#[test]
fn small_round_trip_decimal() {
    for v in [0_u64, 1, 9, 10, 99, 1_000_000, u64::MAX] {
        let a = Integer::from(v);
        assert_eq!(a.to_string_radix(10), v.to_string());
    }
}

#[test]
fn add_subtract() {
    let a = Integer::from(123_u32);
    let b = Integer::from(456_u32);
    assert_eq!((&a + &b).to_string_radix(10), "579");
    assert_eq!((&b - &a).to_string_radix(10), "333");
    assert_eq!((&a - &b).to_string_radix(10), "-333");
}

#[test]
fn integer_mul_basic() {
    let a = Integer::from(12345_u32);
    let b = Integer::from(67890_u32);
    assert_eq!((&a * &b).to_string_radix(10), "838102050");
}

#[test]
fn mul_large_carry() {
    // 2^64 * 2^64 = 2^128
    let mut a = Integer::from(1_u64);
    a <<= 64_u32;
    let mut b = Integer::from(1_u64);
    b <<= 64_u32;
    let c = &a * &b;
    // 2^128 == "340282366920938463463374607431768211456"
    assert_eq!(
        c.to_string_radix(10),
        "340282366920938463463374607431768211456"
    );
}

#[test]
fn karatsuba_matches_schoolbook_on_large_inputs() {
    // Build two operands big enough to trigger the Karatsuba path
    // (well above KARATSUBA_THRESHOLD).  Then verify the dispatched
    // mul_mag agrees with the leaf schoolbook on the same inputs.
    // This is the property test that the recursive identity is
    // implemented correctly across many sizes and split points.
    let mut a = Integer::from(0xDEAD_BEEF_CAFE_F00D_u64);
    let mut b = Integer::from(0x0123_4567_89AB_CDEF_u64);
    // Grow each to ~250 limbs (~16K bits ~ 4800 decimal digits).
    // Multiple sequential squarings give us non-trivial bit
    // patterns at every position, not just a single bit set.
    for _ in 0..7 {
        a = &a * &a;
    }
    for _ in 0..7 {
        b = &b * &b;
    }
    assert!(a.limbs.len() > 100 && b.limbs.len() > 100);
    let via_dispatch = mul_mag(&a.limbs, &b.limbs);
    let via_schoolbook = mul_mag_schoolbook(&a.limbs, &b.limbs);
    assert_eq!(via_dispatch, via_schoolbook);
}

#[test]
fn knuth_div_roundtrip_many_sizes() {
    // For each (a_len, b_len), build a "dividend" by multiplying
    // a known quotient by a known divisor and adding a remainder,
    // then divide and verify we recover the original parts.  This
    // exercises Knuth D across operand sizes that span the
    // single-limb fast path, small operands, and operands large
    // enough that the inner D3 refinement and D6 add-back paths
    // both get hit by chance.
    let dividend_q = Integer::parse_radix(
        "1234567890123456789012345678901234567890123456789012345678901234567890",
        10,
    )
    .unwrap();
    let divisor_v = Integer::parse_radix(
        "98765432109876543210987654321",
        10,
    )
    .unwrap();
    let remainder = Integer::from(42_u32);
    // p = q*v + r
    let p = &(&dividend_q * &divisor_v) + &remainder;
    // p / v == (q, r)
    let (q_limbs, r_limbs) = div_rem_mag(&p.limbs, &divisor_v.limbs);
    assert_eq!(q_limbs, dividend_q.limbs, "Knuth quotient mismatch");
    assert_eq!(r_limbs, remainder.limbs, "Knuth remainder mismatch");
}

#[test]
fn knuth_div_large_balanced() {
    // ~1000-bit / ~500-bit case: exercises Knuth's main loop with
    // a non-trivial number of quotient digits.  Roundtrip check.
    let q_int = {
        let mut x = Integer::from(0xFEDC_BA98_7654_3210_u64);
        for _ in 0..3 {
            x = &x * &x;
        }
        x
    };
    let v = {
        let mut x = Integer::from(0xDEAD_BEEF_u64);
        for _ in 0..3 {
            x = &x * &x;
        }
        x
    };
    let r = Integer::from(31337_u32);
    let p = &(&q_int * &v) + &r;
    let (q_limbs, r_limbs) = div_rem_mag(&p.limbs, &v.limbs);
    assert_eq!(q_limbs, q_int.limbs);
    assert_eq!(r_limbs, r.limbs);
}

#[test]
fn knuth_div_single_limb_divisor() {
    // Should hit the single-limb fast path, not Knuth.
    let a = Integer::parse_radix("100000000000000000000000000000", 10).unwrap();
    let (q_limbs, r_limbs) = div_rem_mag(&a.limbs, &[7_u64]);
    let q = Integer { limbs: q_limbs, negative: false };
    let r = Integer { limbs: r_limbs, negative: false };
    // 10^29 = 7q + r; verify by multiplying back.
    let recon = &(&q * &Integer::from(7_u32)) + &r;
    assert_eq!(recon, a);
}

#[test]
fn karatsuba_asymmetric_sizes() {
    // One operand much smaller than the other — degenerate split
    // case where the "high" half of the small operand is empty.
    let mut big = Integer::from(3_u32);
    big <<= 10_000_u32; // 10,001-bit number
    let small = Integer::from(0xFEDC_BA98_7654_3210_u64);
    let prod_via_dispatch = &big * &small;
    let prod_via_schoolbook = Integer {
        limbs: mul_mag_schoolbook(&big.limbs, &small.limbs),
        negative: false,
    };
    assert_eq!(prod_via_dispatch, prod_via_schoolbook);
}

#[test]
fn shl_works() {
    let mut a = Integer::from(1_u32);
    a <<= 100_u32;
    // 2^100 == 1267650600228229401496703205376
    assert_eq!(a.to_string_radix(10), "1267650600228229401496703205376");
}

#[test]
fn div_rem() {
    let a = Integer::from(1_000_000_007_u64);
    let b = Integer::from(31337_u64);
    let q = &a / &b;
    let r = &a % &b;
    assert_eq!(&(&q * &b) + &r, a);
}

#[test]
fn div_rem_large() {
    // 10^30 / 17
    let a = Integer::u_pow_u(10, 30);
    let b = Integer::from(17_u32);
    let q = &a / &b;
    let r = &a % &b;
    assert_eq!(&q * &b + &r, a);
}

#[test]
fn parse_radix_basic() {
    let a = Integer::parse_radix("12345678901234567890", 10).unwrap();
    assert_eq!(a.to_string_radix(10), "12345678901234567890");
    let b = Integer::parse_radix("ffeeddccbbaa9988", 16).unwrap();
    assert_eq!(b.to_string_radix(16), "ffeeddccbbaa9988");
}

#[test]
fn parse_negative() {
    let a = Integer::parse_radix("-999", 10).unwrap();
    assert_eq!(a.to_string_radix(10), "-999");
}

#[test]
fn parse_long() {
    // Round-trip a 200-digit decimal number.
    let s = "1".to_string() + &"234567890".repeat(22) + "5";
    let a = Integer::parse_radix(&s, 10).unwrap();
    assert_eq!(a.to_string_radix(10), s);
}

#[test]
fn pow_basic() {
    let a = Integer::from(2_u32);
    let p = a.pow_u32(64);
    assert_eq!(p.to_string_radix(10), "18446744073709551616");
}

#[test]
fn u_pow_u_basic() {
    assert_eq!(Integer::u_pow_u(10, 0).to_string_radix(10), "1");
    assert_eq!(Integer::u_pow_u(10, 1).to_string_radix(10), "10");
    assert_eq!(Integer::u_pow_u(10, 19).to_string_radix(10), "10000000000000000000");
}

#[test]
fn bits_basic() {
    assert_eq!(Integer::from(0_u32).bits(), 0);
    assert_eq!(Integer::from(1_u32).bits(), 1);
    assert_eq!(Integer::from(2_u32).bits(), 2);
    assert_eq!(Integer::from(255_u32).bits(), 8);
    assert_eq!(Integer::from(256_u32).bits(), 9);
    assert_eq!(Integer::from(u64::MAX).bits(), 64);
}

#[test]
fn neg_zero() {
    let z = -Integer::new();
    assert!(z.is_zero());
    assert!(!z.negative);
}

#[test]
fn to_string_dc_matches_naive_on_known_values() {
    // 10^k - 1 for various k: hits a range straddling the D&C
    // threshold and stresses leading-zero / boundary cases.
    for k in [10, 50, 100, 500, 1000, 5000].iter().copied() {
        let mut n = Integer::u_pow_u(10, k);
        n = &n - &Integer::from(1_u32);
        let s = n.to_string_radix(10);
        // 10^k - 1 is k nines.
        let expected: String = std::iter::repeat('9').take(k as usize).collect();
        assert_eq!(s, expected, "10^{k} - 1 stringification");
    }
}

#[test]
fn to_string_dc_round_trip_large() {
    // Build a non-trivial large integer (no special structure), then
    // verify parse_radix(to_string_radix(n)) == n.  The size (~10K
    // decimal digits) puts us well past the D&C threshold so the
    // recursive path is exercised end-to-end.
    let mut n = Integer::from(0xDEAD_BEEF_CAFE_F00D_u64);
    for _ in 0..10 {
        n = &n * &n;
    }
    // n now has ~16K bits ≈ ~4900 decimal digits.
    let s = n.to_string_radix(10);
    let back = Integer::parse_radix(&s, 10).unwrap();
    assert_eq!(back, n, "decimal round-trip failed");
}

#[test]
fn to_string_dc_lo_zero_pads_correctly() {
    // 10^200 itself: in any split the low half becomes exactly zero,
    // which must produce m leading zeros — a common bug-magnet in
    // D&C base conversion.
    let n = Integer::u_pow_u(10, 200);
    let s = n.to_string_radix(10);
    let mut expected = String::from("1");
    for _ in 0..200 {
        expected.push('0');
    }
    assert_eq!(s, expected);
}

// ----- Newton-Raphson division ------------------------------------

/// Cheap deterministic Integer generator for property-style tests.
/// Produces a value of roughly `n_limbs` limbs from a seed.
fn make_int(seed: u64, n_limbs: usize) -> Integer {
    let mut limbs = Vec::with_capacity(n_limbs);
    let mut s = seed.wrapping_mul(0x9E37_79B9_7F4A_7C15);
    for _ in 0..n_limbs {
        s = s
            .wrapping_mul(6364136223846793005)
            .wrapping_add(1442695040888963407);
        limbs.push(s);
    }
    // Ensure top limb is nonzero so we hit `n_limbs` exactly.
    if let Some(top) = limbs.last_mut() {
        *top |= 1u64 << 63;
    } else {
        limbs.push(1);
    }
    Integer { limbs, negative: false }
}

fn assert_divmod_matches_knuth(a: &Integer, b: &Integer) {
    let (q_nr, r_nr) = div_rem_newton(a, b);
    let (q_k, r_k) = div_rem_mag(&a.limbs, &b.limbs);
    let q_k = Integer { limbs: q_k, negative: false };
    let r_k = Integer { limbs: r_k, negative: false };
    assert_eq!(q_nr.to_string_radix(16), q_k.to_string_radix(16),
        "quotient mismatch: a={} b={}", a.to_string_radix(16), b.to_string_radix(16));
    assert_eq!(r_nr.to_string_radix(16), r_k.to_string_radix(16),
        "remainder mismatch");
    // Sanity: q·b + r == a.
    let recon = &(&q_nr * b) + &r_nr;
    assert_eq!(recon.to_string_radix(16), a.to_string_radix(16),
        "q·b + r != a");
}

#[test]
fn newton_div_matches_knuth_small() {
    // Just above the threshold so the NR path is exercised.
    for seed in 0..16u64 {
        let a = make_int(seed * 2 + 1, 200);
        let b = make_int(seed * 2 + 2, 100);
        assert_divmod_matches_knuth(&a, &b);
    }
}

#[test]
fn newton_div_matches_knuth_unbalanced() {
    // Very large numerator, small (but above threshold) divisor.
    let a = make_int(7, 2000);
    let b = make_int(11, 70);
    assert_divmod_matches_knuth(&a, &b);
}

#[test]
fn newton_div_matches_knuth_near_equal() {
    // a only slightly larger than b — quotient is small but the
    // Float estimate must still land within ±1.
    let b = make_int(13, 500);
    let a = &(&b * &Integer::from(7_u32)) + &Integer::from(3_u32);
    assert_divmod_matches_knuth(&a, &b);
}

#[test]
fn newton_div_power_of_ten_splitter() {
    // The exact pattern hit by D&C base conversion: divide a large
    // random integer by 10^m, where m makes 10^m straddle the
    // threshold.
    for digits in [500_u32, 1500, 4000] {
        let b = Integer::u_pow_u(10, digits);
        let a = make_int(digits as u64, b.limbs.len() * 2 + 5);
        assert_divmod_matches_knuth(&a, &b);
    }
}

#[test]
fn newton_div_large() {
    // ~64K limb (~4M bit) numerator over a ~32K limb divisor —
    // representative of the top-level division in 1M-digit base
    // conversion.  Confirms correctness at production sizes.
    let b = make_int(101, 32_000);
    let a = make_int(103, 64_000);
    assert_divmod_matches_knuth(&a, &b);
}
