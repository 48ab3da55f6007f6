//! The number-theoretic transform and the products through it.
use pi_digits::field::{
    add, canonicalize, inv, mul, pow, primitive_root_of_unity, reduce128, sub, EPSILON, P,
};
use pi_digits::four_step::{forward_square, inverse_square};
use pi_digits::ntt::{
    bit_reverse, bit_reverse_parallel, bit_reverse_serial, ntt_forward, ntt_inverse,
    PARALLEL_BIT_REVERSE_THRESHOLD,
};
use pi_digits::ntt_mul::{mul_mag_ntt, mul_mag_ntt_with, Workspace};
use pi_digits::ntt_pack::{
    pack, unpack, unpack_parallel, unpack_serial, COEFFS_PER_LIMB, PARALLEL_UNPACK_THRESHOLD,
};
use pi_digits::scratch::{Pool, ScratchBuf};
use pi_digits::twiddles::{
    build_twiddles, build_twiddles_parallel, build_twiddles_serial, TwiddleCache,
    PARALLEL_TWIDDLE_THRESHOLD,
};
use std::sync::Arc;


#[test]
fn canonicalize_basic() {
    assert_eq!(canonicalize(0), 0);
    assert_eq!(canonicalize(1), 1);
    assert_eq!(canonicalize(P - 1), P - 1);
    assert_eq!(canonicalize(P), 0);
    assert_eq!(canonicalize(P + 1), 1);
}

#[test]
fn add_basic() {
    assert_eq!(add(0, 0), 0);
    assert_eq!(add(1, 2), 3);
    assert_eq!(add(P - 1, 1), 0);
    assert_eq!(add(P - 1, P - 1), P - 2);
    // Stress: values near 2^64.
    assert_eq!(add(P - 1, P - 1), P - 2);
}

#[test]
fn sub_basic() {
    assert_eq!(sub(0, 0), 0);
    assert_eq!(sub(5, 3), 2);
    assert_eq!(sub(0, 1), P - 1);
    assert_eq!(sub(0, P - 1), 1);
}

#[test]
fn ntt_mul_basic() {
    assert_eq!(mul(0, 12345), 0);
    assert_eq!(mul(1, 12345), 12345);
    assert_eq!(mul(2, 3), 6);
    // (-1) * (-1) = 1
    assert_eq!(mul(P - 1, P - 1), 1);
    // (P+1)/2 * 2 = P + 1 ≡ 1.
    let half = (P + 1) / 2;
    assert_eq!(mul(half, 2), 1);
}

#[test]
fn reduce128_matches_naive_mod() {
    // Compare against naive `% P` for a battery of inputs.
    let cases: &[u128] = &[
        0,
        1,
        P as u128 - 1,
        P as u128,
        P as u128 + 1,
        2 * P as u128,
        2 * P as u128 - 1,
        (P as u128) * (P as u128) - 1,
        (P as u128) * (P as u128 - 1),
        u128::MAX,
        u128::MAX - 1,
        // Some pseudo-random spreads.
        0x1234_5678_9ABC_DEF0_1122_3344_5566_7788,
        0xFFFF_0000_FFFF_0000_FFFF_0000_FFFF_0000,
        0xAAAA_BBBB_CCCC_DDDD_EEEE_FFFF_0000_1111,
    ];
    for &x in cases {
        let naive = (x % P as u128) as u64;
        let fast = reduce128(x);
        assert_eq!(fast, naive, "reduce128({x:#x}) mismatch");
    }
}

#[test]
fn mul_matches_naive_mod() {
    // Compare a stress battery of mul(a, b) against (a * b) % P.
    let xs: &[u64] = &[
        0, 1, 2, 100, EPSILON, EPSILON + 1, P - 1,
        P / 2, P / 3, 0xDEAD_BEEF_CAFE_BABE & (P - 1),
        0x1234_5678_9ABC_DEF0 & (P - 1),
    ];
    for &a in xs {
        for &b in xs {
            let naive = ((a as u128) * (b as u128) % P as u128) as u64;
            let fast = mul(a, b);
            assert_eq!(fast, naive, "mul({a:#x}, {b:#x}) mismatch");
        }
    }
}

#[test]
fn pow_fermat_identity() {
    // a^(P-1) ≡ 1 (mod P) for any a not divisible by P.
    for &a in &[2_u64, 3, 7, 12345, P - 1, P / 2] {
        assert_eq!(pow(a, P - 1), 1, "Fermat failed for a={a}");
    }
}

#[test]
fn inv_round_trips() {
    for &a in &[1_u64, 2, 3, 7, 12345, P - 1, P / 2] {
        let i = inv(a);
        assert_eq!(mul(a, i), 1, "inv({a}) failed: a*inv(a) != 1");
    }
}

// ---- NTT tests --------------------------------------------------

fn random_vec(n: usize, seed: u64) -> Vec<u64> {
    let mut s = seed.wrapping_mul(0x9E37_79B9_7F4A_7C15).wrapping_add(1);
    (0..n)
        .map(|_| {
            s = s
                .wrapping_mul(6364136223846793005)
                .wrapping_add(1442695040888963407);
            s % P
        })
        .collect()
}

fn naive_convolution(a: &[u64], b: &[u64]) -> Vec<u64> {
    let n = a.len() + b.len() - 1;
    let mut out = vec![0_u64; n];
    for i in 0..a.len() {
        for j in 0..b.len() {
            out[i + j] = add(out[i + j], mul(a[i], b[j]));
        }
    }
    out
}

#[test]
fn bit_reverse_known() {
    // Length 8: index i (in binary 3 bits) maps to bit-reversed.
    // 0=000, 1=100, 2=010, 3=110, 4=001, 5=101, 6=011, 7=111
    let mut a = vec![0_u64, 1, 2, 3, 4, 5, 6, 7];
    bit_reverse(&mut a);
    assert_eq!(a, vec![0, 4, 2, 6, 1, 5, 3, 7]);
}

#[test]
fn ntt_round_trip_small() {
    for log_n in [1_usize, 2, 3, 4, 8, 12] {
        let n = 1usize << log_n;
        let original = random_vec(n, log_n as u64);
        let mut a = original.clone();
        ntt_forward(&mut a);
        ntt_inverse(&mut a);
        assert_eq!(a, original, "round trip failed at n=2^{log_n}");
    }
}

#[test]
fn ntt_convolution_matches_naive_small() {
    // Multiply [1, 2] * [3, 4] = [3, 10, 8]
    let a_orig: Vec<u64> = vec![1, 2];
    let b_orig: Vec<u64> = vec![3, 4];
    let expected = naive_convolution(&a_orig, &b_orig);

    let n_out = a_orig.len() + b_orig.len() - 1;
    let n = n_out.next_power_of_two();
    let mut a = a_orig.clone();
    a.resize(n, 0);
    let mut b = b_orig.clone();
    b.resize(n, 0);

    ntt_forward(&mut a);
    ntt_forward(&mut b);
    for (x, y) in a.iter_mut().zip(b.iter()) {
        *x = mul(*x, *y);
    }
    ntt_inverse(&mut a);

    assert_eq!(&a[..n_out], &expected[..]);
}

#[test]
fn ntt_convolution_matches_naive_random() {
    // Larger random convolution at multiple lengths.
    for (in_len, seed) in [(7_usize, 1u64), (15, 2), (31, 3), (63, 4), (127, 5)] {
        let a_orig: Vec<u64> = random_vec(in_len, seed)
            .into_iter()
            // Keep values small enough that naive convolution sums stay <P.
            .map(|x| x & 0xFFFF)
            .collect();
        let b_orig: Vec<u64> = random_vec(in_len, seed ^ 0xFF)
            .into_iter()
            .map(|x| x & 0xFFFF)
            .collect();
        let expected = naive_convolution(&a_orig, &b_orig);

        let n_out = a_orig.len() + b_orig.len() - 1;
        let n = n_out.next_power_of_two();
        let mut a = a_orig.clone();
        a.resize(n, 0);
        let mut b = b_orig.clone();
        b.resize(n, 0);

        ntt_forward(&mut a);
        ntt_forward(&mut b);
        for (x, y) in a.iter_mut().zip(b.iter()) {
            *x = mul(*x, *y);
        }
        ntt_inverse(&mut a);

        assert_eq!(&a[..n_out], &expected[..],
            "convolution mismatch at in_len={in_len}");
    }
}

// ---- pack / unpack ----------------------------------------------

#[test]
fn pack_unpack_round_trip_one_limb() {
    let limbs: Vec<u64> = vec![0xDEAD_BEEF_CAFE_BABE];
    let mut coeffs = vec![0u64; limbs.len() * COEFFS_PER_LIMB + 3];
    pack(&limbs, &mut coeffs);
    let unpacked = unpack(&coeffs);
    assert_eq!(unpacked, limbs);
}

#[test]
fn pack_unpack_round_trip_multi_limb() {
    let limbs: Vec<u64> = vec![
        0xDEAD_BEEF_CAFE_BABE,
        0x1234_5678_9ABC_DEF0,
        0x5555_5555_AAAA_AAAA,
        0xFFFF_FFFF_FFFF_FFFF,
        0x0000_0000_0000_0001,
    ];
    let mut coeffs = vec![0u64; limbs.len() * COEFFS_PER_LIMB + 5];
    pack(&limbs, &mut coeffs);
    let unpacked = unpack(&coeffs);
    assert_eq!(unpacked, limbs);
}

#[test]
fn pack_unpack_random() {
    let limbs = random_vec(40, 12345);
    let mut coeffs = vec![0u64; limbs.len() * COEFFS_PER_LIMB + 10];
    pack(&limbs, &mut coeffs);
    let unpacked = unpack(&coeffs);
    // Strip trailing zeros from limbs too — unpack trims them.
    let mut expected = limbs.clone();
    while expected.last() == Some(&0) {
        expected.pop();
    }
    assert_eq!(unpacked, expected);
}

// ---- mul_mag_ntt vs schoolbook ----------------------------------

/// Schoolbook magnitude multiply for the test oracle.  O(N^2).
fn schoolbook(a: &[u64], b: &[u64]) -> Vec<u64> {
    if a.is_empty() || b.is_empty() {
        return Vec::new();
    }
    let mut out = vec![0u64; a.len() + b.len()];
    for i in 0..a.len() {
        let mut carry: u64 = 0;
        for j in 0..b.len() {
            let prod = (a[i] as u128) * (b[j] as u128)
                + (out[i + j] as u128)
                + (carry as u128);
            out[i + j] = prod as u64;
            carry = (prod >> 64) as u64;
        }
        out[i + b.len()] = carry;
    }
    while out.last() == Some(&0) {
        out.pop();
    }
    out
}

#[test]
fn ntt_mul_matches_schoolbook_tiny() {
    let a: Vec<u64> = vec![3];
    let b: Vec<u64> = vec![7];
    let want = schoolbook(&a, &b);
    let got = mul_mag_ntt(&a, &b);
    assert_eq!(got, want);
    assert_eq!(got, vec![21]);
}

#[test]
fn ntt_mul_matches_schoolbook_small_random() {
    for (len_a, len_b, seed) in [
        (1_usize, 1_usize, 1_u64),
        (1, 4, 2),
        (4, 4, 3),
        (8, 5, 4),
        (32, 16, 5),
        (60, 60, 6),
        (200, 200, 7),
    ] {
        let a = random_vec(len_a, seed);
        let b = random_vec(len_b, seed ^ 0xFF);
        let want = schoolbook(&a, &b);
        let got = mul_mag_ntt(&a, &b);
        assert_eq!(got, want,
            "mismatch len_a={len_a} len_b={len_b} seed={seed}");
    }
}

#[test]
fn ntt_mul_one_limb_max_values() {
    // u64::MAX * u64::MAX hits the largest possible limb values.
    let a: Vec<u64> = vec![u64::MAX];
    let b: Vec<u64> = vec![u64::MAX];
    let want = schoolbook(&a, &b);
    let got = mul_mag_ntt(&a, &b);
    assert_eq!(got, want);
}

#[test]
fn omega_has_expected_order() {
    // omega_n has order exactly n for n a power of 2 ≤ 2^32.
    for log_n in [1_u32, 2, 4, 8, 16, 20] {
        let n = 1_u64 << log_n;
        let omega = primitive_root_of_unity(n);
        assert_eq!(pow(omega, n), 1, "omega^n != 1 (n=2^{log_n})");
        // Check primitivity: omega^(n/2) should be -1, not 1.
        if n > 1 {
            assert_eq!(pow(omega, n / 2), P - 1,
                "omega^(n/2) != -1, omega not primitive (n=2^{log_n})");
        }
    }
}

// ---- operands too large for one transform -------------------------

/// Products of more than 2^30 limbs do not fit one transform.
#[test]
fn large_n_routing_uses_karatsuba() {
    let limit: usize = 1 << 32;
    let coeffs_per_limb = COEFFS_PER_LIMB;

    // Guard formula from mul_mag:
    let just_over = (limit / coeffs_per_limb) + 1; // combined limbs > 2^30
    let just_under = (limit / coeffs_per_limb) - 1;
    let over_fits = just_over.saturating_mul(coeffs_per_limb) <= limit;
    let under_fits = just_under.saturating_mul(coeffs_per_limb) <= limit;
    assert!(!over_fits, "guard should reject combined limbs > 2^30");
    assert!(under_fits, "guard should accept combined limbs < 2^30");
}

/// Correctness of mul_mag_ntt on medium-sized random operands (above
/// the schoolbook threshold, within the NTT limit).
#[test]
fn ntt_mul_matches_schoolbook_medium_random() {
    // 500 limbs each — large enough that the NTT path is taken.
    let a = random_vec(500, 0xdead_beef_cafe_babe);
    let b = random_vec(500, 0xdead_beef_cafe_babe ^ 0xFF);
    let want = schoolbook(&a, &b);
    let got = mul_mag_ntt(&a, &b);
    assert_eq!(got, want);
}

// ── Scratch buffer pool ─────────────────────────────────────────────

/// Acquire / drop / acquire-again on the same size should reuse the
/// pooled buffer rather than allocating a fresh one.
#[test]
fn pool_reuses_released_buffer_at_same_size() {
    // Pick a size that no other concurrent test is using, to keep
    // the per-size bucket count predictable.  Tests run in parallel
    // by default; choose an oddball value that won't be hit by
    // mul_mag_ntt's power-of-two buffers.
    let n = 12_345_usize;

    // Drain any leftover buffers at this size class so the count
    // starts at zero from this test's perspective.
    let mut pool = Pool::new();
    while pool.pooled_count_at_size(n) > 0 {
        let _ = ScratchBuf::acquire(&mut pool, n);
    }
    assert_eq!(pool.pooled_count_at_size(n), 0);

    // Acquire then drop: buffer goes into the pool.
    let buf = ScratchBuf::acquire(&mut pool, n);
    assert_eq!(buf.buf.len(), n);
    buf.release(&mut pool);
    assert_eq!(pool.pooled_count_at_size(n), 1);

    // Next acquire should pull from the pool, leaving it empty.
    let _buf2 = ScratchBuf::acquire(&mut pool, n);
    assert_eq!(pool.pooled_count_at_size(n), 0);
}

/// Repeated mul_mag_ntt calls of the same size should drive pool
/// reuse: after several calls the pool should hold at most the
/// per-size cap, not one buffer per call.
#[test]
fn pool_caps_at_max_per_size_under_repeated_ntt() {
    // Use small inputs so this test is fast.  Each call needs
    // n = next_power_of_two((|a| + |b|) * 4); with 200-limb
    // inputs, n = 2048.
    let a = random_vec(200, 0x1234_5678_9abc_def0);
    let b = random_vec(200, 0x0fed_cba9_8765_4321);

    // Run several mul_mag_ntts in sequence.  Each one acquires
    // and releases two buffers of size 2048.
    let mut work = Workspace::new();
    for _ in 0..10 {
        let _ = mul_mag_ntt_with(&a, &b, &mut work);
    }

    // Pool cap for ordinary sizes is 4.  Bucket should not exceed
    // that, regardless of how many calls we made.
    assert!(
        work.pool.pooled_count_at_size(2048) <= 4,
        "pool exceeded MAX_PER_SIZE cap"
    );
}

/// Pooled buffer reuse must not corrupt results: run the same
/// multiplication twice and compare both to schoolbook.  The
/// second call exercises whatever buffers the first one returned.
#[test]
fn pool_reuse_preserves_correctness() {
    let mut work = Workspace::new();
    let a = random_vec(300, 0xcafe_0001);
    let b = random_vec(300, 0xbeef_0002);
    let want = schoolbook(&a, &b);

    let first = mul_mag_ntt_with(&a, &b, &mut work);
    assert_eq!(first, want);

    // Second call should pick up the pooled buffer from the first.
    let second = mul_mag_ntt_with(&a, &b, &mut work);
    assert_eq!(second, want);

    // And a different-but-same-size input must also be correct,
    // since the scratch buffer comes back stale.
    let c = random_vec(300, 0xdead_0003);
    let d = random_vec(300, 0xface_0004);
    let want_cd = schoolbook(&c, &d);
    let got_cd = mul_mag_ntt_with(&c, &d, &mut work);
    assert_eq!(got_cd, want_cd);
}

// ── build_twiddles parallelization ──────────────────────────────────

/// Parallel and serial twiddle builders must produce byte-identical
/// output — they implement the same recurrence, just chunked.
#[test]
fn build_twiddles_parallel_matches_serial() {
    // Pick a power-of-two count above the parallel threshold so the
    // parallel path is exercised.
    let count = 1 << 16; // 65536
    assert!(count >= PARALLEL_TWIDDLE_THRESHOLD);
    // Use a primitive root of unity of order at least `count` so
    // the twiddle table is the genuine NTT table for a real pass.
    let omega = primitive_root_of_unity(count as u64);

    let serial = build_twiddles_serial(omega, count);
    let parallel = build_twiddles_parallel(omega, count);
    assert_eq!(serial.len(), count);
    assert_eq!(parallel.len(), count);
    assert_eq!(serial, parallel, "parallel twiddles diverge from serial");
}

/// Edge case: count just at the parallel threshold.
#[test]
fn build_twiddles_at_threshold() {
    let count = PARALLEL_TWIDDLE_THRESHOLD;
    let omega = primitive_root_of_unity(count.next_power_of_two() as u64);
    let serial = build_twiddles_serial(omega, count);
    let parallel = build_twiddles_parallel(omega, count);
    assert_eq!(serial, parallel);
}

/// Edge case: count not divisible by chunk_size (last chunk shorter).
#[test]
fn build_twiddles_uneven_chunks() {
    // PARALLEL_TWIDDLE_THRESHOLD * 3 + 7 → not a multiple of any
    // reasonable num_chunks, exercising the short-tail chunk.
    let count = PARALLEL_TWIDDLE_THRESHOLD * 3 + 7;
    let omega = primitive_root_of_unity(count.next_power_of_two() as u64);
    let serial = build_twiddles_serial(omega, count);
    let parallel = build_twiddles_parallel(omega, count);
    assert_eq!(serial, parallel);
}

// ── Twiddle cache ───────────────────────────────────────────────────

/// Cache hit returns the same `Arc` and table contents match the
/// direct build.
#[test]
fn twiddle_cache_hit_returns_correct_table() {
    // Use a size unlikely to collide with concurrent tests.
    let half = 257_usize.next_power_of_two();
    let mut cache = TwiddleCache::new();
    cache.clear();

    // First call: miss → builds.
    let first = cache.get(half, false);

    // Second call: hit → returns same data.
    let second = cache.get(half, false);
    assert_eq!(*first, *second);
    // Both Arcs point at the same underlying allocation.
    assert!(Arc::ptr_eq(&first, &second));

    // The cached table matches a direct build.
    let omega = primitive_root_of_unity((half * 2) as u64);
    let reference = build_twiddles(omega, half);
    assert_eq!(*first, reference);
}

/// Forward and inverse keys are stored independently.
#[test]
fn twiddle_cache_forward_and_inverse_are_distinct() {
    let half = 4096_usize;
    let mut cache = TwiddleCache::new();
    cache.clear();
    let fwd = cache.get(half, false);
    let inv_table = cache.get(half, true);
    assert_ne!(*fwd, *inv_table, "forward and inverse must differ");

    // Validate inverse table matches direct build.
    let omega_base = primitive_root_of_unity((half * 2) as u64);
    let omega_inv = inv(omega_base);
    let reference = build_twiddles(omega_inv, half);
    assert_eq!(*inv_table, reference);
}

/// Caching must not change NTT correctness — running the same
/// multiplication twice (first call miss, second call hit) must
/// produce the same answer as schoolbook.
#[test]
fn twiddle_cache_preserves_ntt_correctness() {
    let mut work = Workspace::new();
    let a = random_vec(400, 0x1111_2222_3333_4444);
    let b = random_vec(400, 0x5555_6666_7777_8888);
    let want = schoolbook(&a, &b);

    // Both calls go through the cache (first builds, second hits).
    let first = mul_mag_ntt_with(&a, &b, &mut work);
    assert_eq!(first, want);
    let second = mul_mag_ntt_with(&a, &b, &mut work);
    assert_eq!(second, want);
}


// ── Parallel bit_reverse ────────────────────────────────────────────

/// Apply both bit_reverse implementations to the same input and
/// verify the results are identical.  Uses a size well above the
/// parallel threshold so the parallel path is actually exercised.
#[test]
fn bit_reverse_parallel_matches_serial() {
    let log_n: u32 = 19; // n = 524288, > PARALLEL_BIT_REVERSE_THRESHOLD
    let n: usize = 1 << log_n;
    assert!(n >= PARALLEL_BIT_REVERSE_THRESHOLD);

    // Deterministic seed pattern so both versions get identical input.
    let mut a_serial: Vec<u64> = (0..n as u64)
        .map(|i| i.wrapping_mul(0x9E37_79B9_7F4A_7C15).wrapping_add(1))
        .collect();
    let mut a_parallel = a_serial.clone();

    bit_reverse_serial(&mut a_serial, log_n);
    bit_reverse_parallel(&mut a_parallel, log_n);
    assert_eq!(a_serial, a_parallel, "parallel and serial diverge");
}

/// bit_reverse is its own inverse: applying it twice should restore
/// the original array.  Exercises the parallel path.
#[test]
fn bit_reverse_parallel_is_involution() {
    let log_n: u32 = 18; // exactly at the threshold
    let n: usize = 1 << log_n;
    let orig: Vec<u64> = (0..n as u64)
        .map(|i| i.wrapping_mul(0xDEAD_BEEF))
        .collect();
    let mut a = orig.clone();
    bit_reverse(&mut a);
    bit_reverse(&mut a);
    assert_eq!(a, orig, "bit_reverse ∘ bit_reverse ≠ id");
}

/// Drive bit_reverse through a real NTT round-trip at a size that
/// hits the parallel path, validating end-to-end correctness.
#[test]
fn bit_reverse_parallel_via_ntt_round_trip() {
    // n_a + n_b combined coeffs ≥ threshold (2^18) so the NTT
    // working buffer exceeds the threshold and parallel bit_reverse
    // runs in ntt_forward / ntt_inverse.  Each operand ~32K limbs.
    let n_limbs = 32_768_usize;
    let a = random_vec(n_limbs, 0xAA);
    let b = random_vec(n_limbs, 0xBB);
    let want = schoolbook(&a, &b);
    let got = mul_mag_ntt(&a, &b);
    assert_eq!(got, want);
}

// ── Parallel unpack ─────────────────────────────────────────────────

/// Parallel and serial unpack must produce byte-identical output on
/// the same input, even when the carry cascades across chunks.
#[test]
fn unpack_parallel_matches_serial() {
    // Build a coeff stream above the parallel threshold with
    // deterministic large-ish values to exercise carry propagation.
    let n = PARALLEL_UNPACK_THRESHOLD + 4_321; // include a tail
    let coeffs: Vec<u64> = (0..n as u64)
        .map(|i| {
            // Mix in non-trivial bits without exceeding the
            // worst-case-per-coeff bound used by mul_mag_ntt.
            ((i.wrapping_mul(0x1234_5678_9abc_def0)) >> 8) & ((1u64 << 32) - 1)
        })
        .collect();

    let serial = unpack_serial(&coeffs);
    let parallel = unpack_parallel(&coeffs);
    assert_eq!(serial, parallel, "parallel unpack diverges from serial");
}

/// Stress: many chunks, varied coeff sizes, including coeffs that
/// stress the cross-chunk carry merge (very high values in the
/// final block of each chunk).
#[test]
fn unpack_parallel_cross_chunk_carry() {
    // Use a count well above threshold and seed with high values
    // so the residual at chunk boundaries is non-trivial.
    let n = PARALLEL_UNPACK_THRESHOLD * 4;
    let coeffs: Vec<u64> = (0..n as u64)
        .map(|i| {
            // Worst-case-ish: large coeffs near u32::MAX.
            if i % 7 == 0 {
                (1u64 << 32) - 1
            } else {
                i.wrapping_mul(0xDEAD_BEEF) & ((1u64 << 32) - 1)
            }
        })
        .collect();

    let serial = unpack_serial(&coeffs);
    let parallel = unpack_parallel(&coeffs);
    assert_eq!(serial, parallel);
}


// ── Four-step / six-step (Bailey matrix Fourier) ────────────────────
//
// For correctness we don't compare four-step output to radix-2
// output element-wise — the two have different output orderings
// (four-step lives in "digit-reversed" layout; see the module
// doc).  Instead we test by black-box equivalence:
//   * round-trip: forward + inverse = identity (and matches the
//     1/N scale baked into the inverse).
//   * convolution: forward + pointwise + inverse = naive
//     convolution mod P.  This is the actual property mul_mag_ntt
//     relies on.
// Sub-FFTs use the existing radix-2 NTT, so any radix-2 bug would
// already be flagged by the earlier tests.

/// Forward + inverse must return exactly the input.
#[test]
fn four_step_square_round_trip_n4() {
    let orig = vec![17_u64, 42, 99, 5];
    let mut a = orig.clone();
    forward_square(&mut a);
    inverse_square(&mut a);
    assert_eq!(a, orig);
}

/// Round-trip at N=16 with random-ish values that stress carry
/// and mod-reduction in the field ops.
#[test]
fn four_step_square_round_trip_n16() {
    let orig = random_vec(16, 0xCAFE_F00D);
    let mut a = orig.clone();
    forward_square(&mut a);
    inverse_square(&mut a);
    assert_eq!(a, orig);
}

/// Round-trip at N=256 (larger square — exercises the inner
/// transpose loop and longer cross-twiddle chains).
#[test]
fn four_step_square_round_trip_n256() {
    let orig = random_vec(256, 0xDEAD_BEEF);
    let mut a = orig.clone();
    forward_square(&mut a);
    inverse_square(&mut a);
    assert_eq!(a, orig);
}

/// Round-trip at N=1024 with a generic field-element pattern.
#[test]
fn four_step_square_round_trip_n1024() {
    let orig = random_vec(1024, 0xABCD_1234);
    let mut a = orig.clone();
    forward_square(&mut a);
    inverse_square(&mut a);
    assert_eq!(a, orig);
}

/// Cyclic convolution via four-step must match the naive
/// reference at N=16.  Zero-padded operands make this equivalent
/// to linear convolution of the original short sequences.
#[test]
fn four_step_square_convolution_n16() {
    let n = 16;
    // 3-element operands zero-padded to length N; the cyclic
    // convolution equals the linear convolution.
    let mut a = vec![0_u64; n];
    let mut b = vec![0_u64; n];
    a[0] = 1; a[1] = 2; a[2] = 3;
    b[0] = 4; b[1] = 5; b[2] = 6;
    // Linear convolution: (1+2x+3x²)(4+5x+6x²) = 4+13x+28x²+27x³+18x⁴
    let mut want = vec![0_u64; n];
    want[0] = 4; want[1] = 13; want[2] = 28; want[3] = 27; want[4] = 18;

    forward_square(&mut a);
    forward_square(&mut b);
    for i in 0..n {
        a[i] = mul(a[i], b[i]);
    }
    inverse_square(&mut a);
    assert_eq!(a, want);
}

/// Convolution at N=64 with deterministic-random inputs;
/// compared against `naive_convolution` (mod P sums).  This is
/// the high-confidence correctness gate.
#[test]
fn four_step_square_convolution_n64_random() {
    let n = 64_usize;
    // Use input lengths n/2 so the linear convolution fits.
    let half = n / 2;
    let pa_short = random_vec(half, 0x1111_2222);
    let pb_short = random_vec(half, 0x3333_4444);

    // Zero-pad to length N for the cyclic-becomes-linear trick.
    let mut a = vec![0_u64; n];
    a[..half].copy_from_slice(&pa_short);
    let mut b = vec![0_u64; n];
    b[..half].copy_from_slice(&pb_short);

    // Reference: naive linear convolution, zero-extended to N.
    let nc = naive_convolution(&pa_short, &pb_short);
    let mut want = vec![0_u64; n];
    want[..nc.len()].copy_from_slice(&nc);

    forward_square(&mut a);
    forward_square(&mut b);
    for i in 0..n {
        a[i] = mul(a[i], b[i]);
    }
    inverse_square(&mut a);
    assert_eq!(a, want);
}

/// Convolution at N=256 — a larger square that exercises both
/// sub-FFT passes and the full cross-twiddle table.
#[test]
fn four_step_square_convolution_n256_random() {
    let n = 256_usize;
    let half = n / 2;
    let pa_short = random_vec(half, 0xAAAA_BBBB);
    let pb_short = random_vec(half, 0xCCCC_DDDD);

    let mut a = vec![0_u64; n];
    a[..half].copy_from_slice(&pa_short);
    let mut b = vec![0_u64; n];
    b[..half].copy_from_slice(&pb_short);

    let nc = naive_convolution(&pa_short, &pb_short);
    let mut want = vec![0_u64; n];
    want[..nc.len()].copy_from_slice(&nc);

    forward_square(&mut a);
    forward_square(&mut b);
    for i in 0..n {
        a[i] = mul(a[i], b[i]);
    }
    inverse_square(&mut a);
    assert_eq!(a, want);
}
