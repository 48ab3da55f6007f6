//! The terms of the Chudnovsky series fall fast enough: beyond the planned
//! number of terms, more of them do not change the digits.
use crate::accuracy;
use crate::algorithm;
use crate::algorithm::DIGITS_PER_TERM_SCALED;
use crate::bitlen;
use crate::chudnovsky;
use crate::chudnovsky::TERM_A;
use crate::chudnovsky_assembly;
use crate::digits;
use crate::double;
use crate::precision;
use crate::reals;
use vstd::arithmetic::div_mod::*;
use vstd::arithmetic::mul::*;
use vstd::arithmetic::power2::*;
use vstd::arithmetic::power::*;
use vstd::prelude::*;

verus! {

/// The rate at which the terms fall: `640320^3 / 1728`.
pub const RATE: u64 = 151_931_373_056_000;

/// `RATE^n`.
pub open spec fn decay(n: nat) -> int {
    pow(RATE as int, n)
}

/// One squaring in a chain of powers of the rate: `m * 2^e <= RATE^k` and
/// `n * 2^s <= m^2` give `n * 2^(2 * e + s) <= RATE^(2 * k)`.
proof fn lemma_rate_step(k: nat, m: int, e: nat, n: int, s: nat)
    requires
        0 <= m,
        m * pow2(e) <= decay(k),
        n * pow2(s) <= m * m,
    ensures
        n * pow2(2 * e + s) <= decay(2 * k),
{
    lemma_pow_adds(RATE as int, k, k);
    lemma_pow2_adds(e, e);
    lemma_pow2_adds(2 * e, s);
    lemma_pow2_pos(e);
    lemma_pow2_pos(s);
    let t = decay(k);
    let p = pow2(e) as int;
    let q = pow2(s) as int;
    let mp = m * p;
    lemma_mul_nonnegative(m, p);
    lemma_mul_upper_bound(mp, t, mp, t);
    assert(mp * mp == (m * m) * (p * p)) by (nonlinear_arith)
        requires
            mp == m * p,
    ;
    lemma_mul_nonnegative(p, p);
    lemma_mul_inequality(n * q, m * m, p * p);
    assert((n * q) * (p * p) == n * ((p * p) * q)) by (nonlinear_arith);
}

/// `2^12949611758699 <= RATE^(2^38)`: the logarithm of the rate to base two from below.
proof fn lemma_rate_tower()
    ensures
        pow2(12949611758699) <= decay(0x40_0000_0000),
{
    lemma2_to64();
    lemma2_to64_rest();
    lemma_pow1(RATE as int);
    lemma_rate_step(1, 151931373056000, 0, 10748925674092696411, 31);
    lemma_rate_step(2, 10748925674092696411, 31, 12526807189983929669, 63);
    lemma_rate_step(4, 12526807189983929669, 125, 17013397892658792376, 63);
    lemma_rate_step(8, 17013397892658792376, 313, 15691425364677837425, 64);
    lemma_rate_step(16, 15691425364677837425, 690, 13347657938517774272, 64);
    lemma_rate_step(32, 13347657938517774272, 1444, 9658071458669586507, 64);
    lemma_rate_step(64, 9658071458669586507, 2952, 10113258353674361731, 63);
    lemma_rate_step(128, 10113258353674361731, 5967, 11089002386489622725, 63);
    lemma_rate_step(256, 11089002386489622725, 11997, 13331997607407005294, 63);
    lemma_rate_step(512, 13331997607407005294, 24057, 9635421811767078910, 64);
    lemma_rate_step(1024, 9635421811767078910, 48178, 10065879715108643263, 63);
    lemma_rate_step(2048, 10065879715108643263, 96419, 10985346143923631395, 63);
    lemma_rate_step(4096, 10985346143923631395, 192901, 13083916535038702442, 63);
    lemma_rate_step(8192, 13083916535038702442, 385865, 9280167340741661057, 64);
    lemma_rate_step(16384, 9280167340741661057, 771794, 9337312376432783883, 63);
    lemma_rate_step(32768, 9337312376432783883, 1543651, 9452660270745793070, 63);
    lemma_rate_step(65536, 9452660270745793070, 3087365, 9687648490931496279, 63);
    lemma_rate_step(131072, 9687648490931496279, 6174793, 10175295207527038212, 63);
    lemma_rate_step(262144, 10175295207527038212, 12349649, 11225464195373529916, 63);
    lemma_rate_step(524288, 11225464195373529916, 24699361, 13662145026580061978, 63);
    lemma_rate_step(1048576, 13662145026580061978, 49398785, 10118544821865198572, 64);
    lemma_rate_step(2097152, 10118544821865198572, 98797634, 11100598447399167678, 63);
    lemma_rate_step(4194304, 11100598447399167678, 197595331, 13359895426317496601, 63);
    lemma_rate_step(8388608, 13359895426317496601, 395190725, 9675789130533880987, 64);
    lemma_rate_step(16777216, 9675789130533880987, 790381514, 10150397807273409448, 63);
    lemma_rate_step(33554432, 10150397807273409448, 1580763091, 11170597394771779339, 63);
    lemma_rate_step(67108864, 11170597394771779339, 3161526245, 13528918237004515835, 63);
    lemma_rate_step(134217728, 13528918237004515835, 6323052553, 9922164471529234787, 64);
    lemma_rate_step(268435456, 9922164471529234787, 12646105170, 10673899676462452069, 63);
    lemma_rate_step(536870912, 10673899676462452069, 25292210403, 12352546752742369897, 63);
    lemma_rate_step(1073741824, 12352546752742369897, 50584420869, 16543343439794562513, 63);
    lemma_rate_step(2147483648, 16543343439794562513, 101168841801, 14836342450104670947, 64);
    lemma_rate_step(4294967296, 14836342450104670947, 202337683666, 11932569586114141157, 64);
    lemma_rate_step(8589934592, 11932569586114141157, 404675367396, 15437544572474032463, 63);
    lemma_rate_step(17179869184, 15437544572474032463, 809350734855, 12919232872470697022, 64);
    lemma_rate_step(34359738368, 12919232872470697022, 1618701469774, 18096047448395411736, 63);
    lemma_rate_step(68719476736, 18096047448395411736, 3237402939611, 17752018022588962206, 64);
    lemma_rate_step(137438953472, 17752018022588962206, 6474805879286, 17083456170645043563, 64);
    lemma_pow2_adds(12949611758636, 63);
    lemma_pow2_pos(12949611758636);
    lemma_mul_inequality(pow2(63) as int, 17083456170645043563, pow2(12949611758636) as int);
    lemma_mul_is_commutative(pow2(63) as int, pow2(12949611758636) as int);
}

/// `2^e <= RATE^n` where `e` is at most `n` times the logarithm.
proof fn lemma_rate_bound(n: nat, e: nat)
    requires
        e * 0x40_0000_0000 <= 12949611758699 * n,
    ensures
        pow2(e) <= decay(n),
{
    let w: nat = 0x40_0000_0000;
    let j: nat = 12949611758699;
    lemma_rate_tower();
    lemma_pow_multiplies(RATE as int, n, w);
    lemma_pow_multiplies(RATE as int, w, n);
    lemma_mul_is_commutative(n as int, w as int);
    lemma_pow2_pos(j);
    precision::lemma_pow_base_monotone(pow2(j) as int, decay(w), n);
    lemma_pow2(j);
    lemma_pow_multiplies(2, j, n);
    lemma_pow2(e);
    lemma_pow_multiplies(2, e, w);
    lemma_pow_increases(2, e * w, j * n);
    lemma_pow_positive(RATE as int, n);
    lemma_pow2_pos(e);
    precision::lemma_root_order(pow2(e) as int, decay(n), w);
}

/// The ratio of a term's factor to the one before is at most one over the rate.
proof fn lemma_ratio(k: int)
    requires
        k >= 1,
    ensures
        chudnovsky::q_term(k) > 0,
        reals::rabs((chudnovsky::p_term(k) as real) / (chudnovsky::q_term(k) as real)) * (
        RATE as real) <= 1real,
{
    let u = 6 * k - 5;
    let v = 6 * k - 1;
    let w = 2 * k - 1;
    lemma_mul_nonnegative(u, v);
    lemma_mul_upper_bound(u, 6 * k, v, 6 * k);
    lemma_mul_nonnegative(u * v, w);
    lemma_mul_upper_bound(u * v, (6 * k) * (6 * k), w, 2 * k);
    assert(((6 * k) * (6 * k)) * (2 * k) == 72 * (k * k * k)) by (nonlinear_arith);
    lemma_mul_strictly_positive(k, k);
    lemma_mul_strictly_positive(k * k, k);
    let p = chudnovsky::p_term(k);
    let q = chudnovsky::q_term(k);
    let a = -p;
    let r = RATE as int;
    // |p| * RATE <= 72 * k^3 * RATE == q
    assert(0 <= a && a * r <= q);
    let (pr, qr, rr) = (p as real, q as real, r as real);
    let ar = a as real;
    reals::lemma_int_product(a, r);
    let g = pr / qr;
    assert(g * qr == pr) by (nonlinear_arith)
        requires
            g == pr / qr,
            qr > 0real,
    ;
    let h = reals::rabs(g);
    assert(h * qr == ar) by (nonlinear_arith)
        requires
            g * qr == -ar,
            ar >= 0real,
            qr > 0real,
            h == if g < 0real {
                -g
            } else {
                g
            },
    ;
    // h * RATE * q == |p| * RATE <= q
    assert((h * rr) * qr == ar * rr) by (nonlinear_arith)
        requires
            h * qr == ar,
    ;
    if h * rr > 1real {
        let x = h * rr;
        assert(x * qr > qr) by (nonlinear_arith)
            requires
                x > 1real,
                qr > 0real,
        ;
    }
}

/// The absolute value of a product.
proof fn lemma_rabs_mul(x: real, y: real)
    ensures
        reals::rabs(x * y) == reals::rabs(x) * reals::rabs(y),
        reals::rabs(x) >= 0real,
{
    assert((-x) * y == -(x * y)) by (nonlinear_arith);
    assert(x * (-y) == -(x * y)) by (nonlinear_arith);
    assert((-x) * (-y) == x * y) by (nonlinear_arith);
    if x >= 0real && y >= 0real {
        assert(x * y >= 0real) by (nonlinear_arith)
            requires
                x >= 0real,
                y >= 0real,
        ;
    } else if x < 0real && y < 0real {
        assert(x * y > 0real) by (nonlinear_arith)
            requires
                x < 0real,
                y < 0real,
        ;
    } else if x < 0real {
        assert(x * y <= 0real) by (nonlinear_arith)
            requires
                x < 0real,
                y >= 0real,
        ;
    } else {
        assert(x * y <= 0real) by (nonlinear_arith)
            requires
                x >= 0real,
                y < 0real,
        ;
    }
}

/// The factor of term `k` is at most `RATE^-k`.
proof fn lemma_factor_bound(k: nat)
    ensures
        reals::rabs(chudnovsky::factor(k)) * (decay(k) as real) <= 1real,
        decay(k) >= 1,
    decreases k,
{
    lemma_pow_positive(RATE as int, k);
    if k == 0 {
        lemma_pow0(RATE as int);
        assert(1real * 1real == 1real) by (nonlinear_arith);
    } else {
        let j = (k - 1) as nat;
        lemma_factor_bound(j);
        lemma_ratio(k as int);
        let f = chudnovsky::factor(j);
        let g = (chudnovsky::p_term(k as int) as real) / (chudnovsky::q_term(k as int) as real);
        lemma_rabs_mul(f, g);
        lemma_rabs_mul(g, g);
        let (fa, ga) = (reals::rabs(f), reals::rabs(g));
        let w = decay(j) as real;
        let r = RATE as real;
        lemma_pow_adds(RATE as int, j, 1);
        lemma_pow1(RATE as int);
        reals::lemma_int_product(decay(j), RATE as int);
        accuracy::lemma_regroup(fa, ga, w, r);
        lemma_unit_product(fa * w, ga * r);
    }
}

/// Two numbers up to one have a product up to one.
proof fn lemma_unit_product(x: real, y: real)
    requires
        x <= 1real,
        0real <= y <= 1real,
    ensures
        x * y <= 1real,
{
    assert(x * y <= y) by (nonlinear_arith)
        requires
            x <= 1real,
            y >= 0real,
    ;
}

/// The absolute value of term `k`.
spec fn weight(k: nat) -> real {
    reals::rabs(chudnovsky::factor(k)) * (chudnovsky::l_term(k as int) as real)
}

/// Every term is at most half of the one before.
proof fn lemma_terms_halve(k: nat)
    requires
        k >= 1,
    ensures
        weight(k + 1) * 2real <= weight(k),
        weight(k) >= 0real,
{
    let f = chudnovsky::factor(k);
    let g = (chudnovsky::p_term(k as int + 1) as real) / (chudnovsky::q_term(k as int + 1) as real);
    lemma_ratio(k as int + 1);
    lemma_rabs_mul(f, g);
    lemma_rabs_mul(g, g);
    let (fa, ga) = (reals::rabs(f), reals::rabs(g));
    let l = chudnovsky::l_term(k as int) as real;
    let m = chudnovsky::l_term(k as int + 1) as real;
    assert(0real <= m <= 2real * l);
    // g * 4 <= g * RATE <= 1
    assert(ga * 4real <= 1real) by (nonlinear_arith)
        requires
            ga >= 0real,
            ga * (RATE as real) <= 1real,
            (RATE as real) >= 4real,
    ;
    accuracy::lemma_regroup(fa, ga, m, 2real);
    // (f * g) * (m * 2) == (f * m) * (g * 2)
    assert(((fa * ga) * m) * 2real == (fa * ga) * (m * 2real)) by {
        reals::lemma_real_assoc(fa * ga, m, 2real);
    }
    let x = fa * m;
    let y = fa * l;
    assert(0real <= x <= 2real * y) by (nonlinear_arith)
        requires
            x == fa * m,
            y == fa * l,
            0real <= m <= 2real * l,
            fa >= 0real,
    ;
    let h = ga * 2real;
    assert(0real <= h && h * 2real <= 1real);
    assert(x * h <= y) by (nonlinear_arith)
        requires
            0real <= x <= 2real * y,
            0real <= h,
            h * 2real <= 1real,
    ;
}

/// The terms `n + 1` to `m`, times `RATE^n`, are together below the linear part
/// of term `n + 1`.
proof fn lemma_tail(n: nat, m: nat)
    requires
        n < m,
    ensures
        (reals::rabs(chudnovsky::series(m) - chudnovsky::series(n)) + weight(m)) * (decay(
            n,
        ) as real) <= (chudnovsky::l_term(n as int + 1) as real),
    decreases m - n,
{
    let w = decay(n) as real;
    lemma_factor_bound(n);
    if m == n + 1 {
        let f = reals::rabs(chudnovsky::factor(m));
        let l = chudnovsky::l_term(n as int + 1) as real;
        lemma_factor_bound(m);
        lemma_rabs_mul(chudnovsky::factor(m), l);
        lemma_pow_adds(RATE as int, n, 1);
        lemma_pow1(RATE as int);
        reals::lemma_int_product(decay(n), RATE as int);
        let r = RATE as real;
        // f * w * RATE <= 1, so f * w * 2 <= 1.
        reals::lemma_real_assoc(f, w, r);
        let x = f * w;
        lemma_rabs_mul(chudnovsky::factor(m), 1real);
        assert(x >= 0real) by (nonlinear_arith)
            requires
                x == f * w,
                f >= 0real,
                w >= 1real,
        ;
        assert(x * 2real <= 1real) by (nonlinear_arith)
            requires
                x >= 0real,
                x * r <= 1real,
                r >= 2real,
        ;
        // (f * l + f * l) * w == (x * 2) * l <= l
        let d = f * l;
        assert(reals::rabs(chudnovsky::series(m) - chudnovsky::series(n)) == d);
        assert((d + d) * w == (x * 2real) * l) by {
            reals::lemma_real_distrib(d, d, w);
            reals::lemma_real_assoc(f, l, w);
            reals::lemma_real_comm(l, w);
            reals::lemma_real_assoc(f, w, l);
            reals::lemma_real_assoc(x, 2real, l);
            reals::lemma_real_comm(2real, l);
            reals::lemma_real_assoc(x, l, 2real);
        }
        let y = x * 2real;
        assert(y * l <= l) by (nonlinear_arith)
            requires
                y <= 1real,
                l >= 0real,
        ;
    } else {
        let k = (m - 1) as nat;
        lemma_tail(n, k);
        lemma_terms_halve(k);
        let t = chudnovsky::factor(m) * (chudnovsky::l_term(m as int) as real);
        lemma_rabs_mul(chudnovsky::factor(m), chudnovsky::l_term(m as int) as real);
        assert(reals::rabs(t) == weight(m));
        let a = reals::rabs(chudnovsky::series(k) - chudnovsky::series(n));
        let b = reals::rabs(chudnovsky::series(m) - chudnovsky::series(n));
        assert(b <= a + weight(m));
        accuracy::lemma_mul_le(b + weight(m), a + weight(k), w);
    }
}

/// The planned number of terms, from below: it is at least the digits over the
/// digits per term, and seven more.
proof fn lemma_term_count_lower(digits: int)
    requires
        1 <= digits <= 400_000_000_000,
    ensures
        (algorithm::term_count(digits) - 7) * DIGITS_PER_TERM_SCALED >= digits
            * 0x2_0000_0000_0000,
        9 <= algorithm::term_count(digits) <= digits / 14 + 9,
{
    lemma2_to64();
    lemma2_to64_rest();
    let c = DIGITS_PER_TERM_SCALED as int;
    let s = double::shortfall(digits);
    let x = double::quotient_bits(digits, c);
    let drop = double::double_drop(x);
    let m = double::round_even(x, drop);
    algorithm::lemma_term_bound(digits);
    let t = (16 + s - drop) as nat;
    let u = pow2(t) as int;
    let top = digits * pow2(s);
    let n = top * 0x1_0000_0000_0000_0000;
    let q = n / c;
    lemma_fundamental_div_mod(n, c);
    lemma_mod_bound(n, c);
    let p = pow2(drop) as int;
    lemma_pow2_pos(drop);
    lemma_fundamental_div_mod(x, p);
    lemma_mod_bound(x, p);
    assert(m * p >= x - p) by (nonlinear_arith)
        requires
            m >= x / p,
            x == p * (x / p) + x % p,
            x % p < p,
            p > 0,
    ;
    lemma_pow2_adds(drop, t);
    lemma_pow2_adds(16, s);
    assert(n == digits * (65536 * pow2(s)) * 0x1_0000_0000_0000) by (nonlinear_arith)
        requires
            n == (digits * pow2(s)) * 0x1_0000_0000_0000_0000,
    ;
    let w = p * u;
    assert(w == 65536 * pow2(s));
    lemma_pow2_pos(s);
    let k = digits * w;
    // The ceiling of m / u.
    let r = (m + (u - 1)) / u;
    lemma_pow2_pos(t);
    lemma_fundamental_div_mod(m + (u - 1), u);
    lemma_mod_bound(m + (u - 1), u);
    lemma_mul_is_commutative(u, r);
    assert(r * u >= m);
    assert(14 * r < digits + 14) by (nonlinear_arith)
        requires
            r * u <= m + (u - 1),
            14 * m <= digits * u,
            u >= 1,
    ;
    assert(r >= 1) by (nonlinear_arith)
        requires
            r * u >= m,
            m >= 1,
            u >= 1,
    ;
    // r * w >= m * p >= x - p, and 2 * q <= x.
    lemma_mul_inequality(m, r * u, p);
    assert((r * u) * p == r * w) by (nonlinear_arith)
        requires
            w == p * u,
    ;
    assert(r * w >= 2 * q - p);
    assert(c * q > n - c);
    // p is small against the unit w.
    lemma_drop_small(digits);
    assert(p + 2 <= w) by {
        assert(p <= 0x2000);
    }
    // (r + 1) * c * w >= digits * 2^49 * w
    assert((r * w) * c >= 2 * (c * q) - p * c) by (nonlinear_arith)
        requires
            r * w >= 2 * q - p,
            c > 0,
    ;
    assert((r * w) * c + w * c >= 2 * n - 2 * c - p * c + w * c);
    assert(w * c >= (p + 2) * c) by (nonlinear_arith)
        requires
            p + 2 <= w,
            c > 0,
    ;
    assert((p + 2) * c == p * c + 2 * c) by (nonlinear_arith);
    assert((r * w) * c + w * c >= 2 * n);
    assert(2 * n == (digits * 0x2_0000_0000_0000) * w) by (nonlinear_arith)
        requires
            n == digits * w * 0x1_0000_0000_0000,
    ;
    assert((r * w) * c + w * c == ((r + 1) * c) * w) by (nonlinear_arith);
    assert((r + 1) * c >= digits * 0x2_0000_0000_0000) by (nonlinear_arith)
        requires
            ((r + 1) * c) * w >= (digits * 0x2_0000_0000_0000) * w,
            w > 0,
    ;
}

/// Few bits of the quotient are cut off.
proof fn lemma_drop_small(digits: int)
    requires
        1 <= digits <= 400_000_000_000,
    ensures
        pow2(double::double_drop(double::quotient_bits(digits, DIGITS_PER_TERM_SCALED as int)))
            <= 0x2000,
{
    lemma2_to64();
    lemma2_to64_rest();
    let c = DIGITS_PER_TERM_SCALED as int;
    let s = double::shortfall(digits);
    bitlen::lemma_bit_len_at_most(digits, 53);
    bitlen::lemma_bit_len(digits);
    lemma_pow2_adds(bitlen::bit_len(digits), s);
    let b = pow2(bitlen::bit_len(digits)) as int;
    let w = pow2(s) as int;
    lemma_pow2_pos(s);
    lemma_mul_inequality(digits, b, w);
    let n = digits * w * 0x1_0000_0000_0000_0000;
    let x = double::quotient_bits(digits, c);
    lemma_fundamental_div_mod(n, c);
    lemma_mod_bound(n, c);
    assert(x <= 2 * (n / c) + 1);
    assert(n <= 0x20_0000_0000_0000 * 0x1_0000_0000_0000_0000);
    assert(x < 0x4_0000_0000_0000_0000);
    lemma_mul_nonnegative(digits, w);
    lemma_div_pos_is_pos(n, c);
    lemma_pow2_adds(64, 2);
    bitlen::lemma_bit_len_at_most(x, 66);
    let drop = double::double_drop(x);
    if drop < 13 {
        lemma_pow2_strictly_increases(drop, 13);
    }
}

/// The planned number of terms suffices: however many terms are added beyond
/// it, the sum of the series changes by less than `2^-200` units of the last
/// digit.
pub proof fn law_terms_suffice(digits: nat, m: nat)
    requires
        1 <= digits <= 400_000_000_000,
        m >= algorithm::term_count(digits as int),
    ensures
        reals::rabs(
            chudnovsky::series(m) - chudnovsky::series(
                algorithm::term_count(digits as int) as nat,
            ),
        ) * ((pow(10, digits) * pow2(200)) as real) <= 1real,
{
    let n = algorithm::term_count(digits as int) as nat;
    lemma_term_count_lower(digits as int);
    let d = digits as int;
    let c = DIGITS_PER_TERM_SCALED as int;
    let jr: int = 12949611758699;
    let j: int = 913124641742;
    let w: int = 0x40_0000_0000;
    // The exponents of ten to the digits and of the rate to the terms.
    let e1 = (j * d) / w + 1;
    lemma_fundamental_div_mod(j * d, w);
    lemma_mod_bound(j * d, w);
    let e = (e1 + 270) as nat;
    assert((n - 7) * c >= d * 0x2_0000_0000_0000);
    assert(jr * n >= j * d + 272 * w) by {
        let a = n - 7;
        assert(a * 7983557778578775 >= d * 0x2_0000_0000_0000);
    }
    assert(e * w <= jr * n);
    lemma_mul_nonnegative(j, d);
    lemma_div_pos_is_pos(j * d, w);
    lemma_rate_bound(n, e);
    precision::lemma_ten_bound(digits);
    lemma_pow2_adds(e1 as nat, 270);
    lemma_pow2_adds(70, 200);
    let ten = pow(10, digits);
    lemma_pow_positive(10, digits);
    let r = decay(n);
    let x = pow2(270) as int;
    lemma_pow2_pos(270);
    lemma_pow2_pos(200);
    lemma_mul_inequality(ten, pow2(e1 as nat) as int, x);
    assert(ten * x <= r);
    let y = ten * pow2(200);
    assert(y * pow2(70) == ten * x) by {
        lemma_mul_is_commutative(pow2(70) as int, pow2(200) as int);
        lemma_mul_is_associative(ten, pow2(200) as int, pow2(70) as int);
    }
    let l = chudnovsky::l_term(n as int + 1);
    lemma2_to64();
    lemma2_to64_rest();
    lemma_pow2_adds(64, 6);
    assert(0 <= l <= pow2(70));
    let diff = reals::rabs(chudnovsky::series(m) - chudnovsky::series(n));
    lemma_factor_bound(n);
    lemma_rabs_mul(chudnovsky::series(m) - chudnovsky::series(n), 1real);
    if m == n {
        let yr = y as real;
        assert(0real * yr == 0real) by (nonlinear_arith);
    } else {
        lemma_tail(n, m);
        lemma_weight_positive(m);
        let rr = r as real;
        accuracy::lemma_mul_le(diff, diff + weight(m), rr);
        let yr = y as real;
        let zr = pow2(70) as real;
        lemma_mul_nonnegative(ten, pow2(200) as int);
        reals::lemma_int_product(y, pow2(70) as int);
        // diff * y * 2^70 <= diff * r <= l <= 2^70
        assert(yr * zr <= rr);
        let yz = yr * zr;
        assert(diff * yz <= diff * rr) by (nonlinear_arith)
            requires
                diff >= 0real,
                yz <= rr,
        ;
        reals::lemma_real_assoc(diff, yr, zr);
        let v = diff * yr;
        assert(v * zr <= zr);
        assert(v <= 1real) by (nonlinear_arith)
            requires
                v * zr <= zr,
                zr > 0real,
        ;
    }
}

/// The constant and the sum of the first `m` terms of the series.
pub open spec fn full_sum(m: nat) -> real {
    (TERM_A as real) + chudnovsky::series(m)
}

/// Squares of products with a common factor compare as those without it.
proof fn lemma_cancel_square(x: real, y: real, q: real)
    requires
        q > 0real,
    ensures
        (x * q) * (x * q) <= y * (q * q) ==> x * x <= y,
        y * (q * q) <= (x * q) * (x * q) ==> y <= x * x,
{
    accuracy::lemma_regroup(x, q, x, q);
    accuracy::lemma_mul_positive(q, q);
    let s = x * x;
    let p = q * q;
    if s > y {
        assert(s * p > y * p) by (nonlinear_arith)
            requires
                s > y,
                p > 0real,
        ;
    }
    if s < y {
        assert(s * p < y * p) by (nonlinear_arith)
            requires
                s < y,
                p > 0real,
        ;
    }
}

/// A number whose square is at most that of another is at most the other.
proof fn lemma_root_le(x: real, y: real)
    requires
        y >= 0real,
        x * x <= y * y,
    ensures
        x <= y,
{
    if x > y {
        assert(x * x > y * y) by (nonlinear_arith)
            requires
                x > y,
                y >= 0real,
        ;
    }
}

/// The bracket of the digits without the common denominator.
proof fn lemma_reduced_bracket(v: int, digits: nat)
    requires
        1 <= digits <= 400_000_000_000,
        algorithm::spells_chudnovsky(v, digits),
    ensures
        ({
            let n = algorithm::term_count(digits as int) as nat;
            let g = accuracy::guard();
            let scale = (pow(10, (digits - 1) as nat) * g) as real;
            let square = (scale * scale) * (chudnovsky_assembly::numerator_square() as real);
            let a = full_sum(n);
            let low = ((v * g - 1) as real) * a;
            let high = (((v + 1) * g + 1) as real) * a;
            &&& v >= 1
            &&& ((TERM_A - 1) as real) <= a <= ((TERM_A + 1) as real)
            &&& low * low <= square
            &&& square <= high * high
        }),
{
    let n = algorithm::term_count(digits as int) as nat;
    lemma_term_count_lower(digits as int);
    chudnovsky::law_partial_sum(n);
    chudnovsky_assembly::lemma_denominator(n);
    let q = chudnovsky::split_q(1, n as int + 1);
    let t = chudnovsky::split_t(1, n as int + 1);
    let den = chudnovsky_assembly::denominator(n as int);
    let g = accuracy::guard();
    let s = pow(10, (digits - 1) as nat) * g;
    let k = chudnovsky_assembly::numerator_square();
    let a = full_sum(n);
    let (qr, tr, sr, kr) = (q as real, t as real, s as real, k as real);
    // den == a * q
    reals::lemma_int_product(TERM_A as int, q);
    reals::lemma_real_distrib(TERM_A as real, chudnovsky::series(n), qr);
    assert(den as real == a * qr);
    // A - 1 <= a <= A + 1
    reals::lemma_int_product(TERM_A - 1, q);
    reals::lemma_int_product(TERM_A + 1, q);
    let (lo, hi) = ((TERM_A - 1) as real, (TERM_A + 1) as real);
    assert(lo <= a <= hi) by (nonlinear_arith)
        requires
            lo * qr <= a * qr,
            a * qr <= hi * qr,
            qr > 0real,
    ;
    // square * q^2
    reals::lemma_int_product(s, s);
    reals::lemma_int_product(q, q);
    reals::lemma_int_product(k, q * q);
    reals::lemma_int_product(s * s, k * (q * q));
    let square = (sr * sr) * kr;
    reals::lemma_real_assoc(sr * sr, kr, qr * qr);
    // The two bounds, as products with den.
    let (x, y) = (v * g - 1, (v + 1) * g + 1);
    reals::lemma_int_product(x, den);
    reals::lemma_int_product(x * den, x * den);
    reals::lemma_int_product(y, den);
    reals::lemma_int_product(y * den, y * den);
    let (low, high) = ((x as real) * a, (y as real) * a);
    reals::lemma_real_assoc(x as real, a, qr);
    reals::lemma_real_assoc(y as real, a, qr);
    lemma_cancel_square(low, square, qr);
    lemma_cancel_square(high, square, qr);
}

/// The digits are those of the whole series: however many terms beyond the
/// planned ones are summed up, `v` is the integer part of
/// `10^(digits - 1) * 426880 * sqrt(10005)` over the constant and the sum, up
/// to the error `2 / guard()`.
pub proof fn law_digits_of_series(v: int, digits: nat, m: nat)
    requires
        1 <= digits <= 400_000_000_000,
        algorithm::spells_chudnovsky(v, digits),
        m >= algorithm::term_count(digits as int),
    ensures
        ({
            let g = accuracy::guard();
            let scale = (pow(10, (digits - 1) as nat) * g) as real;
            let square = (scale * scale) * (chudnovsky_assembly::numerator_square() as real);
            let b = full_sum(m);
            let low = ((v * g - 2) as real) * b;
            let high = (((v + 1) * g + 2) as real) * b;
            &&& v >= 1
            &&& b > 0real
            &&& low * low <= square
            &&& square <= high * high
        }),
{
    let n = algorithm::term_count(digits as int) as nat;
    lemma_reduced_bracket(v, digits);
    law_terms_suffice(digits, m);
    let g = accuracy::guard();
    let gr = g as real;
    lemma_pow2_pos(189);
    lemma_pow2_unfold(190);
    assert(gr >= 2real);
    let s = pow(10, (digits - 1) as nat);
    lemma_pow_positive(10, (digits - 1) as nat);
    let sr = s as real;
    let scale = (s * g) as real;
    reals::lemma_int_product(s, g);
    let kr = chudnovsky_assembly::numerator_square() as real;
    let square = (scale * scale) * kr;
    let (a, b) = (full_sum(n), full_sum(m));
    let vr = v as real;
    reals::lemma_int_product(v, g);
    reals::lemma_int_product(v + 1, g);
    reals::lemma_real_distrib(vr, 1real, gr);
    let vg = vr * gr;
    let x = vg - 1real;
    let y = vg + gr + 1real;
    assert((v * g - 1) as real == x && (v * g - 2) as real == x - 1real);
    assert(((v + 1) * g + 1) as real == y && ((v + 1) * g + 2) as real == y + 1real);
    let low = x * a;
    let high = y * a;
    // The size of v: low <= h * scale, where h^2 is above the square of the
    // numerator.
    let h = 42_698_672real;
    let sh = scale * h;
    accuracy::lemma_regroup(scale, h, scale, h);
    assert(h * h >= kr);
    accuracy::lemma_mul_le_both(1real, sr, 1real, gr);
    assert(scale >= 1real);
    accuracy::lemma_mul_positive(scale, scale);
    accuracy::lemma_mul_le(kr, h * h, scale * scale);
    accuracy::lemma_mul_positive(scale, h);
    lemma_root_le(low, sh);
    assert(x <= 4real * scale) by (nonlinear_arith)
        requires
            x * a <= scale * 42_698_672real,
            a >= 13_591_408real,
            scale >= 1real,
    ;
    assert(vr <= 4real * sr + 1real) by (nonlinear_arith)
        requires
            vr * gr - 1real <= 4real * (sr * gr),
            gr >= 1real,
    ;
    // The change of the sum, times 10^digits, is small.
    let ten = pow(10, digits);
    lemma_pow_adds(10, (digits - 1) as nat, 1);
    lemma_pow1(10);
    reals::lemma_int_product(s, 10);
    let diff = reals::rabs(chudnovsky::series(m) - chudnovsky::series(n));
    lemma_rabs_mul(chudnovsky::series(m) - chudnovsky::series(n), 1real);
    lemma_pow2_strictly_increases(190, 200);
    lemma_pow_positive(10, digits);
    reals::lemma_int_product(ten, pow2(200) as int);
    let tr = ten as real;
    let w = pow2(200) as real;
    let td = diff * tr;
    reals::lemma_real_assoc(diff, tr, w);
    assert(td >= 0real) by {
        accuracy::lemma_mul_le_both(0real, diff, 0real, tr);
    }
    accuracy::lemma_mul_le(gr, w, td);
    reals::lemma_real_comm(td, gr);
    reals::lemma_real_comm(td, w);
    assert(td * gr <= 1real);
    // y + 1 <= 10^digits * guard, so the error is one at most.
    let z = (y + 1real) * diff;
    let tg = tr * gr;
    accuracy::lemma_mul_le(vr + 3real, tr, gr);
    reals::lemma_real_distrib(vr, 3real, gr);
    assert(y + 1real <= tg);
    accuracy::lemma_mul_le(y + 1real, tg, diff);
    reals::lemma_real_assoc(diff, tr, gr);
    reals::lemma_real_comm(diff, tg);
    assert(z <= 1real);
    assert(vg >= gr) by (nonlinear_arith)
        requires
            vg == vr * gr,
            vr >= 1real,
            gr >= 0real,
    ;
    accuracy::lemma_mul_le(1real, y + 1real, diff);
    assert(diff <= z);
    assert(-diff <= b - a <= diff);
    assert(b > 0real);
    // (y + 1) * b >= y * a and (x - 1) * b <= x * a
    let e = b - a;
    let (c1, c2) = ((y + 1real) * b, (x - 1real) * b);
    assert(c1 == high + a + (y + 1real) * e) by (nonlinear_arith)
        requires
            c1 == (y + 1real) * b,
            high == y * a,
            e == b - a,
    ;
    assert(-z <= (y + 1real) * e) by (nonlinear_arith)
        requires
            z == (y + 1real) * diff,
            -diff <= e,
            y >= 0real,
    ;
    assert(c2 == low - a + (x - 1real) * e) by (nonlinear_arith)
        requires
            c2 == (x - 1real) * b,
            low == x * a,
            e == b - a,
    ;
    assert((x - 1real) * e <= z) by {
        accuracy::lemma_mul_le(e, diff, x - 1real);
        accuracy::lemma_mul_le(x - 1real, y + 1real, diff);
        reals::lemma_real_comm(x - 1real, e);
        reals::lemma_real_comm(x - 1real, diff);
    }
    accuracy::lemma_mul_le_both(0real, y, 0real, a);
    accuracy::lemma_mul_le_both(0real, x - 1real, 0real, b);
    accuracy::lemma_mul_le_both(high, c1, high, c1);
    accuracy::lemma_mul_le_both(c2, low, c2, low);
}

proof fn lemma_weight_positive(k: nat)
    ensures
        weight(k) >= 0real,
{
    let f = reals::rabs(chudnovsky::factor(k));
    let l = chudnovsky::l_term(k as int) as real;
    assert(f * l >= 0real) by (nonlinear_arith)
        requires
            f >= 0real,
            l >= 0real,
    ;
}

/// The digits of `w` behind the first ones are further from all zeros and from
/// all nines than `2 / guard()` units of the last of the first ones: `t` is the
/// power of ten that separates them.
pub open spec fn settled_behind(w: int, t: int) -> bool {
    let r = w % t;
    &&& 2 * t + 2 < r * accuracy::guard()
    &&& 2 * t + 2 < (t - r - 1) * accuracy::guard()
}

/// The bounds of a bracket are in order.
pub proof fn lemma_bracketed(x: real, y: real, b: real, square: real)
    requires
        b > 0real,
        y >= 0real,
        (x * b) * (x * b) <= square,
        square <= (y * b) * (y * b),
    ensures
        x <= y,
{
    accuracy::lemma_mul_le_both(0real, y, 0real, b);
    lemma_root_le(x * b, y * b);
    assert(x <= y) by (nonlinear_arith)
        requires
            x * b <= y * b,
            b > 0real,
    ;
}

/// A bound of a bracket, and the bracket, times a factor.
pub proof fn lemma_bound_scales(x: real, b: real, t: real)
    ensures
        ((t * x) * b) * ((t * x) * b) == (t * t) * ((x * b) * (x * b)),
{
    reals::lemma_real_assoc(t, x, b);
    accuracy::lemma_regroup(t, x * b, t, x * b);
}

/// More digits keep the first ones: what is spelled to `b` digits begins with
/// what is spelled to `a` digits.
///
/// This holds where the digits behind the first `a` are neither all zeros nor
/// all nines as far as the computation looks.
pub proof fn law_more_digits(v: int, a: nat, w: int, b: nat)
    requires
        1 <= a < b <= 400_000_000_000,
        algorithm::spells_chudnovsky(v, a),
        algorithm::spells_chudnovsky(w, b),
        settled_behind(w, pow(10, (b - a) as nat)),
    ensures
        v == w / pow(10, (b - a) as nat),
        digits::digit_text(w, b).take(a as int) == digits::digit_text(v, a),
{
    let (i, j) = (algorithm::term_count(a as int), algorithm::term_count(b as int));
    lemma_term_count_lower(a as int);
    lemma_term_count_lower(b as int);
    let m: nat = if i >= j { i as nat } else { j as nat };
    law_digits_of_series(v, a, m);
    law_digits_of_series(w, b, m);
    let g = accuracy::guard();
    lemma_pow2_pos(190);
    let n = (b - a) as nat;
    let t = pow(10, n);
    let (p, q) = (pow(10, (a - 1) as nat), pow(10, (b - 1) as nat));
    lemma_pow_positive(10, n);
    lemma_pow_positive(10, (a - 1) as nat);
    lemma_pow_adds(10, n, (a - 1) as nat);
    assert(q == t * p);
    let (sv, sw) = ((p * g) as real, (q * g) as real);
    let kr = chudnovsky_assembly::numerator_square() as real;
    let tr = t as real;
    assert(q * g == t * (p * g)) by (nonlinear_arith)
        requires
            q == t * p,
    ;
    reals::lemma_int_product(t, p * g);
    assert(sw == tr * sv);
    let (x, y) = ((sv * sv) * kr, (sw * sw) * kr);
    accuracy::lemma_regroup(tr, sv, tr, sv);
    reals::lemma_real_assoc(tr * tr, sv * sv, kr);
    assert(y == (tr * tr) * x);
    let s = full_sum(m);
    let (vl, vh) = (((v * g - 2) as real), (((v + 1) * g + 2) as real));
    let (wl, wh) = (((w * g - 2) as real), (((w + 1) * g + 2) as real));
    assert((v + 1) * g + 2 >= 0 && (w + 1) * g + 2 >= 0) by (nonlinear_arith)
        requires
            v >= 1,
            w >= 1,
            g > 0,
    ;
    accuracy::lemma_mul_positive(tr, tr);
    lemma_bound_scales(vl, s, tr);
    accuracy::lemma_mul_le((vl * s) * (vl * s), x, tr * tr);
    lemma_bracketed(tr * vl, wh, s, y);
    lemma_bound_scales(vh, s, tr);
    accuracy::lemma_mul_le(x, (vh * s) * (vh * s), tr * tr);
    accuracy::lemma_mul_le_both(0real, tr, 0real, vh);
    lemma_bracketed(wl, tr * vh, s, y);
    reals::lemma_int_product(t, v * g - 2);
    reals::lemma_int_product(t, (v + 1) * g + 2);
    lemma_prefix(v, w, t, g);
    digits::law_text_prefix(v, a, w, b);
}

/// The quotient is settled where the remainder is.
proof fn lemma_prefix(v: int, w: int, t: int, g: int)
    requires
        t > 0,
        g > 0,
        t * (v * g - 2) <= (w + 1) * g + 2,
        w * g - 2 <= t * ((v + 1) * g + 2),
        2 * t + 2 < (w % t) * g,
        2 * t + 2 < (t - w % t - 1) * g,
    ensures
        v == w / t,
{
    let q = w / t;
    let r = w % t;
    lemma_fundamental_div_mod(w, t);
    let tg = t * g;
    assert(t * (v * g - 2) == v * tg - 2 * t) by (nonlinear_arith)
        requires
            tg == t * g,
    ;
    assert(t * ((v + 1) * g + 2) == (v + 1) * tg + 2 * t) by (nonlinear_arith)
        requires
            tg == t * g,
    ;
    assert(w * g == q * tg + r * g) by (nonlinear_arith)
        requires
            w == t * q + r,
            tg == t * g,
    ;
    assert((w + 1) * g == w * g + g) by (nonlinear_arith);
    assert((t - r - 1) * g == tg - r * g - g) by (nonlinear_arith)
        requires
            tg == t * g,
    ;
    assert(tg > 0) by (nonlinear_arith)
        requires
            tg == t * g,
            t > 0,
            g > 0,
    ;
    if v >= q + 1 {
        assert(v * tg >= q * tg + tg) by (nonlinear_arith)
            requires
                v >= q + 1,
                tg > 0,
        ;
    }
    if v <= q - 1 {
        assert((v + 1) * tg <= q * tg) by (nonlinear_arith)
            requires
                v + 1 <= q,
                tg > 0,
        ;
    }
}

} // verus!
