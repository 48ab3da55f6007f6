//! Bit lengths, and single bits of a natural number.
use vstd::arithmetic::div_mod::*;
use vstd::arithmetic::mul::*;
use vstd::arithmetic::power2::*;
use vstd::prelude::*;

verus! {

/// Number of bits of `x`: the least `n` with `x < 2^n`, and zero for zero.
pub open spec fn bit_len(x: int) -> nat
    decreases x,
{
    if x <= 0 {
        0
    } else {
        bit_len(x / 2) + 1
    }
}

/// Bit `i` of `x`.
pub open spec fn bit(x: int, i: nat) -> int {
    (x / (pow2(i) as int)) % 2
}

pub proof fn lemma_bit_len(x: int)
    requires
        x >= 0,
    ensures
        x < pow2(bit_len(x)),
        x > 0 ==> bit_len(x) >= 1 && pow2((bit_len(x) - 1) as nat) <= x,
    decreases x,
{
    if x == 0 {
        lemma2_to64();
    } else {
        lemma_bit_len(x / 2);
        lemma_pow2_unfold(bit_len(x));
        lemma2_to64();
        if x / 2 > 0 {
            lemma_pow2_unfold((bit_len(x) - 1) as nat);
        } else {
            assert(x == 1);
        }
    }
}

pub proof fn lemma_bit_len_unique(x: int, n: nat)
    requires
        n >= 1,
        pow2((n - 1) as nat) <= x < pow2(n),
    ensures
        bit_len(x) == n,
{
    lemma_pow2_pos((n - 1) as nat);
    lemma_bit_len(x);
    let m = bit_len(x);
    if m < n {
        if m < n - 1 {
            lemma_pow2_strictly_increases(m, (n - 1) as nat);
        }
    } else if m > n {
        if n < m - 1 {
            lemma_pow2_strictly_increases(n, (m - 1) as nat);
        }
    }
}

/// A number below `2^n` has at most `n` bits.
pub proof fn lemma_bit_len_at_most(x: int, n: nat)
    requires
        0 <= x < pow2(n),
    ensures
        bit_len(x) <= n,
{
    lemma_bit_len(x);
    if bit_len(x) > n {
        if bit_len(x) - 1 > n {
            lemma_pow2_strictly_increases(n, (bit_len(x) - 1) as nat);
        }
    }
}

pub proof fn lemma_bit_len_monotone(x: int, y: int)
    requires
        0 <= x <= y,
    ensures
        bit_len(x) <= bit_len(y),
{
    lemma_bit_len(y);
    lemma_bit_len_at_most(x, bit_len(y));
}

/// Shifting left adds to the bit length.
pub proof fn lemma_bit_len_shift(x: int, k: nat)
    requires
        x > 0,
    ensures
        bit_len(x * pow2(k)) == bit_len(x) + k,
{
    lemma_bit_len(x);
    let n = bit_len(x);
    lemma_pow2_adds(n, k);
    lemma_pow2_adds((n - 1) as nat, k);
    lemma_pow2_pos(k);
    let p = pow2(k) as int;
    let a = pow2((n - 1) as nat) as int;
    let b = pow2(n) as int;
    assert(a * p <= x * p < b * p) by (nonlinear_arith)
        requires
            a <= x < b,
            p > 0,
    ;
    assert((n + k - 1) as nat == (n - 1) as nat + k);
    lemma_bit_len_unique(x * p, n + k);
}

/// Shifting right takes from the bit length.
pub proof fn lemma_bit_len_drop(x: int, k: nat)
    requires
        x > 0,
        k < bit_len(x),
    ensures
        bit_len(x / (pow2(k) as int)) == bit_len(x) - k,
{
    lemma_bit_len(x);
    let n = bit_len(x);
    let p = pow2(k) as int;
    lemma_pow2_pos(k);
    lemma_pow2_adds((n - k) as nat, k);
    lemma_pow2_adds((n - k - 1) as nat, k);
    let a = pow2((n - k - 1) as nat) as int;
    let b = pow2((n - k) as nat) as int;
    let q = x / p;
    lemma_fundamental_div_mod(x, p);
    lemma_mod_bound(x, p);
    assert(a <= q < b) by (nonlinear_arith)
        requires
            x == p * q + x % p,
            0 <= x % p < p,
            a * p <= x < b * p,
    ;
    lemma_bit_len_unique(q, (n - k) as nat);
}

/// The low `i + 1` bits of `x` are its low `i` bits and bit `i`.
pub proof fn lemma_low_bits_next(x: int, i: nat)
    requires
        x >= 0,
    ensures
        x % (pow2(i + 1) as int) == x % (pow2(i) as int) + bit(x, i) * pow2(i),
        0 <= bit(x, i) <= 1,
{
    lemma_pow2_pos(i);
    lemma_pow2_adds(i, 1);
    lemma2_to64();
    lemma_mod_breakdown(x, pow2(i) as int, 2);
    lemma_mul_is_commutative(pow2(i) as int, bit(x, i));
}

/// The bit length is the least number of bits that hold the number.
pub proof fn law_bit_len(x: int, n: nat)
    requires
        x >= 0,
    ensures
        bit_len(x) <= n <==> x < pow2(n),
{
    lemma_bit_len(x);
    let m = bit_len(x);
    if m <= n {
        if m < n {
            lemma_pow2_strictly_increases(m, n);
        }
    } else {
        if n < m - 1 {
            lemma_pow2_strictly_increases(n, (m - 1) as nat);
        }
    }
}

} // verus!
