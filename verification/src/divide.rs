//! Division of limb magnitudes: one-limb divisors and Knuth's Algorithm D.
use crate::limbs;
use crate::limbs::{copy_limbs, high_limb, join_limbs, low_limb, mul_wide, strip};
use crate::magnitude;
use crate::magnitude::{cmp_mag, shl_mag, shr_mag};
use core::cmp::Ordering;
use vstd::arithmetic::div_mod::*;
use vstd::arithmetic::mul::*;
use vstd::arithmetic::power2::*;
use vstd::prelude::*;

verus! {

/// A nonzero limb lies between the powers of two that its leading zeros give.
pub proof fn lemma_leading_zeros(top: u64)
    requires
        top != 0,
    ensures
        vstd::std_specs::bits::u64_leading_zeros(top) < 64,
        pow2((63 - vstd::std_specs::bits::u64_leading_zeros(top)) as nat) <= top,
        top < pow2((64 - vstd::std_specs::bits::u64_leading_zeros(top)) as nat),
{
    vstd::std_specs::bits::axiom_u64_leading_zeros(top);
    let z = vstd::std_specs::bits::u64_leading_zeros(top);
    let s: u64 = (63 - z) as u64;
    vstd::bits::lemma_u64_shr_is_div(top, s);
    lemma_pow2_pos(s as nat);
    let h: u64 = top >> s;
    assert(h & 1u64 != 0 ==> h >= 1) by (bit_vector);
    lemma_fundamental_div_mod(top as int, pow2(s as nat) as int);
    assert(pow2(s as nat) <= top) by (nonlinear_arith)
        requires
            top as int == pow2(s as nat) as int * h as int + top as int % pow2(s as nat) as int,
            top as int % pow2(s as nat) as int >= 0,
            h >= 1,
            pow2(s as nat) > 0,
    ;
    if z == 0 {
        lemma2_to64();
    } else {
        let t: u64 = (64 - z) as u64;
        vstd::bits::lemma_u64_shr_is_div(top, t);
        lemma_pow2_pos(t as nat);
        lemma_fundamental_div_mod(top as int, pow2(t as nat) as int);
        lemma_mod_bound(top as int, pow2(t as nat) as int);
        assert(pow2(t as nat) as int * 0 == 0);
    }
}

/// Value of limbs `j ..= j + n`.
pub open spec fn window(u: Seq<u64>, j: int, n: int) -> int {
    limbs::value(u.subrange(j, j + n + 1))
}

/// `u` and `w` agree outside limbs `j ..= j + n`.
pub open spec fn same_outside(u: Seq<u64>, w: Seq<u64>, j: int, n: int) -> bool {
    &&& u.len() == w.len()
    &&& forall|i: int| 0 <= i < u.len() && (i < j || i > j + n) ==> (#[trigger] u[i]) == w[i]
}

/// A change inside the window changes the value by the window's change.
proof fn lemma_window_change(u: Seq<u64>, w: Seq<u64>, j: int, n: int)
    requires
        same_outside(u, w, j, n),
        0 <= j,
        0 <= n,
        j + n < u.len(),
    ensures
        limbs::value(w) - limbs::value(u) == limbs::weight(j as nat) * (window(w, j, n) - window(u, j, n)),
{
    limbs::lemma_value_split(u, j, limbs::base());
    limbs::lemma_value_split(w, j, limbs::base());
    assert(u.take(j) =~= w.take(j));
    let us = u.skip(j);
    let ws = w.skip(j);
    limbs::lemma_value_split(us, n + 1, limbs::base());
    limbs::lemma_value_split(ws, n + 1, limbs::base());
    assert(us.take(n + 1) =~= u.subrange(j, j + n + 1));
    assert(ws.take(n + 1) =~= w.subrange(j, j + n + 1));
    assert(us.skip(n + 1) =~= ws.skip(n + 1));
    let p = limbs::weight(j as nat);
    let x = limbs::value(us);
    let y = limbs::value(ws);
    assert(p * y - p * x == p * (y - x)) by (nonlinear_arith);
}

/// `(a, b)` with the value `a * weight(j)` for a window change is determined.
proof fn lemma_cancel_weight(j: nat, x: int, y: int)
    requires
        limbs::weight(j) * x == limbs::weight(j) * y,
    ensures
        x == y,
{
    limbs::lemma_weight_positive(j);
    lemma_mul_equality_converse(limbs::weight(j), x, y);
}

/// In-place `u[j ..= j + n] -= qhat * v`, with `n = v.len()`.  Returns whether
/// the difference was negative, in which case the window wraps around.
pub fn mul_sub_inplace(u: &mut Vec<u64>, j: usize, v: &[u64], qhat: u64) -> (underflow: bool)
    requires
        j + v@.len() < old(u)@.len(),
    ensures
        same_outside(old(u)@, final(u)@, j as int, v@.len() as int),
        window(final(u)@, j as int, v@.len() as int) == window(old(u)@, j as int, v@.len() as int)
            - qhat * limbs::value(v@) + if underflow {
            limbs::weight((v@.len() + 1) as nat)
        } else {
            0
        },
{
    let len: usize = u.len();
    let ghost start = u@;
    let ghost n = v@.len() as int;
    let ghost wj = limbs::weight(j as nat);
    let mut borrow: u64 = 0;
    let mut carry: u64 = 0;
    let mut i: usize = 0;
    proof {
        assert(v@.take(0) =~= Seq::<u64>::empty());
        assert(qhat * 0 * wj == 0) by (nonlinear_arith);
    }
    while i < v.len()
        invariant
            i <= v@.len() == n,
            j + n < len == start.len(),
            same_outside(start, u@, j as int, n),
            forall|k: int| j + i <= k < start.len() ==> (#[trigger] u@[k]) == start[k],
            borrow <= 1,
            carry <= 0xffff_ffff_ffff_fffe,
            wj == limbs::weight(j as nat),
            limbs::value(u@) == limbs::value(start) - qhat * limbs::value(v@.take(i as int)) * wj + (carry + borrow)
                * limbs::weight((j + i) as nat),
        decreases v@.len() - i,
    {
        let ghost before = u@;
        let ghost carry0 = carry as int;
        let ghost borrow0 = borrow as int;
        let k: usize = j + i;
        proof {
            limbs::lemma_mul_add_fits(qhat, v@[i as int], carry, 0);
        }
        let prod: u128 = qhat as u128 * v[i] as u128 + carry as u128;
        carry = high_limb(prod);
        let prod_lo: u64 = low_limb(prod);
        let diff: i128 = u[k] as i128 - prod_lo as i128 - borrow as i128;
        let digit: u64;
        if diff < 0 {
            digit = (diff + 0x1_0000_0000_0000_0000i128) as u64;
            borrow = 1;
        } else {
            digit = diff as u64;
            borrow = 0;
        }
        u.set(k, digit);
        proof {
            lemma_fundamental_div_mod(prod as int, limbs::base());
            limbs::lemma_value_update(before, k as int, digit, limbs::base());
            limbs::lemma_value_take_next(v@, i as int, limbs::base());
            limbs::lemma_weight_step(k as nat);
            limbs::lemma_weight_adds(i as nat, j as nat);
            let p = limbs::weight(k as nat);
            let r = limbs::weight(i as nat);
            let x = before[k as int] as int;
            let y = v@[i as int] as int;
            let q = qhat as int;
            let d = digit as int;
            let c = carry as int;
            let b = borrow as int;
            let l = prod_lo as int;
            let t = limbs::value(v@.take(i as int));
            assert((d - x) * p + (carry0 + borrow0) * p == (c + b) * (limbs::base() * p) - q * y * p)
                by (nonlinear_arith)
                requires
                    q * y + carry0 == limbs::base() * c + l,
                    x - l - borrow0 == d - limbs::base() * b,
            ;
            assert(q * (t + y * r) * wj == q * t * wj + q * y * p) by (nonlinear_arith)
                requires
                    p == r * wj,
            ;
            assert(q * y <= 0xffff_ffff_ffff_ffff * 0xffff_ffff_ffff_ffff) by (nonlinear_arith)
                requires
                    0 <= q <= 0xffff_ffff_ffff_ffff,
                    0 <= y <= 0xffff_ffff_ffff_ffff,
            ;
            assert(c <= 0xffff_ffff_ffff_fffe);
            assert forall|m: int| j + i + 1 <= m < start.len() implies (#[trigger] u@[m])
                == start[m] by {}
            assert(same_outside(start, u@, j as int, n));
        }
        i = i + 1;
    }
    assert(v@.take(n) =~= v@);
    let top: usize = j + v.len();
    let ghost before = u@;
    let diff: i128 = u[top] as i128 - carry as i128 - borrow as i128;
    let digit: u64;
    let underflow: bool = diff < 0;
    if underflow {
        digit = (diff + 0x1_0000_0000_0000_0000i128) as u64;
    } else {
        digit = diff as u64;
    }
    u.set(top, digit);
    proof {
        limbs::lemma_value_update(before, top as int, digit, limbs::base());
        limbs::lemma_weight_step(top as nat);
        limbs::lemma_weight_adds(j as nat, (n + 1) as nat);
        let p = limbs::weight(top as nat);
        let x = before[top as int] as int;
        let d = digit as int;
        let cb = carry + borrow;
        let f: int = if underflow { 1 } else { 0 };
        assert((d - x) * p + cb * p == f * (limbs::base() * p)) by (nonlinear_arith)
            requires
                d - x + cb == limbs::base() * f,
        ;
        let nv = limbs::value(v@);
        let q = qhat as int;
        lemma_window_change(start, u@, j as int, n);
        let big = limbs::weight((n + 1) as nat);
        let dw = window(u@, j as int, n) - window(start, j as int, n);
        assert(f * (wj * big) - q * nv * wj == wj * (f * big - q * nv)) by (nonlinear_arith);
        lemma_cancel_weight(j as nat, dw, f * big - q * nv);
        assert(f * big == if underflow { big } else { 0 });
    }
    underflow
}

/// In-place `u[j ..= j + n] += v`, with `n = v.len()`; a carry out of the window
/// is discarded.
pub fn add_back_inplace(u: &mut Vec<u64>, j: usize, v: &[u64])
    requires
        j + v@.len() < old(u)@.len(),
    ensures
        same_outside(old(u)@, final(u)@, j as int, v@.len() as int),
        window(final(u)@, j as int, v@.len() as int) == (window(
            old(u)@,
            j as int,
            v@.len() as int,
        ) + limbs::value(v@)) % limbs::weight((v@.len() + 1) as nat),
{
    let len: usize = u.len();
    let ghost start = u@;
    let ghost n = v@.len() as int;
    let ghost wj = limbs::weight(j as nat);
    let mut carry: u64 = 0;
    let mut i: usize = 0;
    proof {
        assert(v@.take(0) =~= Seq::<u64>::empty());
        assert(0 * wj == 0);
    }
    while i < v.len()
        invariant
            i <= v@.len() == n,
            j + n < len == start.len(),
            same_outside(start, u@, j as int, n),
            carry <= 1,
            wj == limbs::weight(j as nat),
            limbs::value(u@) + carry * limbs::weight((j + i) as nat) == limbs::value(start) + limbs::value(v@.take(i as int))
                * wj,
        decreases v@.len() - i,
    {
        let ghost before = u@;
        let ghost carry0 = carry as int;
        let k: usize = j + i;
        let sum: u128 = u[k] as u128 + v[i] as u128 + carry as u128;
        let lo: u64 = low_limb(sum);
        u.set(k, lo);
        carry = high_limb(sum);
        proof {
            lemma_fundamental_div_mod(sum as int, limbs::base());
            limbs::lemma_value_update(before, k as int, lo, limbs::base());
            limbs::lemma_value_take_next(v@, i as int, limbs::base());
            limbs::lemma_weight_step(k as nat);
            limbs::lemma_weight_adds(i as nat, j as nat);
            let p = limbs::weight(k as nat);
            let r = limbs::weight(i as nat);
            let x = before[k as int] as int;
            let y = v@[i as int] as int;
            let l = lo as int;
            let c = carry as int;
            let t = limbs::value(v@.take(i as int));
            assert((l - x) * p + c * (limbs::base() * p) == carry0 * p + y * p) by (nonlinear_arith)
                requires
                    x + y + carry0 == limbs::base() * c + l,
            ;
            assert((t + y * r) * wj == t * wj + y * p) by (nonlinear_arith)
                requires
                    p == r * wj,
            ;
            assert(c <= 1) by (nonlinear_arith)
                requires
                    x + y + carry0 == limbs::base() * c + l,
                    x < limbs::base(),
                    y < limbs::base(),
                    carry0 <= 1,
                    l >= 0,
                    limbs::base() == 0x1_0000_0000_0000_0000,
            ;
        }
        i = i + 1;
    }
    assert(v@.take(n) =~= v@);
    let top: usize = j + v.len();
    let ghost before = u@;
    let sum: u128 = u[top] as u128 + carry as u128;
    let digit: u64 = low_limb(sum);
    u.set(top, digit);
    proof {
        lemma_fundamental_div_mod(sum as int, limbs::base());
        limbs::lemma_value_update(before, top as int, digit, limbs::base());
        limbs::lemma_weight_step(top as nat);
        limbs::lemma_weight_adds(j as nat, (n + 1) as nat);
        let p = limbs::weight(top as nat);
        let x = before[top as int] as int;
        let d = digit as int;
        let c0 = carry as int;
        let f = sum as int / limbs::base();
        assert((d - x) * p == c0 * p - f * (limbs::base() * p)) by (nonlinear_arith)
            requires
                x + c0 == limbs::base() * f + d,
        ;
        let nv = limbs::value(v@);
        lemma_window_change(start, u@, j as int, n);
        let big = limbs::weight((n + 1) as nat);
        let w0 = window(start, j as int, n);
        let w1 = window(u@, j as int, n);
        assert(nv * wj - f * (wj * big) == wj * (nv - f * big)) by (nonlinear_arith);
        lemma_cancel_weight(j as nat, w1 - w0, nv - f * big);
        limbs::lemma_limbs_bound(u@.subrange(j as int, j + n + 1));
        lemma_fundamental_div_mod_converse(w0 + nv, big, f, w1);
    }
}

/// The parts of the quotient-digit estimate, with `B` the limb base: the window
/// is `(n2 * B + u0) * s + wr` and the divisor `(v1 * B + v0) * s + vr`.
proof fn lemma_estimate_refine(
    w: int,
    v: int,
    s: int,
    top: int,
    u0: int,
    wr: int,
    v1: int,
    v0: int,
    vr: int,
    qhat: int,
    rhat: int,
)
    requires
        w == (top * limbs::base() + u0) * s + wr,
        v == (v1 * limbs::base() + v0) * s + vr,
        0 <= wr < s,
        0 <= vr,
        qhat >= 1,
        top == qhat * v1 + rhat,
        qhat * v0 > limbs::base() * rhat + u0,
    ensures
        qhat * v > w,
{
    let b = limbs::base();
    let y = v1 * b + v0;
    assert(qhat * y == (qhat * v1) * b + qhat * v0) by (nonlinear_arith)
        requires
            y == v1 * b + v0,
    ;
    assert((top - rhat) * b == top * b - rhat * b) by (nonlinear_arith);
    assert(qhat * y >= top * b + u0 + 1);
    let t = top * b + u0;
    assert(qhat * (y * s) >= (t + 1) * s) by (nonlinear_arith)
        requires
            qhat * y >= t + 1,
            s >= 0,
    ;
    assert((t + 1) * s == t * s + s) by (nonlinear_arith);
    assert(qhat * (y * s + vr) == qhat * (y * s) + qhat * vr) by (nonlinear_arith);
    assert(qhat * vr >= 0) by (nonlinear_arith)
        requires
            qhat >= 0,
            vr >= 0,
    ;
}

/// Once the refinement stops, one less than the estimate does not overshoot.
proof fn lemma_estimate_upper(
    w: int,
    v: int,
    s: int,
    top: int,
    u0: int,
    wr: int,
    v1: int,
    v0: int,
    vr: int,
    qhat: int,
    rhat: int,
)
    requires
        w == (top * limbs::base() + u0) * s + wr,
        v == (v1 * limbs::base() + v0) * s + vr,
        0 <= wr,
        0 <= vr < s,
        1 <= qhat < limbs::base(),
        1 <= v1,
        0 <= v0,
        top == qhat * v1 + rhat,
        qhat * v0 <= limbs::base() * rhat + u0,
    ensures
        (qhat - 1) * v <= w,
{
    let b = limbs::base();
    let y = v1 * b + v0;
    assert(qhat * y == (qhat * v1) * b + qhat * v0) by (nonlinear_arith)
        requires
            y == v1 * b + v0,
    ;
    assert((top - rhat) * b == top * b - rhat * b) by (nonlinear_arith);
    let t = top * b + u0;
    assert(qhat * y <= t);
    assert(v1 * b >= b) by (nonlinear_arith)
        requires
            v1 >= 1,
            b > 0,
    ;
    assert((qhat - 1) * (y + 1) == qhat * y + qhat - y - 1) by (nonlinear_arith);
    assert((qhat - 1) * (y + 1) <= t);
    assert((qhat - 1) * (y + 1) * s <= t * s) by (nonlinear_arith)
        requires
            (qhat - 1) * (y + 1) <= t,
            s >= 0,
    ;
    assert((qhat - 1) * (y * s + vr) <= (qhat - 1) * (y + 1) * s) by (nonlinear_arith)
        requires
            qhat >= 1,
            0 <= vr <= s,
    ;
}

/// The first estimate is not below the true digit.
proof fn lemma_estimate_lower(
    w: int,
    v: int,
    s: int,
    top: int,
    u0: int,
    wr: int,
    v1: int,
    v0: int,
    vr: int,
    qhat: int,
    rhat: int,
)
    requires
        w == (top * limbs::base() + u0) * s + wr,
        v == (v1 * limbs::base() + v0) * s + vr,
        0 <= wr < s,
        0 <= vr,
        0 <= u0 < limbs::base(),
        0 <= qhat,
        1 <= v1,
        0 <= v0,
        top == qhat * v1 + rhat,
        rhat < v1,
    ensures
        w < (qhat + 1) * v,
{
    let b = limbs::base();
    assert((qhat + 1) * v1 == qhat * v1 + v1) by (nonlinear_arith);
    assert(top + 1 <= (qhat + 1) * v1);
    let q1 = qhat + 1;
    assert(top * b + b <= q1 * v1 * b) by (nonlinear_arith)
        requires
            top + 1 <= q1 * v1,
            b > 0,
    ;
    let t = top * b + u0;
    assert((t + 1) * s <= (q1 * v1 * b) * s) by (nonlinear_arith)
        requires
            t + 1 <= q1 * v1 * b,
            s >= 0,
    ;
    assert((t + 1) * s == t * s + s) by (nonlinear_arith);
    assert(q1 * ((v1 * b + v0) * s + vr) == (q1 * v1 * b) * s + (q1 * v0) * s + q1 * vr)
        by (nonlinear_arith);
    assert(q1 * v0 * s >= 0) by (nonlinear_arith)
        requires
            q1 >= 0,
            v0 >= 0,
            s >= 0,
    ;
    assert(q1 * vr >= 0) by (nonlinear_arith)
        requires
            q1 >= 0,
            vr >= 0,
    ;
}

/// `x` split at its two and three top limbs.
proof fn lemma_top_limbs(x: Seq<u64>)
    requires
        x.len() >= 2,
    ensures
        limbs::value(x) == (x[x.len() - 1] * limbs::base() + x[x.len() - 2]) * limbs::weight((x.len() - 2) as nat)
            + limbs::value(x.take(x.len() - 2)),
        0 <= limbs::value(x.take(x.len() - 2)) < limbs::weight((x.len() - 2) as nat),
{
    let k = x.len() - 2;
    limbs::lemma_value_take_next(x, k, limbs::base());
    limbs::lemma_value_take_next(x, k + 1, limbs::base());
    assert(x.take(k + 2) =~= x);
    limbs::lemma_weight_step(k as nat);
    limbs::lemma_limbs_bound(x.take(k));
    let s = limbs::weight(k as nat);
    let h = x[k + 1] as int;
    let l = x[k] as int;
    assert((h * limbs::base() + l) * s == l * s + h * (limbs::base() * s)) by (nonlinear_arith);
}

/// Estimate of the quotient digit of limbs `j ..= j + n` of `u` by `v`: the
/// digit itself or one more.
fn estimate_digit(u: &Vec<u64>, j: usize, v: &[u64]) -> (qhat: u64)
    requires
        v@.len() >= 2,
        v@.last() != 0,
        j + v@.len() < u@.len(),
        window(u@, j as int, v@.len() as int) < limbs::base() * limbs::value(v@),
    ensures
        qhat == window(u@, j as int, v@.len() as int) / limbs::value(v@) || qhat == window(
            u@,
            j as int,
            v@.len() as int,
        ) / limbs::value(v@) + 1,
{
    let len: usize = u.len();
    let n: usize = v.len();
    let v_top: u64 = v[n - 1];
    let v_next: u64 = v[n - 2];
    let u2: u64 = u[j + n];
    let u1: u64 = u[j + n - 1];
    let u0: u64 = u[j + n - 2];
    let numerator: u128 = join_limbs(u2, u1);
    let ghost w = window(u@, j as int, n as int);
    let ghost vv = limbs::value(v@);
    let ghost s = limbs::weight((n - 2) as nat);
    let ghost vr = limbs::value(v@.take(n - 2));
    let ghost top = numerator as int;
    let ghost win = u@.subrange(j as int, j + n + 1);
    let ghost wr = limbs::value(win.take(n - 2));
    proof {
        lemma_top_limbs(v@);
        limbs::lemma_value_take_next(win, n as int, limbs::base());
        assert(win.take(n + 1) =~= win);
        lemma_top_limbs(win.take(n as int));
        assert(win.take(n as int).take(n - 2) =~= win.take(n - 2));
        assert(win[n as int] == u2 && win[n - 1] == u1 && win[n - 2] == u0);
        limbs::lemma_weight_step((n - 2) as nat);
        limbs::lemma_weight_step((n - 1) as nat);
        let b = limbs::base();
        let a2 = u2 as int;
        let a1 = u1 as int;
        let a0 = u0 as int;
        assert(a2 * (b * (b * s)) + (a1 * b + a0) * s == ((a2 * b + a1) * b + a0) * s)
            by (nonlinear_arith);
        assert(w == (top * b + a0) * s + wr);
        limbs::lemma_value_lower(v@);
        limbs::lemma_limbs_bound(win);
    }
    let mut qhat: u64;
    let mut rhat: u128;
    if u2 >= v_top {
        qhat = 0xffff_ffff_ffff_ffff;
        proof {
            assert(0xffff_ffff_ffff_ffff * v_top <= top) by (nonlinear_arith)
                requires
                    top == u2 * limbs::base() + u1,
                    u2 >= v_top,
                    u1 >= 0,
                    v_top >= 0,
                    limbs::base() == 0x1_0000_0000_0000_0000,
            ;
            limbs::lemma_mul_add_fits(qhat, v_top, 0, 0);
            assert(w < (qhat + 1) * vv);
        }
        rhat = numerator - 0xffff_ffff_ffff_ffffu128 * v_top as u128;
    } else {
        let d: u128 = v_top as u128;
        let q128: u128 = numerator / d;
        rhat = numerator % d;
        proof {
            lemma_fundamental_div_mod(top, d as int);
            assert(q128 < 0x1_0000_0000_0000_0000) by (nonlinear_arith)
                requires
                    top == d as int * q128 as int + rhat as int,
                    rhat >= 0,
                    top == u2 * limbs::base() + u1,
                    u1 < limbs::base(),
                    u2 + 1 <= d,
                    limbs::base() == 0x1_0000_0000_0000_0000,
            ;
            lemma_mul_is_commutative(d as int, q128 as int);
        }
        qhat = q128 as u64;
        proof {
            lemma_estimate_lower(
                w,
                vv,
                s,
                top,
                u0 as int,
                wr,
                v_top as int,
                v_next as int,
                vr,
                qhat as int,
                rhat as int,
            );
        }
    }
    while rhat < limbs::LIMB_BASE && mul_wide(qhat, v_next) > join_limbs(
        rhat as u64,
        u0,
    )
        invariant
            top == qhat * v_top + rhat,
            rhat >= 0,
            w < (qhat + 1) * vv,
            w == (top * limbs::base() + u0) * s + wr,
            vv == (v_top * limbs::base() + v_next) * s + vr,
            0 <= wr < s,
            0 <= vr < s,
            vv >= 1,
        decreases qhat,
    {
        let ghost q0 = qhat as int;
        let ghost r0 = rhat as int;
        proof {
            assert(qhat >= 1) by (nonlinear_arith)
                requires
                    qhat * v_next > 0,
                    qhat >= 0,
            ;
            lemma_mul_is_commutative(r0, limbs::base());
            lemma_estimate_refine(
                w,
                vv,
                s,
                top,
                u0 as int,
                wr,
                v_top as int,
                v_next as int,
                vr,
                qhat as int,
                rhat as int,
            );
        }
        qhat = qhat - 1;
        rhat = rhat + v_top as u128;
        proof {
            assert((q0 - 1) * v_top + v_top == q0 * v_top) by (nonlinear_arith);
        }
    }
    proof {
        let q = qhat as int;
        let qd = w / vv;
        lemma_fundamental_div_mod(w, vv);
        lemma_mod_bound(w, vv);
        if rhat >= limbs::LIMB_BASE {
            assert(q * v_next <= limbs::base() * rhat + u0) by (nonlinear_arith)
                requires
                    0 <= q < limbs::base(),
                    0 <= v_next < limbs::base(),
                    rhat >= limbs::base(),
                    u0 >= 0,
                    limbs::base() > 0,
            ;
        } else {
            lemma_mul_is_commutative(rhat as int, limbs::base());
        }
        if q >= 1 {
            lemma_estimate_upper(
                w,
                vv,
                s,
                top,
                u0 as int,
                wr,
                v_top as int,
                v_next as int,
                vr,
                q,
                rhat as int,
            );
            assert(q - 1 <= qd) by (nonlinear_arith)
                requires
                    (q - 1) * vv <= w,
                    w == vv * qd + w % vv,
                    w % vv < vv,
                    vv >= 1,
            ;
        } else {
            assert(qd >= 0) by {
                lemma_div_pos_is_pos(w, vv);
            }
        }
        assert(qd < q + 1) by (nonlinear_arith)
            requires
                w < (q + 1) * vv,
                w == vv * qd + w % vv,
                w % vv >= 0,
                vv >= 1,
        ;
    }
    qhat
}

/// One step of Algorithm D: replace the window of `u` at `j` by its remainder
/// modulo `v` and return its quotient.
fn knuth_step(u: &mut Vec<u64>, j: usize, v: &[u64]) -> (digit: u64)
    requires
        v@.len() >= 2,
        v@.last() != 0,
        j + v@.len() < old(u)@.len(),
        window(old(u)@, j as int, v@.len() as int) < limbs::base() * limbs::value(v@),
    ensures
        same_outside(old(u)@, final(u)@, j as int, v@.len() as int),
        digit == window(old(u)@, j as int, v@.len() as int) / limbs::value(v@),
        window(final(u)@, j as int, v@.len() as int) == window(
            old(u)@,
            j as int,
            v@.len() as int,
        ) % limbs::value(v@),
{
    let ghost start = u@;
    let ghost n = v@.len() as int;
    let ghost w = window(start, j as int, n);
    let ghost vv = limbs::value(v@);
    let ghost qd = w / vv;
    let mut qhat: u64 = estimate_digit(u, j, v);
    let ghost q0 = qhat as int;
    proof {
        limbs::lemma_value_lower(v@);
        limbs::lemma_limbs_bound(v@);
        limbs::lemma_weight_monotone(n as nat, (n + 1) as nat);
        limbs::lemma_limbs_bound(start.subrange(j as int, j + n + 1));
        lemma_fundamental_div_mod(w, vv);
        lemma_mod_bound(w, vv);
        lemma_mul_is_commutative(vv, qd);
        assert((qd + 1) * vv == qd * vv + vv) by (nonlinear_arith);
    }
    let underflow: bool = mul_sub_inplace(u, j, v, qhat);
    let ghost mid = u@;
    proof {
        limbs::lemma_limbs_bound(mid.subrange(j as int, j + n + 1));
        assert(underflow == (q0 == qd + 1));
    }
    if underflow {
        qhat = qhat - 1;
        add_back_inplace(u, j, v);
        proof {
            let big = limbs::weight((n + 1) as nat);
            let s = window(mid, j as int, n) + vv;
            assert(s == w % vv + big);
            lemma_mod_add_multiples_vanish(w % vv, big);
            lemma_small_mod((w % vv) as nat, big as nat);
        }
    }
    qhat
}

/// Quotient and remainder of the shifted dividend `u` by the shifted divisor
/// `v`, the remainder left in `u`.
fn knuth_loop(u: &mut Vec<u64>, v: &[u64], m: usize) -> (q: Vec<u64>)
    requires
        v@.len() >= 2,
        v@.last() != 0,
        old(u)@.len() == m + v@.len() + 1,
        limbs::value(old(u)@.skip(m + 1)) < limbs::value(v@),
    ensures
        q@.len() == m + 1,
        final(u)@.len() == old(u)@.len(),
        limbs::value(old(u)@) == limbs::value(q@) * limbs::value(v@) + limbs::value(final(u)@),
        0 <= limbs::value(final(u)@) < limbs::value(v@),
{
    let len: usize = u.len();
    let ghost start = u@;
    let ghost n = v@.len() as int;
    let ghost vv = limbs::value(v@);
    let mut q: Vec<u64> = vec![0u64; m + 1];
    let mut jj: usize = m + 1;
    proof {
        limbs::lemma_value_zeros(q@, limbs::base());
        assert(0 * vv == 0);
    }
    while jj > 0
        invariant
            jj <= m + 1,
            n == v@.len() >= 2,
            v@.last() != 0,
            vv == limbs::value(v@),
            q@.len() == m + 1,
            u@.len() == start.len() == len == m + n + 1,
            limbs::value(start) == limbs::value(q@) * vv + limbs::value(u@),
            limbs::value(u@.skip(jj as int)) < vv,
            forall|k: int| 0 <= k < jj ==> (#[trigger] q@[k]) == 0,
        decreases jj,
    {
        let j: usize = jj - 1;
        let ghost before = u@;
        let ghost q0 = q@;
        let ghost w = window(before, j as int, n);
        proof {
            limbs::lemma_limbs_bound(v@);
            limbs::lemma_value_lower(v@);
            limbs::lemma_value_skip_next(before, j as int, limbs::base());
            limbs::lemma_limbs_bound(before.skip(j as int));
            limbs::lemma_limbs_bound(before.skip(j + 1));
            let b = limbs::base();
            let hi = limbs::value(before.skip(j + 1));
            assert(before[j as int] + b * hi < b * vv) by (nonlinear_arith)
                requires
                    before[j as int] < b,
                    hi + 1 <= vv,
                    b > 0,
            ;
            let part = before.skip(j as int);
            magnitude::lemma_skip_is_div(part, n + 1);
            limbs::lemma_weight_step(n as nat);
            limbs::lemma_value_split(part, n + 1, b);
            assert(part.take(n + 1) =~= before.subrange(j as int, j + n + 1));
            assert(b * vv < b * limbs::weight(n as nat)) by (nonlinear_arith)
                requires
                    vv < limbs::weight(n as nat),
                    b > 0,
            ;
            lemma_basic_div(limbs::value(part), limbs::weight((n + 1) as nat));
            assert(limbs::weight((n + 1) as nat) * 0 == 0);
            assert(w == limbs::value(part));
        }
        let digit: u64 = knuth_step(u, j, v);
        q.set(j, digit);
        proof {
            lemma_window_change(before, u@, j as int, n);
            limbs::lemma_value_update(q0, j as int, digit, limbs::base());
            let p = limbs::weight(j as nat);
            let d = digit as int;
            lemma_fundamental_div_mod(w, vv);
            lemma_mod_bound(w, vv);
            let x = limbs::value(q0);
            assert((x + (d - 0) * p) * vv + (p * (w % vv - w)) == x * vv) by (nonlinear_arith)
                requires
                    w == vv * d + w % vv,
            ;
            let part = u@.skip(j as int);
            limbs::lemma_value_split(part, n + 1, limbs::base());
            assert(part.take(n + 1) =~= u@.subrange(j as int, j + n + 1));
            assert(part.skip(n + 1) =~= before.skip(j as int).skip(n + 1));
            assert(limbs::weight((n + 1) as nat) * 0 == 0);
        }
        jj = j;
    }
    proof {
        assert(u@.skip(0) =~= u@);
        limbs::lemma_limbs_bound(u@);
    }
    q
}

/// Division undone by a common factor of dividend and divisor.
proof fn lemma_unscale(a: int, b: int, p: int, q: int, r: int)
    requires
        p > 0,
        b > 0,
        a * p == q * (b * p) + r,
        0 <= r < b * p,
    ensures
        q == a / b,
        r / p == a % b,
{
    assert(r == (a - q * b) * p) by (nonlinear_arith)
        requires
            a * p == q * (b * p) + r,
    ;
    let s = a - q * b;
    assert(0 <= s < b) by (nonlinear_arith)
        requires
            r == s * p,
            0 <= r < b * p,
            p > 0,
    ;
    lemma_fundamental_div_mod_converse(a, b, q, s);
    lemma_div_by_multiple(s, p);
}

/// Knuth's Algorithm D, for a divisor of at least two limbs.
pub fn div_rem_mag_knuth(a: &[u64], b: &[u64]) -> (r: (Vec<u64>, Vec<u64>))
    requires
        b@.len() >= 2,
        b@.last() != 0,
        a@.len() >= b@.len(),
        a@.len() + 1 < usize::MAX,
    ensures
        limbs::value(r.0@) == limbs::value(a@) / limbs::value(b@),
        limbs::value(r.1@) == limbs::value(a@) % limbs::value(b@),
        limbs::normalized(r.0@),
        limbs::normalized(r.1@),
{
    let n: usize = b.len();
    let m: usize = a.len() - n;
    let d: u32 = b[n - 1].leading_zeros();
    let ghost p = pow2(d as nat) as int;
    let ghost av = limbs::value(a@);
    let ghost bv = limbs::value(b@);
    let ghost top = b@[n - 1];
    proof {
        lemma_leading_zeros(top);
        lemma_pow2_pos(d as nat);
        limbs::lemma_value_lower(b@);
        limbs::lemma_limbs_bound(a@);
        limbs::lemma_limbs_bound(b@.take(n - 1));
        limbs::lemma_value_take_next(b@, n - 1, limbs::base());
        assert(b@.take(n as int) =~= b@);
        lemma_pow2_adds((64 - d) as nat, d as nat);
        lemma2_to64();
        limbs::lemma_weight_step((n - 1) as nat);
        // The shifted divisor keeps its length.
        let w = limbs::weight((n - 1) as nat);
        let lim = pow2((64 - d) as nat) as int;
        assert((top + 1) * w == top * w + w) by (nonlinear_arith);
        assert(bv * p < limbs::base() * w) by (nonlinear_arith)
            requires
                bv < (top + 1) * w,
                top + 1 <= lim,
                lim * p == limbs::base(),
                w >= 0,
                p > 0,
        {
            assert(bv < lim * w);
            assert((lim * w) * p == (lim * p) * w);
        }
    }
    let v: Vec<u64> = if d == 0 { copy_limbs(b) } else { shl_mag(b, d as u64) };
    let mut u: Vec<u64> = if d == 0 { copy_limbs(a) } else { shl_mag(a, d as u64) };
    proof {
        assert(bv * 1 == bv && av * 1 == av);
        assert(limbs::value(v@) == bv * p);
        assert(limbs::value(u@) == av * p);
        assert(limbs::normalized(v@));
        let w = limbs::weight((n - 1) as nat);
        assert(bv * p >= w) by (nonlinear_arith)
            requires
                bv >= w,
                p >= 1,
                w >= 0,
        ;
        limbs::lemma_limbs_bound(v@);
        if v@.len() > n {
            limbs::lemma_value_lower(v@);
            limbs::lemma_weight_monotone(n as nat, (v@.len() - 1) as nat);
        }
        if v@.len() < n {
            limbs::lemma_weight_monotone(v@.len(), (n - 1) as nat);
        }
        assert(v@.len() == n);
    }
    let ghost want = u@;
    if u.len() < a.len() + 1 {
        u.resize(a.len() + 1, 0);
        proof {
            let ext = u@.skip(want.len() as int);
            limbs::lemma_value_zeros(ext, limbs::base());
            assert(u@ =~= want + ext);
            limbs::lemma_value_concat(want, ext, limbs::base());
            assert(limbs::weight(want.len()) * 0 == 0);
        }
    }
    proof {
        magnitude::lemma_skip_is_div(u@, m + 1);
        limbs::lemma_weight_adds((m + 1) as nat, (n - 1) as nat);
        let w = limbs::weight((n - 1) as nat);
        let y = limbs::weight((m + 1) as nat);
        limbs::lemma_weight_positive((m + 1) as nat);
        assert(av * p < (bv * p) * y) by (nonlinear_arith)
            requires
                av < y * w,
                w <= bv,
                p > 0,
                y > 0,
                av >= 0,
        {
            assert(y * w <= y * bv);
            assert(av * p < (y * bv) * p);
        }
        lemma_div_by_multiple_is_strongly_ordered(av * p, (bv * p) * y, bv * p, y);
        lemma_div_by_multiple(bv * p, y);
    }
    let mut q: Vec<u64> = knuth_loop(&mut u, &v, m);
    proof {
        lemma_unscale(av, bv, p, limbs::value(q@), limbs::value(u@));
    }
    let mut r: Vec<u64> = shr_mag(&u, d as u64);
    strip(&mut q);
    strip(&mut r);
    (q, r)
}

/// Long division by one limb: quotient in `a.len()` limbs, and the remainder.
pub fn div_rem_limb(a: &[u64], d: u64) -> (r: (Vec<u64>, u64))
    requires
        d > 0,
    ensures
        limbs::value(r.0@) == limbs::value(a@) / (d as int),
        r.1 as int == limbs::value(a@) % (d as int),
        limbs::normalized(r.0@),
        r.0@.len() <= a@.len(),
{
    let n: usize = a.len();
    let mut q: Vec<u64> = vec![0u64; n];
    let mut rem: u64 = 0;
    let mut i: usize = n;
    proof {
        limbs::lemma_value_zeros(q@, limbs::base());
        assert(a@.skip(n as int) =~= Seq::<u64>::empty());
        assert(q@.skip(n as int) =~= Seq::<u64>::empty());
        assert(0 * d as int == 0);
    }
    while i > 0
        invariant
            i <= n == a@.len() == q@.len(),
            rem < d,
            limbs::value(a@.skip(i as int)) == limbs::value(q@.skip(i as int)) * d + rem,
        decreases i,
    {
        let ghost q0 = q@;
        let ghost r0 = rem as int;
        i = i - 1;
        let cur: u128 = join_limbs(rem, a[i]);
        let d128: u128 = d as u128;
        let digit128: u128 = cur / d128;
        proof {
            lemma_fundamental_div_mod(cur as int, d as int);
            lemma_mod_bound(cur as int, d as int);
            assert(digit128 < 0x1_0000_0000_0000_0000) by (nonlinear_arith)
                requires
                    cur as int == d as int * digit128 as int + cur as int % d as int,
                    cur as int % d as int >= 0,
                    cur == r0 * limbs::base() + a@[i as int],
                    a@[i as int] < limbs::base(),
                    r0 + 1 <= d,
                    limbs::base() == 0x1_0000_0000_0000_0000,
                    d > 0,
            ;
        }
        q.set(i, digit128 as u64);
        rem = (cur % d128) as u64;
        proof {
            limbs::lemma_value_skip_next(a@, i as int, limbs::base());
            limbs::lemma_value_skip_next(q@, i as int, limbs::base());
            assert(q@.skip(i + 1) =~= q0.skip(i + 1));
            let x = limbs::value(q@.skip(i + 1));
            let dd = d as int;
            let g = digit128 as int;
            let r1 = rem as int;
            assert(a@[i as int] + limbs::base() * (x * dd + r0) == (g + limbs::base() * x) * dd + r1)
                by (nonlinear_arith)
                requires
                    r0 * limbs::base() + a@[i as int] == dd * g + r1,
            ;
        }
    }
    proof {
        assert(a@.skip(0) =~= a@);
        assert(q@.skip(0) =~= q@);
        lemma_fundamental_div_mod_converse(limbs::value(a@), d as int, limbs::value(q@), rem as int);
    }
    strip(&mut q);
    (q, rem)
}

/// Division of a magnitude by one limb.
pub fn div_rem_mag_single(a: &[u64], d: u64) -> (r: (Vec<u64>, Vec<u64>))
    requires
        d > 0,
    ensures
        limbs::value(r.0@) == limbs::value(a@) / (d as int),
        limbs::value(r.1@) == limbs::value(a@) % (d as int),
        limbs::normalized(r.0@),
        limbs::normalized(r.1@),
{
    let (q, rem) = div_rem_limb(a, d);
    let mut r: Vec<u64> = Vec::new();
    if rem != 0 {
        proof {
            limbs::lemma_value_push(r@, rem, limbs::base());
            limbs::lemma_weight_step(0);
        }
        r.push(rem);
    }
    (q, r)
}

/// Quotient and remainder of normalized magnitudes, both normalized.
pub fn div_rem_mag(a: &[u64], b: &[u64]) -> (r: (Vec<u64>, Vec<u64>))
    requires
        limbs::normalized(a@),
        limbs::normalized(b@),
        b@.len() > 0,
        a@.len() + 1 < usize::MAX,
    ensures
        limbs::value(r.0@) == limbs::value(a@) / limbs::value(b@),
        limbs::value(r.1@) == limbs::value(a@) % limbs::value(b@),
        limbs::normalized(r.0@),
        limbs::normalized(r.1@),
{
    proof {
        limbs::lemma_limbs_bound(a@);
        limbs::lemma_value_lower(b@);
    }
    match cmp_mag(a, b) {
        Ordering::Less => {
            proof {
                lemma_basic_div(limbs::value(a@), limbs::value(b@));
                lemma_mod_of_smaller(a@, b@);
            }
            (Vec::new(), copy_limbs(a))
        },
        _ => {
            if b.len() == 1 {
                proof {
                    lemma_one_limb(b@);
                }
                div_rem_mag_single(a, b[0])
            } else {
                proof {
                    if a@.len() < b@.len() {
                        limbs::lemma_limbs_bound(a@);
                        lemma_shorter_is_smaller(a@, b@);
                    }
                }
                div_rem_mag_knuth(a, b)
            }
        },
    }
}

proof fn lemma_mod_of_smaller(a: Seq<u64>, b: Seq<u64>)
    requires
        0 <= limbs::value(a) < limbs::value(b),
    ensures
        limbs::value(a) % limbs::value(b) == limbs::value(a),
{
    lemma_small_mod(limbs::value(a) as nat, limbs::value(b) as nat);
}

pub proof fn lemma_one_limb(b: Seq<u64>)
    requires
        b.len() == 1,
    ensures
        limbs::value(b) == b[0],
{
    limbs::lemma_value_take_next(b, 0, limbs::base());
    assert(b.take(1) =~= b);
    assert(b.take(0) =~= Seq::<u64>::empty());
    limbs::lemma_weight_step(0);
}

proof fn lemma_shorter_is_smaller(a: Seq<u64>, b: Seq<u64>)
    requires
        limbs::normalized(b),
        a.len() < b.len(),
    ensures
        limbs::value(a) < limbs::value(b),
{
    limbs::lemma_limbs_bound(a);
    limbs::lemma_value_lower(b);
    limbs::lemma_weight_monotone(a.len(), (b.len() - 1) as nat);
}

} // verus!
