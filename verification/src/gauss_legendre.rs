//! The Gauss-Legendre (Brent-Salamin) iteration in floating point.
use crate::accuracy;
use crate::agm;
use crate::bitlen;
use crate::chudnovsky_assembly;
use crate::float;
use crate::float::Float;
use crate::float_ops::{F64Bits, ToFloat};
use crate::integer;
use crate::integer::{Integer, shl_signed};
use crate::limbs;
use crate::newton;
use crate::progress;
use crate::progress::{ProgressEvent, ProgressReporter};
use crate::reals;
use crate::rounding;
use crate::sqrt;
use vstd::arithmetic::mul::*;
use vstd::arithmetic::power2::*;
use vstd::prelude::*;

verus! {

/// The values of the three numbers of a state.
pub open spec fn state_of(a: Float, b: Float, t: Float) -> (real, real, real) {
    (a.val(), b.val(), t.val())
}

/// The three numbers have the working precision.
pub open spec fn floats_ok(a: Float, b: Float, t: Float, prec: u64) -> bool {
    &&& a.wf()
    &&& b.wf()
    &&& t.wf()
    &&& a.prec == prec
    &&& b.prec == prec
    &&& t.prec == prec
}

/// The error unit of a precision, and its products with small factors.
proof fn lemma_unit(p: int, i: int)
    requires
        p >= 256,
        0 <= i <= 64,
    ensures
        0real < reals::rpow2(-p) <= 1real / 1_000_000_000_000real,
        reals::rpow2(i) >= 1real,
        reals::rpow2(i) * reals::rpow2(-p) <= 1real / 1_000_000_000_000real,
        reals::rpow2(i + 1) == 2real * reals::rpow2(i),
{
    reals::lemma_rpow2_step(-p);
    reals::lemma_rpow2_step(i);
    reals::lemma_rpow2_monotone(0, i);
    reals::lemma_rpow2_step(0);
    reals::lemma_rpow2_monotone(-p, -40);
    reals::lemma_rpow2_add(i, -p);
    reals::lemma_rpow2_monotone(i - p, -40);
    reals::lemma_rpow2_add(40, -40);
    reals::lemma_rpow2_nat(40);
    lemma2_to64_rest();
    lemma2_to64();
    reals::lemma_rpow2_step(-40);
    let x = reals::rpow2(-40);
    assert(reals::rpow2(40) == 1_099_511_627_776real);
    assert(x <= 1real / 1_000_000_000_000real) by (nonlinear_arith)
        requires
            1_099_511_627_776real * x == 1real,
    ;
}

/// An upper bound on a value bounds the exponent.
proof fn lemma_exp_upper(f: Float, hi: int)
    requires
        f.wf(),
        reals::rabs(f.val()) < reals::rpow2(hi),
        hi >= 1,
    ensures
        f.exp < hi,
        f.size() <= f.prec / 64 + 1,
{
    sqrt::lemma_size_from_prec(f);
    if f.mantissa@ > 0 {
        newton::lemma_val_bounds(f);
        newton::lemma_exp_bounds(f, f.exp + bitlen::bit_len(f.mantissa@) - 1, hi);
    }
}

/// Some powers of two as reals.
proof fn lemma_small_powers()
    ensures
        reals::rpow2(-3) == 1real / 8real,
        reals::rpow2(-2) == 1real / 4real,
        reals::rpow2(-1) == 1real / 2real,
        reals::rpow2(0) == 1real,
        reals::rpow2(1) == 2real,
        reals::rpow2(2) == 4real,
        reals::rpow2(3) == 8real,
{
    reals::lemma_rpow2_step(-3);
    reals::lemma_rpow2_step(-2);
    reals::lemma_rpow2_step(-1);
    reals::lemma_rpow2_step(0);
    reals::lemma_rpow2_step(1);
    reals::lemma_rpow2_step(2);
}

/// The arithmetic mean of two numbers of a state.
fn mean(a: &Float, b: &Float, prec: u64) -> (m: Float)
    requires
        256 <= prec <= 0x100_0000_0000,
        prec / 8 + 512 <= limbs::limb_limit(),
        a.wf(),
        b.wf(),
        a.prec == prec,
        b.prec == prec,
        7real / 10real <= a.val() <= 11real / 10real,
        7real / 10real <= b.val() <= 11real / 10real,
    ensures
        m.wf(),
        m.prec == prec,
        accuracy::within(2real * m.val(), a.val() + b.val(), 4real, reals::rpow2(-(prec as int))),
{
    let ghost p = prec as int;
    let ghost u = reals::rpow2(-p);
    proof {
        limbs::lemma_limb_limit();
        lemma_unit(p, 0);
        lemma_small_powers();
        newton::lemma_val_sign(*a);
        newton::lemma_val_sign(*b);
        newton::lemma_exp_bounds(*a, -1, 1);
        newton::lemma_exp_bounds(*b, -1, 1);
    }
    let s: Float = a.add_at_prec(b, prec);
    let two: Float = Float::with_val_64(64, 2u32);
    proof {
        chudnovsky_assembly::lemma_small_float(two, 64, 2);
        integer::lemma_size_from_bits(two.mantissa, 2);
        lemma2_to64();
        accuracy::lemma_near_within(s.val(), a.val() + b.val(), p);
        newton::lemma_near_range(s, a.val() + b.val(), 0, 2, p);
    }
    let m: Float = s.div_at_prec(&two, prec);
    proof {
        let sv = s.val();
        let mv = m.val();
        reals::lemma_rpow2_step(-p);
        assert(mv * 2real == 2real * mv) by (nonlinear_arith);
        assert(reals::rpow2(1 - p) == 2real * u);
        assert(accuracy::within(2real * mv, sv, 2real, u));
        accuracy::lemma_within_chain(2real * mv, sv, a.val() + b.val(), 2real, 1real, u);
    }
    m
}

/// The geometric mean of two numbers of a state.
fn geometric_mean(a: &Float, b: &Float, prec: u64) -> (m: Float)
    requires
        256 <= prec <= 0x100_0000_0000,
        prec / 8 + 512 <= limbs::limb_limit(),
        a.wf(),
        b.wf(),
        a.prec == prec,
        b.prec == prec,
        7real / 10real <= a.val() <= 11real / 10real,
        7real / 10real <= b.val() <= 11real / 10real,
    ensures
        m.wf(),
        m.prec == prec,
        m.val() > 0real,
        accuracy::within(m.val() * m.val(), a.val() * b.val(), 6real, reals::rpow2(-(prec as int))),
{
    let ghost p = prec as int;
    let ghost u = reals::rpow2(-p);
    let ghost ab = a.val() * b.val();
    proof {
        limbs::lemma_limb_limit();
        lemma_unit(p, 0);
        lemma_small_powers();
        newton::lemma_val_sign(*a);
        newton::lemma_val_sign(*b);
        newton::lemma_exp_bounds(*a, -1, 1);
        newton::lemma_exp_bounds(*b, -1, 1);
        accuracy::lemma_mul_le_both(7real / 10real, a.val(), 7real / 10real, b.val());
        accuracy::lemma_mul_le_both(a.val(), 11real / 10real, b.val(), 11real / 10real);
        assert((7real / 10real) * (7real / 10real) == 49real / 100real);
        assert((11real / 10real) * (11real / 10real) == 121real / 100real);
    }
    let mut m: Float = a.mul_at_prec(b, prec);
    let ghost mv = m.val();
    proof {
        accuracy::lemma_near_within(mv, ab, p);
        newton::lemma_near_range(m, ab, -2, 1, p);
    }
    m.sqrt_mut();
    proof {
        float::lemma_val_zero(m);
        reals::lemma_rpow2_step(-p);
        reals::lemma_rpow2_step(1 - p);
        let mm = m.val() * m.val();
        assert(reals::rpow2(2 - p) == 4real * u);
        assert(accuracy::within(mm, mv, 4real, u));
        accuracy::lemma_within_chain(mm, mv, ab, 4real, 1real, u);
    }
    m
}

/// Rounded squaring, scaling and subtraction: `t - p * d^2` up to a few units.
proof fn lemma_t_step(t: real, p: real, d: real, f: real, q: real, r: real, w: real, prec: int)
    requires
        prec >= 256,
        t > 0real,
        p > 0real,
        float::near(f, d, prec),
        float::near(q, f * f, prec),
        float::near(r, q * p, prec),
        float::near(w, t - r, prec),
    ensures
        r >= 0real,
        reals::rabs(w - (t - p * (d * d))) <= (t + p * (d * d)) * (10real * reals::rpow2(-prec)),
        r <= (p * (d * d)) * 2real,
{
    let u = reals::rpow2(-prec);
    lemma_unit(prec, 0);
    let dd = d * d;
    let pd = p * dd;
    if d == 0real {
        assert(0real * u == 0real) by (nonlinear_arith);
        assert(f == 0real);
        assert(0real * 0real == 0real) by (nonlinear_arith);
        assert(q == 0real);
        assert(0real * p == 0real && p * 0real == 0real) by (nonlinear_arith);
        assert(r == 0real);
        assert(pd == 0real);
        assert((t + pd) * (10real * u) == 10real * (t * u)) by (nonlinear_arith)
            requires
                pd == 0real,
        ;
        accuracy::lemma_mul_positive(t, u);
        assert(reals::rabs(t - r) * u == t * u);
    } else {
        let fa = reals::rabs(f);
        let da = reals::rabs(d);
        assert(accuracy::within(fa, da, 1real, u)) by {
            assert(1real * u == u) by (nonlinear_arith);
        }
        accuracy::lemma_within_product(fa, da, 1real, fa, da, 1real, u);
        assert(fa * fa == f * f) by (nonlinear_arith)
            requires
                fa == f || fa == -f,
        ;
        assert(da * da == dd) by (nonlinear_arith)
            requires
                da == d || da == -d,
                dd == d * d,
        ;
        accuracy::lemma_near_within(q, f * f, prec);
        accuracy::lemma_within_chain(q, f * f, dd, 1real, 3real, u);
        accuracy::lemma_within_scale(q, dd, 5real, u, p);
        let qp = q * p;
        assert(accuracy::within(qp, dd * p, 5real, u));
        assert(dd * p == pd) by (nonlinear_arith)
            requires
                pd == p * dd,
        ;
        let e5 = 5real * u;
        accuracy::lemma_mul_le(e5, 1real / 1000real, pd);
        assert(pd * (1real / 1000real) == pd / 1000real) by (nonlinear_arith);
        assert(qp > 0real);
        accuracy::lemma_near_within(r, qp, prec);
        accuracy::lemma_within_chain(r, qp, pd, 1real, 5real, u);
        let e7 = 7real * u;
        accuracy::lemma_mul_le(e7, 1real / 1000real, pd);
        // |w - (t - pd)| <= |t - r| * u + |r - pd|.
        let tr = reals::rabs(t - r);
        assert(tr <= t + 2real * pd);
        accuracy::lemma_mul_le(tr, t + 2real * pd, u);
        let tu = t * u;
        let pdu = pd * u;
        assert((t + 2real * pd) * u == tu + 2real * pdu) by (nonlinear_arith)
            requires
                tu == t * u,
                pdu == pd * u,
        ;
        assert(pd * e7 == 7real * pdu) by (nonlinear_arith)
            requires
                e7 == 7real * u,
                pdu == pd * u,
        ;
        assert((t + pd) * (10real * u) == 10real * tu + 10real * pdu) by (nonlinear_arith)
            requires
                tu == t * u,
                pdu == pd * u,
        ;
        accuracy::lemma_mul_positive(t, u);
        accuracy::lemma_mul_positive(pd, u);
    }
}

/// `t - p * (a - x)^2`.
fn next_t(
    a: &Float,
    x: &Float,
    t: &Float,
    p: &Integer,
    i: u32,
    prec: u64,
) -> (w: Float)
    requires
        256 <= prec <= 0x100_0000_0000,
        prec / 8 + 512 <= limbs::limb_limit(),
        i <= 60,
        floats_ok(*a, *x, *t, prec),
        7real / 10real <= a.val() <= 11real / 10real,
        69real / 100real <= x.val() <= 111real / 100real,
        2real / 10real <= t.val() <= 3real / 10real,
        p.wf(),
        p@ == pow2(i as nat),
    ensures
        w.wf(),
        w.prec == prec,
        ({
            let d = a.val() - x.val();
            reals::rabs(w.val() - (t.val() - reals::rpow2(i as int) * (d * d))) <= (t.val() + reals::rpow2(i as int) * (d
                * d)) * (10real * reals::rpow2(-(prec as int)))
        }),
{
    let ghost pr = prec as int;
    let ghost u = reals::rpow2(-pr);
    let ghost d = a.val() - x.val();
    proof {
        limbs::lemma_limb_limit();
        lemma_unit(pr, i as int);
        lemma_small_powers();
        newton::lemma_val_sign(*a);
        newton::lemma_val_sign(*x);
        newton::lemma_val_sign(*t);
        newton::lemma_exp_bounds(*a, -1, 1);
        newton::lemma_exp_bounds(*x, -1, 1);
        newton::lemma_exp_bounds(*t, -3, -1);
    }
    let diff: Float = a.sub_at_prec(x, prec);
    proof {
        let da = reals::rabs(d);
        assert(da <= 1real / 2real);
        accuracy::lemma_mul_le(u, 1real, da);
        assert(da * 1real == da) by (nonlinear_arith);
        assert(reals::rabs(diff.val()) <= 1real);
        lemma_exp_upper(diff, 1);
        sqrt::lemma_size_from_prec(diff);
    }
    let diff_sq: Float = diff.mul_at_prec(&diff, prec);
    proof {
        lemma_rabs_square_small(diff.val(), diff_sq.val(), u);
        lemma_exp_upper(diff_sq, 2);
        sqrt::lemma_size_from_prec(diff_sq);
    }
    let p_float: Float = p.to_float();
    proof {
        lemma_pow2_pos(i as nat);
        chudnovsky_assembly::lemma_integer_float(p_float, *p);
        reals::lemma_rpow2_nat(i as nat);
        lemma2_to64_rest();
        if i < 60 {
            lemma_pow2_strictly_increases(i as nat, 60);
        }
        integer::lemma_size_from_bits(*p, 60);
    }
    let scaled: Float = diff_sq.mul_at_prec(&p_float, prec);
    proof {
        // The scaled square is below 2^64.
        lemma_scaled_small(diff_sq.val(), reals::rpow2(i as int), scaled.val(), u, i as int);
        lemma_exp_upper(scaled, 64);
        sqrt::lemma_size_from_prec(scaled);
        sqrt::lemma_size_from_prec(*t);
    }
    let w: Float = t.sub_at_prec(&scaled, prec);
    proof {
        lemma_t_step(
            t.val(),
            reals::rpow2(i as int),
            d,
            diff.val(),
            diff_sq.val(),
            scaled.val(),
            w.val(),
            pr,
        );
    }
    w
}

/// The rounded square of a number up to one is below two.
proof fn lemma_rabs_square_small(x: real, y: real, u: real)
    requires
        0real < u <= 1real,
        reals::rabs(x) <= 1real,
        reals::rabs(y - x * x) <= reals::rabs(x * x) * u,
    ensures
        reals::rabs(y) < reals::rpow2(2),
        reals::rabs(y) <= 2real,
{
    lemma_small_powers();
    agm::lemma_rabs_square(x, 1real);
    assert(1real * 1real == 1real) by (nonlinear_arith);
    let xx = x * x;
    accuracy::lemma_mul_le_both(xx, 1real, u, 1real);
}

/// A product with a power of two stays in range.
proof fn lemma_scaled_small(x: real, p: real, y: real, u: real, i: int)
    requires
        0real < u <= 1real,
        reals::rabs(x) <= 2real,
        p == reals::rpow2(i),
        0 <= i <= 60,
        reals::rabs(y - x * p) <= reals::rabs(x * p) * u,
    ensures
        reals::rabs(y) < reals::rpow2(64),
{
    reals::lemma_rpow2_step(i);
    reals::lemma_rpow2_monotone(i, 60);
    reals::lemma_rpow2_step(60);
    reals::lemma_rpow2_step(61);
    reals::lemma_rpow2_step(62);
    reals::lemma_rpow2_step(63);
    let b = reals::rpow2(60);
    let xa = reals::rabs(x);
    newton::lemma_rabs_multiplies(x, p);
    accuracy::lemma_mul_le_both(xa, 2real, p, b);
    let xp = reals::rabs(x * p);
    accuracy::lemma_mul_le_both(xp, 2real * b, u, 1real);
    assert((2real * b) * 1real == 2real * b) by (nonlinear_arith);
}

/// One step of the iteration.
fn iterate(
    a: &Float,
    b: &Float,
    t: &Float,
    p: &Integer,
    i: u32,
    prec: u64,
) -> (r: (Float, Float, Float))
    requires
        256 <= prec <= 0x100_0000_0000,
        prec / 8 + 512 <= limbs::limb_limit(),
        i <= 60,
        floats_ok(*a, *b, *t, prec),
        agm::in_range(state_of(*a, *b, *t), i as nat, reals::rpow2(i as int)),
        p.wf(),
        p@ == pow2(i as nat),
    ensures
        floats_ok(r.0, r.1, r.2, prec),
        agm::agm_step(
            state_of(*a, *b, *t),
            state_of(r.0, r.1, r.2),
            reals::rpow2(i as int),
            reals::rpow2(-(prec as int)),
        ),
        agm::in_range(state_of(r.0, r.1, r.2), (i + 1) as nat, reals::rpow2(i + 1)),
{
    let ghost s = state_of(*a, *b, *t);
    let ghost pr = prec as int;
    proof {
        lemma_unit(pr, i as int);
        lemma_range_bounds(s, i as nat, reals::rpow2(i as int));
    }
    let a_new: Float = mean(a, b, prec);
    let b_new: Float = geometric_mean(a, b, prec);
    proof {
        let u = reals::rpow2(-pr);
        let sum = s.0 + s.1;
        let e = 4real * u;
        accuracy::lemma_mul_le(e, 1real / 1000real, sum);
        assert(sum * (1real / 1000real) == sum / 1000real) by (nonlinear_arith);
    }
    let t_new: Float = next_t(a, &a_new, t, p, i, prec);
    proof {
        agm::lemma_range_step(
            s,
            state_of(a_new, b_new, t_new),
            i as nat,
            reals::rpow2(i as int),
            reals::rpow2(-pr),
        );
    }
    (a_new, b_new, t_new)
}

/// What the range means for the three values.
proof fn lemma_range_bounds(s: (real, real, real), i: nat, p: real)
    requires
        i <= 64,
        p >= 1real,
        agm::in_range(s, i, p),
    ensures
        7real / 10real <= s.0 <= 11real / 10real,
        7real / 10real <= s.1 <= 11real / 10real,
        22real / 100real <= s.2 <= 26real / 100real,
{
    let g = s.0 - s.1;
    agm::lemma_square_nonnegative(g);
    accuracy::lemma_mul_le_both(0real, p, 0real, g * g);
}

/// The number of iterations for a precision: the logarithm of the precision,
/// rounded up, and two.
pub open spec fn iteration_count(prec: int) -> nat {
    bitlen::bit_len(prec - 1) + 2
}

/// The number of iterations for a precision.
pub fn iterations_for(prec: u64) -> (n: u32)
    requires
        256 <= prec <= 0x100_0000_0000,
    ensures
        n == iteration_count(prec as int),
        n <= 42,
{
    let mut x: u64 = prec - 1;
    let mut n: u32 = 0;
    proof {
        lemma2_to64_rest();
        bitlen::lemma_bit_len_at_most(prec - 1, 40);
    }
    while x > 0
        invariant
            n + bitlen::bit_len(x as int) == bitlen::bit_len(prec - 1),
            bitlen::bit_len(prec - 1) <= 40,
        decreases x,
    {
        x = x / 2;
        n += 1;
    }
    n + 2
}

/// `x` is `(a + b)^2 / (4 * t)` of the last state, up to a few units.
pub open spec fn is_agm_quotient(x: real, s: (real, real, real), u: real) -> bool {
    accuracy::within(x * (4real * s.2), (s.0 + s.1) * (s.0 + s.1), 12real, u)
}

/// The start of the iteration.
fn initial_state(prec: u64) -> (r: (Float, Float, Float))
    requires
        256 <= prec <= 0x100_0000_0000,
        prec / 8 + 512 <= limbs::limb_limit(),
    ensures
        floats_ok(r.0, r.1, r.2, prec),
        agm::agm_start(state_of(r.0, r.1, r.2), reals::rpow2(-(prec as int))),
{
    let ghost p = prec as int;
    let ghost u = reals::rpow2(-p);
    let a: Float = Float::with_val_64(prec, 1u32);
    // 0.5 and 0.25 in double precision.
    let mut b: Float = Float::with_val_64(prec, F64Bits(0x3FE0_0000_0000_0000));
    let t: Float = Float::with_val_64(prec, F64Bits(0x3FD0_0000_0000_0000));
    proof {
        limbs::lemma_limb_limit();
        chudnovsky_assembly::lemma_small_float(a, prec as nat, 1);
        lemma_binary_fraction(b, prec as nat, -53, -1);
        lemma_binary_fraction(t, prec as nat, -54, -2);
        lemma_small_powers();
        lemma_unit(p, 0);
        reals::lemma_rpow2_step(-p);
        reals::lemma_rpow2_step(1 - p);
    }
    b.sqrt_mut();
    proof {
        float::lemma_val_zero(b);
        assert(reals::rpow2(2 - p) == 4real * u);
    }
    (a, b, t)
}

/// `2^52 * 2^e` is `2^(e + 52)`.
proof fn lemma_binary_fraction(f: Float, prec: nat, e: int, k: int)
    requires
        prec >= 64,
        k == e + 52,
        f.is_rounded(prec, false, 0x10_0000_0000_0000, e),
    ensures
        f.val() == reals::rpow2(k),
        f.mantissa@ == 0x10_0000_0000_0000,
        f.exp == e,
        !f.sign,
{
    lemma2_to64_rest();
    rounding::lemma_round_nothing(0x10_0000_0000_0000);
    bitlen::lemma_bit_len_unique(0x10_0000_0000_0000, 53);
    reals::lemma_rpow2_nat(52);
    reals::lemma_rpow2_add(52, e);
}

/// The phases of the iterations.
pub open spec fn iteration_steps(count: u32) -> Seq<ProgressEvent> {
    progress::phase("initialization"@, 1, 1) + progress::phase(
        "agm iterations"@,
        count as u64,
        count as nat,
    )
}

/// The phases of the approximation.
pub open spec fn approximation_steps(count: u32) -> Seq<ProgressEvent> {
    iteration_steps(count) + progress::phase("final assembly"@, 1, 1)
}

/// The iterations, with one tick for each.
fn iterate_all<R: ProgressReporter>(prec: u64, count: u32, progress: &mut R) -> (r: (
    Float,
    Float,
    Float,
))
    requires
        256 <= prec <= 0x100_0000_0000,
        prec / 8 + 512 <= limbs::limb_limit(),
        count <= 42,
    ensures
        floats_ok(r.0, r.1, r.2, prec),
        agm::in_range(state_of(r.0, r.1, r.2), count as nat, reals::rpow2(count as int)),
        exists|run: Seq<(real, real, real)>| #[trigger]
            agm::agm_run(run, reals::rpow2(-(prec as int))) && run.len() == count + 1 && run.last()
                == state_of(r.0, r.1, r.2),
        progress::heard(*old(progress), *final(progress), iteration_steps(count)),
{
    let ghost u = reals::rpow2(-(prec as int));
    progress.start_phase("initialization", 1);
    let (a0, b0, t0) = initial_state(prec);
    let mut a: Float = a0;
    let mut b: Float = b0;
    let mut t: Float = t0;
    let mut p: Integer = Integer::from(1u32);
    progress.tick();
    progress.end_phase();
    proof {
        assert(progress::phase("initialization"@, 1, 1) =~= seq![
            ProgressEvent::Start("initialization"@, 1),
            ProgressEvent::Tick,
            ProgressEvent::End,
        ]);
        assert(progress.records() ==> progress.told() =~= old(progress).told() + progress::phase(
            "initialization"@,
            1,
            1,
        ));
    }
    let ghost ready = *progress;
    progress.start_phase("agm iterations", count as u64);
    let ghost opening = seq![ProgressEvent::Start("agm iterations"@, count as u64)];
    proof {
        assert(progress.records() ==> progress.told() =~= ready.told() + (opening
            + progress::ticks(0)));
    }
    let mut i: u32 = 0;
    let ghost mut run: Seq<(real, real, real)> = seq![state_of(a, b, t)];
    proof {
        limbs::lemma_limb_limit();
        lemma_unit(prec as int, 0);
        reals::lemma_rpow2_step(0);
        lemma2_to64();
        agm::lemma_range_start(state_of(a, b, t), u);
    }
    while i < count
        invariant
            256 <= prec <= 0x100_0000_0000,
            prec / 8 + 512 <= limbs::limb_limit(),
            0x800_0000 <= limbs::limb_limit(),
            u == reals::rpow2(-(prec as int)),
            i <= count <= 42,
            floats_ok(a, b, t, prec),
            agm::in_range(state_of(a, b, t), i as nat, reals::rpow2(i as int)),
            p.wf(),
            p@ == pow2(i as nat),
            agm::agm_run(run, u),
            run.len() == i + 1,
            run.last() == state_of(a, b, t),
            progress::heard(ready, *progress, opening + progress::ticks(i as nat)),
        decreases count - i,
    {
        let (a_new, b_new, t_new) = iterate(&a, &b, &t, &p, i, prec);
        let ghost before = run;
        proof {
            lemma2_to64();
            lemma2_to64_rest();
            lemma_pow2_unfold((i + 1) as nat);
            lemma_pow2_pos(i as nat);
            lemma_pow2_strictly_increases(i as nat, 60);
            integer::lemma_size_from_bits(p, 60);
            run = run.push(state_of(a_new, b_new, t_new));
            assert forall|k: int| 0 <= k < run.len() - 1 implies agm::agm_step(
                #[trigger] run[k],
                run[k + 1],
                reals::rpow2(k),
                u,
            ) by {
                if k < before.len() - 1 {
                    assert(run[k] == before[k] && run[k + 1] == before[k + 1]);
                    assert(agm::agm_step(before[k], before[k + 1], reals::rpow2(k), u));
                }
            }
        }
        a = a_new;
        b = b_new;
        t = t_new;
        p = shl_signed(&p, 1);
        progress.tick();
        proof {
            assert(progress.records() ==> progress.told() =~= ready.told() + (opening
                + progress::ticks((i + 1) as nat)));
        }
        i += 1;
    }
    progress.end_phase();
    proof {
        let steps = progress::phase("agm iterations"@, count as u64, count as nat);
        assert(progress.records() ==> progress.told() =~= ready.told() + steps);
        progress::lemma_heard_join(
            *old(progress),
            ready,
            *progress,
            progress::phase("initialization"@, 1, 1),
            steps,
        );
    }
    (a, b, t)
}

/// `(a + b)^2 / (4 * t)`.
fn final_quotient(a: &Float, b: &Float, t: &Float, prec: u64) -> (pi: Float)
    requires
        256 <= prec <= 0x100_0000_0000,
        prec / 8 + 512 <= limbs::limb_limit(),
        floats_ok(*a, *b, *t, prec),
        7real / 10real <= a.val() <= 11real / 10real,
        7real / 10real <= b.val() <= 11real / 10real,
        22real / 100real <= t.val() <= 26real / 100real,
    ensures
        pi.wf(),
        pi.prec == prec,
        reals::rpow2(0) <= pi.val() < reals::rpow2(3),
        is_agm_quotient(pi.val(), state_of(*a, *b, *t), reals::rpow2(-(prec as int))),
{
    let ghost p = prec as int;
    let ghost u = reals::rpow2(-p);
    let ghost tv = t.val();
    let ghost w = a.val() + b.val();
    let ghost ww = w * w;
    proof {
        limbs::lemma_limb_limit();
        lemma_unit(p, 0);
        lemma_small_powers();
        newton::lemma_val_sign(*a);
        newton::lemma_val_sign(*b);
        newton::lemma_val_sign(*t);
        newton::lemma_exp_bounds(*a, -1, 1);
        newton::lemma_exp_bounds(*b, -1, 1);
        newton::lemma_exp_bounds(*t, -3, -1);
        accuracy::lemma_mul_le_both(14real / 10real, w, 14real / 10real, w);
        accuracy::lemma_mul_le_both(w, 22real / 10real, w, 22real / 10real);
        assert((14real / 10real) * (14real / 10real) == 196real / 100real);
        assert((22real / 10real) * (22real / 10real) == 484real / 100real);
    }
    let mut pi: Float = a.add_at_prec(b, prec);
    let ghost s = pi.val();
    proof {
        accuracy::lemma_near_within(s, w, p);
        newton::lemma_near_range(pi, w, 0, 2, p);
        accuracy::lemma_within_product(s, w, 1real, s, w, 1real, u);
    }
    pi.square_mut();
    let ghost q = pi.val();
    proof {
        accuracy::lemma_near_within(q, s * s, p);
        accuracy::lemma_within_chain(q, s * s, ww, 1real, 3real, u);
        lemma_within_close(q, ww, 5real, u);
        newton::lemma_val_sign(pi);
        newton::lemma_exp_bounds(pi, 0, 3);
    }
    let by_t: Float = pi.div_at_prec(t, prec);
    let ghost d1 = by_t.val();
    let four: Float = Float::with_val_64(64, 4u32);
    proof {
        reals::lemma_rpow2_step(-p);
        assert(reals::rpow2(1 - p) == 2real * u);
        chudnovsky_assembly::lemma_small_float(four, 64, 4);
        lemma2_to64();
        integer::lemma_size_from_bits(four.mantissa, 4);
        assert(accuracy::within(d1 * tv, q, 2real, u));
        accuracy::lemma_within_chain(d1 * tv, q, ww, 2real, 5real, u);
        lemma_within_close(d1 * tv, ww, 8real, u);
        lemma_quotient_bounds(d1, tv);
        newton::lemma_val_sign(by_t);
        newton::lemma_exp_bounds(by_t, 0, 5);
    }
    let r: Float = by_t.div_at_prec(&four, prec);
    proof {
        let x = r.val();
        newton::lemma_val_sign(by_t);
        assert(accuracy::within(x * 4real, d1, 2real, u));
        accuracy::lemma_within_scale(x * 4real, d1, 2real, u, tv);
        assert((x * 4real) * tv == x * (4real * tv)) by (nonlinear_arith);
        accuracy::lemma_within_chain(x * (4real * tv), d1 * tv, ww, 2real, 8real, u);
        lemma_within_widen(x * (4real * tv), ww, 11real, 12real, u);
        lemma_within_close(x * 4real, d1, 2real, u);
    }
    r
}

/// A relative error of a few units is below one thousandth.
proof fn lemma_within_close(x: real, y: real, a: real, u: real)
    requires
        accuracy::within(x, y, a, u),
        0real <= a <= 20real,
        0real < u <= 1real / 1_000_000real,
    ensures
        y - y / 1000real <= x <= y + y / 1000real,
{
    accuracy::lemma_mul_le_both(a, 20real, u, 1real / 1_000_000real);
    let e = a * u;
    accuracy::lemma_mul_le(e, 1real / 1000real, y);
    assert(y * (1real / 1000real) == y / 1000real) by (nonlinear_arith);
}

proof fn lemma_within_widen(x: real, y: real, a: real, b: real, u: real)
    requires
        accuracy::within(x, y, a, u),
        a <= b,
        u > 0real,
    ensures
        accuracy::within(x, y, b, u),
{
    accuracy::lemma_mul_le(a, b, u);
    accuracy::lemma_mul_le(a * u, b * u, y);
}

/// The range of a quotient by `t`.
proof fn lemma_quotient_bounds(d: real, t: real)
    requires
        22real / 100real <= t <= 26real / 100real,
        195real / 100real <= d * t <= 486real / 100real,
    ensures
        7real <= d <= 23real,
{
    if d < 7real {
        if d > 0real {
            accuracy::lemma_mul_le_both(d, 7real, t, 26real / 100real);
            assert(7real * (26real / 100real) == 182real / 100real);
        } else {
            accuracy::lemma_mul_le(d, 0real, t);
            assert(0real * t == 0real) by (nonlinear_arith);
        }
    }
    if d > 23real {
        accuracy::lemma_mul_le_both(23real, d, 22real / 100real, t);
        assert(23real * (22real / 100real) == 506real / 100real);
    }
}

/// The value of the Gauss-Legendre iteration after the iterations that the
/// precision asks for.
pub open spec fn is_gauss_legendre(x: real, prec: int) -> bool {
    exists|run: Seq<(real, real, real)>| #[trigger]
        agm::agm_run(run, reals::rpow2(-prec)) && run.len() == iteration_count(prec) + 1 && is_agm_quotient(
            x,
            run.last(),
            reals::rpow2(-prec),
        )
}

/// The Gauss-Legendre approximation to `prec` bits.
pub fn approximate<R: ProgressReporter>(prec: u64, count: u32, progress: &mut R) -> (pi: Float)
    requires
        256 <= prec <= 0x100_0000_0000,
        prec / 8 + 512 <= limbs::limb_limit(),
        count == iteration_count(prec as int),
        count <= 42,
    ensures
        pi.wf(),
        pi.prec == prec,
        reals::rpow2(0) <= pi.val() < reals::rpow2(3),
        is_gauss_legendre(pi.val(), prec as int),
        progress::heard(*old(progress), *final(progress), approximation_steps(count)),
{
    let (a, b, t) = iterate_all(prec, count, progress);
    let ghost iterated = *progress;
    proof {
        lemma_unit(prec as int, count as int);
        lemma_range_bounds(state_of(a, b, t), count as nat, reals::rpow2(count as int));
    }
    progress.start_phase("final assembly", 1);
    let pi: Float = final_quotient(&a, &b, &t, prec);
    progress.tick();
    progress.end_phase();
    proof {
        let steps = progress::phase("final assembly"@, 1, 1);
        assert(progress.records() ==> progress.told() =~= iterated.told() + steps);
        progress::lemma_heard_join(
            *old(progress),
            iterated,
            *progress,
            iteration_steps(count),
            steps,
        );
    }
    pi
}

/// As many iterations as doublings of one bit take to reach the precision, and two
/// more.
pub proof fn law_iteration_count(prec: int)
    requires
        prec >= 2,
    ensures
        iteration_count(prec) >= 3,
        pow2((iteration_count(prec) - 2) as nat) >= prec,
        pow2((iteration_count(prec) - 3) as nat) < prec,
{
    bitlen::lemma_bit_len(prec - 1);
}

/// What the iteration gives at a precision: a run of so many steps from its start,
/// and from the last state `(a, b, t)` the quotient `(a + b)^2 / 4t`, but for a
/// relative error of twelve units in the last place.
pub proof fn law_gauss_legendre(x: real, prec: int) -> (run: Seq<(real, real, real)>)
    requires
        is_gauss_legendre(x, prec),
    ensures
        agm::agm_run(run, reals::rpow2(-prec)),
        run.len() == iteration_count(prec) + 1,
        ({
            let (a, b, t) = run.last();
            let y = (a + b) * (a + b);
            let e = y * (12real * reals::rpow2(-prec));
            y > 0real && y - e <= x * (4real * t) <= y + e
        }),
{
    choose|run: Seq<(real, real, real)>| #[trigger]
        agm::agm_run(run, reals::rpow2(-prec)) && run.len() == iteration_count(prec) + 1
            && is_agm_quotient(x, run.last(), reals::rpow2(-prec))
}

} // verus!
