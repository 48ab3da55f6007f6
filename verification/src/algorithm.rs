//! The algorithms: digits of pi through a sink.
use crate::accuracy;
use crate::bitlen;
use crate::chudnovsky;
use crate::chudnovsky::{TERM_A, binary_split};
use crate::chudnovsky_assembly;
use crate::chudnovsky_assembly::{assemble_quotient, sqrt_numerator};
use crate::digits;
use crate::digits::write_decimal_digits;
use crate::double;
use crate::double::{Double, power_of_two};
use crate::float::Float;
use crate::gauss_legendre;
use crate::gauss_legendre::{approximate, iterations_for};
use crate::integer::{Integer, add_signed, mul_signed};
use crate::limbs;
use crate::newton;
use crate::output;
use crate::output::{DigitSink, SinkError, SinkEvent};
use crate::pi_config::ChudnovskyConfig;
use crate::precision;
use crate::precision::{PlanError, PrecisionPlan};
use crate::progress;
use crate::progress::{Phase, ProgressEvent, ProgressReporter};
use crate::reals;
use vstd::arithmetic::div_mod::*;
use vstd::arithmetic::mul::*;
use vstd::arithmetic::power2::*;
use vstd::arithmetic::power::*;
use vstd::prelude::*;

verus! {

/// Why a computation ended without its digits.
#[derive(Debug)]
pub enum ComputeError {
    /// The number of digits is out of range.
    Plan(PlanError),
    /// The sink took no more.
    Sink(SinkError),
}

/// The machine can hold the numbers that so many digits need.  All digit
/// counts pass where pointers have 64 bits, since those over the limit here
/// are refused by the plan.
pub open spec fn machine_allows(digits: int) -> bool {
    digits + 4096 <= limbs::limb_limit() || digits > 400_000_000_000
}

/// Where pointers have 64 bits every number of digits is allowed.
pub proof fn law_wide_machines(digits: u64)
    requires
        usize::BITS == 64,
    ensures
        machine_allows(digits as int),
{
    limbs::lemma_limb_limit();
}

/// Decimal digits that one term contributes, in double precision, times `2^49`.
pub const DIGITS_PER_TERM_SCALED: u64 = 7_983_557_778_578_775;

/// Terms beyond the estimate.
pub const SAFETY_TERMS: u64 = 8;

/// The number of terms for a number of digits: the quotient by the digits per
/// term as double precision computes it, rounded up, and the safety terms.
pub open spec fn term_count(digits: int) -> int {
    let x = double::quotient_bits(digits, DIGITS_PER_TERM_SCALED as int);
    let drop = double::double_drop(x);
    let unit = pow2((16 + double::shortfall(digits) - drop) as nat) as int;
    (double::round_even(x, drop) + (unit - 1)) / unit + SAFETY_TERMS
}

/// The rounded quotient stays below a fourteenth of the digits.
pub proof fn lemma_term_bound(digits: int)
    requires
        1 <= digits <= 400_000_000_000,
    ensures
        ({
            let x = double::quotient_bits(digits, DIGITS_PER_TERM_SCALED as int);
            let drop = double::double_drop(x);
            let t = 16 + double::shortfall(digits) - drop;
            &&& 1 <= t <= 68
            &&& 1 <= double::round_even(x, drop)
            &&& 14 * double::round_even(x, drop) <= digits * pow2(t as nat)
        }),
{
    lemma2_to64();
    lemma2_to64_rest();
    let c = DIGITS_PER_TERM_SCALED as int;
    let s = double::shortfall(digits);
    let x = double::quotient_bits(digits, c);
    let drop = double::double_drop(x);
    let m = double::round_even(x, drop);
    let w = 0x1_0000_0000_0000_0000int;
    // The numerator has 117 bits.
    bitlen::lemma_bit_len_at_most(digits, 53);
    bitlen::lemma_bit_len(digits);
    lemma_pow2_adds(bitlen::bit_len(digits), s);
    lemma_pow2_adds((bitlen::bit_len(digits) - 1) as nat, s);
    let top = digits * pow2(s);
    assert(0x10_0000_0000_0000 <= top < 0x20_0000_0000_0000) by {
        assert(digits * pow2(s) < pow2(bitlen::bit_len(digits)) * pow2(s)) by (nonlinear_arith)
            requires
                digits < pow2(bitlen::bit_len(digits)),
                pow2(s) > 0,
        ;
        assert(pow2((bitlen::bit_len(digits) - 1) as nat) * pow2(s) <= digits * pow2(s))
            by (nonlinear_arith)
            requires
                pow2((bitlen::bit_len(digits) - 1) as nat) <= digits,
                pow2(s) > 0,
        ;
    }
    let n = top * w;
    let q = n / c;
    lemma_fundamental_div_mod(n, c);
    lemma_mod_bound(n, c);
    assert(2 * q <= x <= 2 * q + 1);
    assert(c * q <= n < c * q + c);
    assert(x * c <= 2 * n + c) by (nonlinear_arith)
        requires
            x <= 2 * q + 1,
            c * q <= n,
            c > 0,
    ;
    // The bits that are cut off.
    assert(0x4000_0000_0000_0000 <= x < 0x8_0000_0000_0000_0000);
    lemma_pow2_adds(64, 3);
    bitlen::lemma_bit_len_at_most(x, 67);
    bitlen::lemma_bit_len(x);
    if bitlen::bit_len(x) < 63 {
        lemma_pow2_strictly_increases(bitlen::bit_len(x), 63);
    }
    let p = pow2(drop) as int;
    lemma_pow2_adds(drop, 52);
    assert(p * 0x10_0000_0000_0000 <= x);
    lemma_fundamental_div_mod(x, p);
    lemma_mod_bound(x, p);
    assert(m * p <= x + p) by (nonlinear_arith)
        requires
            m <= x / p + 1,
            x == p * (x / p) + x % p,
            x % p >= 0,
            p > 0,
    ;
    lemma_div_is_ordered(p * 0x10_0000_0000_0000, x, p);
    lemma_mul_is_commutative(p, 0x10_0000_0000_0000);
    lemma_div_by_multiple(0x10_0000_0000_0000, p);
    let t = (16 + s - drop) as nat;
    lemma_pow2_adds(drop, t);
    lemma_pow2_adds(16, s);
    let u = pow2(t) as int;
    // n == digits * 2^(16 + s) * 2^48
    assert(n == digits * (65536 * pow2(s)) * 0x1_0000_0000_0000) by (nonlinear_arith)
        requires
            n == (digits * pow2(s)) * 0x1_0000_0000_0000_0000,
    ;
    let k = digits * (p * u);
    assert(p * u == 65536 * pow2(s));
    assert(n == k * 0x1_0000_0000_0000);
    assert(k >= 65536) by (nonlinear_arith)
        requires
            k == digits * (65536 * pow2(s)),
            digits >= 1,
            pow2(s) >= 1,
    ;
    assert(1400 * x <= 99 * k + 1400);
    assert(14 * (m * p) <= k);
    assert(14 * m <= digits * u) by (nonlinear_arith)
        requires
            14 * (m * p) <= k,
            k == digits * (p * u),
            p > 0,
    ;
}

/// The number of terms for a number of digits.
fn terms_for(digits: u64) -> (n: u64)
    requires
        1 <= digits <= 400_000_000_000,
    ensures
        n == term_count(digits as int),
        9 <= n <= digits / 14 + 9,
{
    let per_term: Double = Double { mant: DIGITS_PER_TERM_SCALED, exp: -49 };
    proof {
        double::lemma_exact(digits as int);
        lemma_term_bound(digits as int);
    }
    let quotient: Double = Double::from_u64(digits).over(per_term);
    let unit: u128 = power_of_two((-quotient.exp) as u32);
    proof {
        lemma_pow2_pos((-quotient.exp) as nat);
        lemma_pow2_adds(64, 4);
        lemma2_to64();
        lemma2_to64_rest();
        if -quotient.exp < 68 {
            lemma_pow2_strictly_increases((-quotient.exp) as nat, 68);
        }
    }
    let ceiling: u128 = (quotient.mant as u128 + (unit - 1)) / unit;
    proof {
        let m = quotient.mant as int;
        let u = unit as int;
        let d = digits as int;
        let r = ceiling as int;
        lemma_fundamental_div_mod(m + (u - 1), u);
        lemma_mod_bound(m + (u - 1), u);
        lemma_mul_is_commutative(u, r);
        assert(r >= 1) by (nonlinear_arith)
            requires
                m + (u - 1) == r * u + (m + (u - 1)) % u,
                (m + (u - 1)) % u < u,
                m >= 1,
                u >= 1,
        ;
        assert(14 * r < d + 14) by (nonlinear_arith)
            requires
                r * u <= m + (u - 1),
                14 * m <= d * u,
                u >= 1,
        ;
    }
    ceiling as u64 + SAFETY_TERMS
}

/// The phases of the series before the conversion.
pub open spec fn chudnovsky_work(digits: int) -> Seq<ProgressEvent> {
    let n = term_count(digits);
    progress::phase("binary splitting"@, n as u64, n as nat) + progress::phase(
        "final assembly"@,
        3,
        3,
    )
}

/// What is announced of the series, and its phases before the conversion.
pub open spec fn chudnovsky_steps(digits: int) -> Seq<ProgressEvent> {
    seq![
        ProgressEvent::Phases(
            seq![
                ("binary splitting"@, term_count(digits) as u64),
                ("final assembly"@, 4u64),
                ("decimal conversion"@, 1u64),
            ],
        ),
    ] + chudnovsky_work(digits)
}

/// What is announced of the iteration, and its phases before the conversion.
pub open spec fn gauss_legendre_steps(digits: int) -> Seq<ProgressEvent> {
    let count = gauss_legendre::iteration_count(precision::precision_for(digits)) as u32;
    seq![
        ProgressEvent::Phases(
            seq![
                ("initialization"@, 1u64),
                ("agm iterations"@, count as u64),
                ("final assembly"@, 1u64),
                ("decimal conversion"@, 1u64),
            ],
        ),
    ] + gauss_legendre::approximation_steps(count)
}

/// The conversion, up to the point where all digits have been handed over.
pub open spec fn conversion_opening() -> Seq<ProgressEvent> {
    seq![ProgressEvent::Start("decimal conversion"@, 1)] + digits::conversion_steps()
}

/// The end of the conversion.
pub open spec fn conversion_closing() -> Seq<ProgressEvent> {
    seq![ProgressEvent::Tick, ProgressEvent::End]
}

/// Everything that is told of a computation with the given work before the
/// conversion.  A sink that takes no more leaves the conversion open.
pub open spec fn all_steps(work: Seq<ProgressEvent>, complete: bool) -> Seq<ProgressEvent> {
    work + conversion_opening() + if complete {
        conversion_closing()
    } else {
        Seq::empty()
    }
}

/// The answer of a sink to a computation that got as far as handing `events`
/// over.
pub open spec fn answered<S: DigitSink>(
    before: S,
    after: S,
    events: Seq<SinkEvent>,
    r: Result<(), ComputeError>,
) -> bool {
    match r {
        Ok(()) => output::handed_over(before, after, events, Ok(())),
        Err(ComputeError::Sink(e)) => output::handed_over(before, after, events, Err(e)),
        Err(ComputeError::Plan(_)) => false,
    }
}

/// A value between one and eight leaves room for the conversion.
proof fn lemma_near_pi(x: Float)
    requires
        x.wf(),
        reals::rpow2(0) <= x.val() < reals::rpow2(3),
    ensures
        !x.sign,
        -(x.prec as int) <= x.exp < 3,
{
    reals::lemma_rpow2_step(0);
    newton::lemma_val_sign(x);
    newton::lemma_exp_bounds(x, 0, 3);
}

/// The end alone, for no digits.
fn finish_only<S: DigitSink>(sink: &mut S) -> (r: Result<(), ComputeError>)
    ensures
        answered(*old(sink), *final(sink), seq![SinkEvent::Finish], r),
{
    let ghost before = *sink;
    let r: Result<(), SinkError> = sink.finish();
    proof {
        let none = Seq::<SinkEvent>::empty();
        output::lemma_handed_nothing(before);
        output::lemma_handed_next(before, before, *sink, none, SinkEvent::Finish, r);
        assert(none.push(SinkEvent::Finish) =~= seq![SinkEvent::Finish]);
    }
    match r {
        Ok(()) => Ok(()),
        Err(e) => Err(ComputeError::Sink(e)),
    }
}

/// The Chudnovsky series, summed by binary splitting.
#[derive(Debug, Default, Clone, Copy)]
pub struct Chudnovsky;

/// `v` spells the Chudnovsky approximation of pi to `digits` digits:
/// `426880 * sqrt(10005) * Q / (A * Q + T)` over the terms that the digits ask
/// for.
pub open spec fn spells_chudnovsky(v: int, digits: nat) -> bool {
    let n = term_count(digits as int);
    let q = chudnovsky::split_q(1, n + 1);
    accuracy::brackets(v, digits, chudnovsky_assembly::numerator_square() * (q * q), chudnovsky_assembly::denominator(n))
}

impl Chudnovsky {
    /// The floating-point value of the approximation.
    fn approximate<R: ProgressReporter>(
        config: &ChudnovskyConfig,
        digits: u64,
        prec: u64,
        n_terms: u64,
        progress: &mut R,
    ) -> (pi: Float)
        requires
            1 <= digits <= 400_000_000_000,
            digits + 4096 <= limbs::limb_limit(),
            prec == precision::precision_for(digits as int),
            prec <= 0x100_0000_0000,
            n_terms == term_count(digits as int),
            9 <= n_terms <= digits / 14 + 9,
        ensures
            pi.wf(),
            pi.prec == prec,
            2real <= pi.val() < 8real,
            accuracy::within(
                (pi.val() * (chudnovsky_assembly::denominator(n_terms as int) as real)) * (pi.val() * (chudnovsky_assembly::denominator(
                    n_terms as int,
                ) as real)),
                (chudnovsky_assembly::numerator_square() * (chudnovsky::split_q(1, n_terms + 1) * chudnovsky::split_q(1, n_terms + 1))) as real,
                20real,
                reals::rpow2(-(prec as int)),
            ),
            progress::heard(*old(progress), *final(progress), chudnovsky_work(digits as int)),
    {
        proof {
            limbs::lemma_limb_limit();
            precision::lemma_precision_upper(digits as nat);
            chudnovsky_assembly::lemma_denominator(n_terms as nat);
        }
        progress.start_phase("binary splitting", n_terms);
        let (q, t) = binary_split(config, 1, n_terms + 1, progress);
        progress.end_phase();
        let ghost split = *progress;
        let ghost splitting = progress::phase("binary splitting"@, n_terms, n_terms as nat);
        proof {
            assert(split.records() ==> split.told() =~= old(progress).told() + splitting);
        }
        progress.start_phase("final assembly", 3);
        let sqrt_426880: Float = sqrt_numerator(prec);
        let a: Integer = Integer::from(TERM_A);
        let aq: Integer = mul_signed(&a, &q);
        let denom_int: Integer = add_signed(&aq, &t);
        progress.tick();
        let ghost d = denom_int@;
        let pi: Float = assemble_quotient(config, sqrt_426880, &q, denom_int, prec);
        progress.tick();
        progress.tick();
        progress.end_phase();
        proof {
            let assembly = progress::phase("final assembly"@, 3, 3);
            assert(progress.records() ==> progress.told() =~= split.told() + assembly);
            progress::lemma_heard_join(*old(progress), split, *progress, splitting, assembly);
            reals::lemma_int_product(q@, q@);
            reals::lemma_int_product(chudnovsky_assembly::numerator_square(), q@ * q@);
        }
        pi
    }

    /// Compute `digits` decimal digits, counting the leading one, and hand them
    /// to `sink`.
    pub fn compute_with<S: DigitSink, R: ProgressReporter>(
        config: &ChudnovskyConfig,
        digits: u64,
        sink: &mut S,
        progress: &mut R,
    ) -> (r: Result<(), ComputeError>)
        requires
            machine_allows(digits as int),
        ensures
            match r {
                Err(ComputeError::Plan(e)) => precision::plan_error(digits) == Some(e) && *final(sink) == *old(
                    sink,
                ),
                _ => precision::plan_error(digits) is None && (if digits == 0 {
                    answered(*old(sink), *final(sink), seq![SinkEvent::Finish], r)
                } else {
                    exists|v: int| #[trigger]
                        spells_chudnovsky(v, digits as nat) && answered(
                            *old(sink),
                            *final(sink),
                            digits::digit_events(v, digits as nat),
                            r,
                        )
                }),
            },
            digits == 0 || precision::plan_error(digits) is Some ==> *final(progress) == *old(
                progress,
            ),
            digits > 0 && precision::plan_error(digits) is None ==> progress::heard(
                *old(progress),
                *final(progress),
                all_steps(chudnovsky_steps(digits as int), r is Ok),
            ),
    {
        if digits == 0 {
            return finish_only(sink);
        }
        let plan: PrecisionPlan = match PrecisionPlan::for_digits(digits) {
            Ok(plan) => plan,
            Err(e) => {
                return Err(ComputeError::Plan(e));
            },
        };
        let prec: u64 = plan.precision_bits;
        proof {
            precision::lemma_precision_upper(digits as nat);
            precision::law_precision_suffices(digits as nat);
        }
        let n_terms: u64 = terms_for(digits);
        let phases: [Phase; 3] = [
            Phase { name: "binary splitting", total: n_terms },
            Phase { name: "final assembly", total: 4 },
            Phase { name: "decimal conversion", total: 1 },
        ];
        progress.set_phases(&phases);
        proof {
            assert(progress::announced(phases@) =~= seq![
                ("binary splitting"@, term_count(digits as int) as u64),
                ("final assembly"@, 4u64),
                ("decimal conversion"@, 1u64),
            ]);
        }
        let ghost told = *progress;
        let pi: Float = Self::approximate(config, digits, prec, n_terms, progress);
        let ghost worked = *progress;
        let ghost x = pi.val();
        let ghost n = term_count(digits as int);
        let ghost q = chudnovsky::split_q(1, n + 1);
        let ghost d = chudnovsky_assembly::denominator(n);
        proof {
            assert(accuracy::within(
                (x * (d as real)) * (x * (d as real)),
                (chudnovsky_assembly::numerator_square() * (q * q)) as real,
                20real,
                reals::rpow2(-(prec as int)),
            ));
            limbs::lemma_limb_limit();
            chudnovsky_assembly::lemma_rpow2_values();
        }
        progress.start_phase("decimal conversion", 1);
        let ghost before = *sink;
        proof {
            lemma_near_pi(pi);
        }
        let written: Result<(), SinkError> = write_decimal_digits(pi, digits, sink, progress);
        proof {
            let work = chudnovsky_steps(digits as int);
            let announcement = work.take(1);
            assert(work =~= announcement + work.skip(1));
            assert(chudnovsky_work(digits as int) =~= work.skip(1));
            assert(told.records() ==> told.told() =~= old(progress).told() + announcement);
            progress::lemma_heard_join(*old(progress), told, worked, announcement, work.skip(1));
            assert(worked.records() ==> progress.told() =~= worked.told() + conversion_opening());
            progress::lemma_heard_join(
                *old(progress),
                worked,
                *progress,
                work,
                conversion_opening(),
            );
            assert(all_steps(work, false) =~= work + conversion_opening());
        }
        let ghost converted = *progress;
        proof {
            let k = digits as nat;
            let v = choose|v: int|
                digits::is_scaled(v, pi, k) && output::handed_over(
                    before,
                    *sink,
                    #[trigger] digits::digit_events(v, k),
                    written,
                );
            digits::lemma_small_error(k, prec as int);
            chudnovsky_assembly::lemma_denominator(n as nat);
            accuracy::lemma_brackets(
                v,
                x,
                k,
                prec as int,
                chudnovsky_assembly::numerator_square() * (q * q),
                d,
            );
            assert(spells_chudnovsky(v, k));
        }
        match written {
            Ok(()) => {
                progress.tick();
                progress.end_phase();
                proof {
                    assert(progress.records() ==> progress.told() =~= converted.told()
                        + conversion_closing());
                    progress::lemma_heard_join(
                        *old(progress),
                        converted,
                        *progress,
                        chudnovsky_steps(digits as int) + conversion_opening(),
                        conversion_closing(),
                    );
                }
                Ok(())
            },
            Err(e) => Err(ComputeError::Sink(e)),
        }
    }
}

/// A way to compute digits of pi.
pub trait PiAlgorithm {
    /// `v` is what the algorithm gives for `digits` digits.
    spec fn spells(&self, v: int, digits: nat) -> bool;

    /// What is told of the work for `digits` digits, before the conversion.
    spec fn steps(&self, digits: nat) -> Seq<ProgressEvent>;

    /// The name in flags and logs.
    spec fn title(&self) -> Seq<char>;

    /// The name in flags and logs.
    fn name(&self) -> (s: &'static str)
        ensures
            s@ == self.title(),
    ;

    /// Compute `digits` decimal digits, counting the leading one, and hand them
    /// to `sink`.
    fn compute<S: DigitSink, R: ProgressReporter>(
        &self,
        digits: u64,
        sink: &mut S,
        progress: &mut R,
    ) -> (r: Result<(), ComputeError>)
        requires
            machine_allows(digits as int),
        ensures
            match r {
                Err(ComputeError::Plan(e)) => precision::plan_error(digits) == Some(e) && *final(sink) == *old(
                    sink,
                ),
                _ => precision::plan_error(digits) is None && (if digits == 0 {
                    answered(*old(sink), *final(sink), seq![SinkEvent::Finish], r)
                } else {
                    exists|v: int| #[trigger]
                        self.spells(v, digits as nat) && answered(
                            *old(sink),
                            *final(sink),
                            digits::digit_events(v, digits as nat),
                            r,
                        )
                }),
            },
            digits == 0 || precision::plan_error(digits) is Some ==> *final(progress) == *old(
                progress,
            ),
            digits > 0 && precision::plan_error(digits) is None ==> progress::heard(
                *old(progress),
                *final(progress),
                all_steps(self.steps(digits as nat), r is Ok),
            ),
    ;
}

impl PiAlgorithm for Chudnovsky {
    open spec fn spells(&self, v: int, digits: nat) -> bool {
        spells_chudnovsky(v, digits)
    }

    open spec fn steps(&self, digits: nat) -> Seq<ProgressEvent> {
        chudnovsky_steps(digits as int)
    }

    open spec fn title(&self) -> Seq<char> {
        "chudnovsky"@
    }

    fn name(&self) -> (s: &'static str) {
        "chudnovsky"
    }

    fn compute<S: DigitSink, R: ProgressReporter>(
        &self,
        digits: u64,
        sink: &mut S,
        progress: &mut R,
    ) -> (r: Result<(), ComputeError>) {
        let config: ChudnovskyConfig = ChudnovskyConfig::default();
        let ghost before = *sink;
        let r: Result<(), ComputeError> = Chudnovsky::compute_with(&config, digits, sink, progress);
        proof {
            if !(r matches Err(ComputeError::Plan(_))) && digits > 0 {
                let v = choose|v: int| #[trigger]
                    spells_chudnovsky(v, digits as nat) && answered(
                        before,
                        *sink,
                        digits::digit_events(v, digits as nat),
                        r,
                    );
                assert(self.spells(v, digits as nat));
            }
        }
        r
    }
}

/// The Gauss-Legendre iteration.
#[derive(Debug, Default, Clone, Copy)]
pub struct GaussLegendre;

/// `v` spells the Gauss-Legendre approximation of pi to `digits` digits.
pub open spec fn spells_gauss_legendre(v: int, digits: nat) -> bool {
    let prec = precision::precision_for(digits as int);
    exists|x: real| #[trigger]
        gauss_legendre::is_gauss_legendre(x, prec) && digits::is_scaled_floor(v, x, digits, digits::scaling_error(digits, prec))
}

impl PiAlgorithm for GaussLegendre {
    open spec fn spells(&self, v: int, digits: nat) -> bool {
        spells_gauss_legendre(v, digits)
    }

    open spec fn steps(&self, digits: nat) -> Seq<ProgressEvent> {
        gauss_legendre_steps(digits as int)
    }

    open spec fn title(&self) -> Seq<char> {
        "gauss-legendre"@
    }

    fn name(&self) -> (s: &'static str) {
        "gauss-legendre"
    }

    fn compute<S: DigitSink, R: ProgressReporter>(
        &self,
        digits: u64,
        sink: &mut S,
        progress: &mut R,
    ) -> (r: Result<(), ComputeError>) {
        if digits == 0 {
            return finish_only(sink);
        }
        let plan: PrecisionPlan = match PrecisionPlan::for_digits(digits) {
            Ok(plan) => plan,
            Err(e) => {
                return Err(ComputeError::Plan(e));
            },
        };
        let prec: u64 = plan.precision_bits;
        proof {
            limbs::lemma_limb_limit();
            precision::lemma_precision_upper(digits as nat);
        }
        let count: u32 = iterations_for(prec);
        let phases: [Phase; 4] = [
            Phase { name: "initialization", total: 1 },
            Phase { name: "agm iterations", total: count as u64 },
            Phase { name: "final assembly", total: 1 },
            Phase { name: "decimal conversion", total: 1 },
        ];
        progress.set_phases(&phases);
        proof {
            assert(progress::announced(phases@) =~= seq![
                ("initialization"@, 1u64),
                ("agm iterations"@, count as u64),
                ("final assembly"@, 1u64),
                ("decimal conversion"@, 1u64),
            ]);
        }
        let ghost told = *progress;
        let pi: Float = approximate(prec, count, progress);
        let ghost worked = *progress;
        let ghost x = pi.val();
        progress.start_phase("decimal conversion", 1);
        let ghost before = *sink;
        proof {
            lemma_near_pi(pi);
        }
        let written: Result<(), SinkError> = write_decimal_digits(pi, digits, sink, progress);
        proof {
            let work = gauss_legendre_steps(digits as int);
            let announcement = work.take(1);
            assert(work =~= announcement + work.skip(1));
            assert(gauss_legendre::approximation_steps(count) =~= work.skip(1));
            assert(told.records() ==> told.told() =~= old(progress).told() + announcement);
            progress::lemma_heard_join(*old(progress), told, worked, announcement, work.skip(1));
            assert(worked.records() ==> progress.told() =~= worked.told() + conversion_opening());
            progress::lemma_heard_join(
                *old(progress),
                worked,
                *progress,
                work,
                conversion_opening(),
            );
            assert(all_steps(work, false) =~= work + conversion_opening());
        }
        let ghost converted = *progress;
        proof {
            let k = digits as nat;
            let v = choose|v: int|
                digits::is_scaled(v, pi, k) && output::handed_over(
                    before,
                    *sink,
                    #[trigger] digits::digit_events(v, k),
                    written,
                );
            digits::lemma_small_error(k, prec as int);
            assert(gauss_legendre::is_gauss_legendre(x, precision::precision_for(digits as int)));
            assert(self.spells(v, k));
        }
        match written {
            Ok(()) => {
                progress.tick();
                progress.end_phase();
                proof {
                    assert(progress.records() ==> progress.told() =~= converted.told()
                        + conversion_closing());
                    progress::lemma_heard_join(
                        *old(progress),
                        converted,
                        *progress,
                        gauss_legendre_steps(digits as int) + conversion_opening(),
                        conversion_closing(),
                    );
                }
                Ok(())
            },
            Err(e) => Err(ComputeError::Sink(e)),
        }
    }
}

/// Selects an algorithm.
#[derive(Debug, Clone, Copy, PartialEq, Eq, Structural)]
pub enum AlgorithmKind {
    Chudnovsky,
    GaussLegendre,
}

/// An algorithm that has been selected.
#[derive(Debug, Clone, Copy)]
pub enum Algorithm {
    Chudnovsky(Chudnovsky),
    GaussLegendre(GaussLegendre),
}

impl AlgorithmKind {
    /// The name of the algorithm.
    pub open spec fn text(&self) -> Seq<char> {
        match self {
            AlgorithmKind::Chudnovsky => "chudnovsky"@,
            AlgorithmKind::GaussLegendre => "gauss-legendre"@,
        }
    }

    /// The algorithm of this kind.
    pub fn build(self) -> (a: Algorithm)
        ensures
            self is Chudnovsky ==> a == Algorithm::Chudnovsky(Chudnovsky),
            self is GaussLegendre ==> a == Algorithm::GaussLegendre(GaussLegendre),
            a.title() == self.text(),
    {
        match self {
            AlgorithmKind::Chudnovsky => Algorithm::Chudnovsky(Chudnovsky),
            AlgorithmKind::GaussLegendre => Algorithm::GaussLegendre(GaussLegendre),
        }
    }

    /// The name of the algorithm.
    pub fn to_text(&self) -> (s: &'static str)
        ensures
            s@ == self.text(),
    {
        match self {
            AlgorithmKind::Chudnovsky => "chudnovsky",
            AlgorithmKind::GaussLegendre => "gauss-legendre",
        }
    }
}

impl PiAlgorithm for Algorithm {
    open spec fn spells(&self, v: int, digits: nat) -> bool {
        match self {
            Algorithm::Chudnovsky(_) => spells_chudnovsky(v, digits),
            Algorithm::GaussLegendre(_) => spells_gauss_legendre(v, digits),
        }
    }

    open spec fn steps(&self, digits: nat) -> Seq<ProgressEvent> {
        match self {
            Algorithm::Chudnovsky(_) => chudnovsky_steps(digits as int),
            Algorithm::GaussLegendre(_) => gauss_legendre_steps(digits as int),
        }
    }

    open spec fn title(&self) -> Seq<char> {
        match self {
            Algorithm::Chudnovsky(_) => "chudnovsky"@,
            Algorithm::GaussLegendre(_) => "gauss-legendre"@,
        }
    }

    fn name(&self) -> (s: &'static str) {
        match self {
            Algorithm::Chudnovsky(a) => a.name(),
            Algorithm::GaussLegendre(a) => a.name(),
        }
    }

    fn compute<S: DigitSink, R: ProgressReporter>(
        &self,
        digits: u64,
        sink: &mut S,
        progress: &mut R,
    ) -> (r: Result<(), ComputeError>) {
        let ghost before = *sink;
        match self {
            Algorithm::Chudnovsky(a) => {
                let r: Result<(), ComputeError> = a.compute(digits, sink, progress);
                proof {
                    if !(r matches Err(ComputeError::Plan(_))) && digits > 0 {
                        let v = choose|v: int| #[trigger]
                            a.spells(v, digits as nat) && answered(
                                before,
                                *sink,
                                digits::digit_events(v, digits as nat),
                                r,
                            );
                        assert(self.spells(v, digits as nat));
                    }
                }
                r
            },
            Algorithm::GaussLegendre(a) => {
                let r: Result<(), ComputeError> = a.compute(digits, sink, progress);
                proof {
                    if !(r matches Err(ComputeError::Plan(_))) && digits > 0 {
                        let v = choose|v: int| #[trigger]
                            a.spells(v, digits as nat) && answered(
                                before,
                                *sink,
                                digits::digit_events(v, digits as nat),
                                r,
                            );
                        assert(self.spells(v, digits as nat));
                    }
                }
                r
            },
        }
    }
}

/// The planned number of terms is eight more than the digits over
/// 14.1816474627255, rounded up.
#[verifier::rlimit(30)]
pub proof fn law_term_count(digits: int)
    requires
        1 <= digits <= 400_000_000_000,
    ensures
        digits * 1_000_000_000_000 <= (term_count(digits) - 8) * 14_181_647_462_726,
        (term_count(digits) - 9) * 14_181_647_462_725 < digits * 1_000_000_000_000,
{
    lemma2_to64();
    lemma2_to64_rest();
    let c = 7_983_557_778_578_775int;
    let s = double::shortfall(digits);
    let x = double::quotient_bits(digits, c);
    let drop = double::double_drop(x);
    let m = double::round_even(x, drop);
    lemma_term_bound(digits);
    double::law_quotient_bits(digits, c);
    let top = digits * pow2(s);
    let n = top * 0x1_0000_0000_0000_0000;
    let q = x / 2;
    assert(q * c <= n < (q + 1) * c);
    assert(x == 2 * q || x == 2 * q + 1);
    assert(2 * n - 2 * c < x * c <= 2 * n + c);
    assert(x >= 0x20_0000_0000_0000);
    double::law_double_drop(x);
    double::law_round_even(x, drop);
    let p = pow2(drop) as int;
    lemma_pow2_pos(drop);
    let t = (16 + s - drop) as nat;
    let u = pow2(t) as int;
    lemma_pow2_pos(t);
    lemma_pow2_adds(drop, t);
    lemma_pow2_adds(16, s);
    let w = p * u;
    assert(w == 65536 * pow2(s));
    let k = digits * w;
    assert(k == 65536 * top) by (nonlinear_arith)
        requires
            k == digits * w,
            w == 65536 * pow2(s),
            top == digits * pow2(s),
    ;
    assert(n == k * 0x1_0000_0000_0000);
    let r = term_count(digits) - 8;
    lemma_fundamental_div_mod(m + (u - 1), u);
    lemma_mod_bound(m + (u - 1), u);
    assert(r == (m + (u - 1)) / u);
    lemma_mul_is_commutative(u, r);
    let ru = r * u;
    assert(m <= ru < m + u);
    // In units of p.
    let mp = m * p;
    assert((x - mp) * 0x20_0000_0000_0000 <= x && (mp - x) * 0x20_0000_0000_0000 <= x);
    let g = r * w;
    let h = (r - 1) * w;
    assert(mp <= g && h < mp) by (nonlinear_arith)
        requires
            mp == m * p,
            g == r * w,
            h == (r - 1) * w,
            w == p * u,
            ru == r * u,
            m <= ru < m + u,
            p > 0,
    ;
    assert(w > 0) by (nonlinear_arith)
        requires
            w == p * u,
            p > 0,
            u > 0,
    ;
    assert(k >= 0x10_0000_0000_0000_0000);
    if digits * 1_000_000_000_000 > r * 14_181_647_462_726 {
        assert(k * 1_000_000_000_000 >= g * 14_181_647_462_726) by (nonlinear_arith)
            requires
                k == digits * w,
                g == r * w,
                w > 0,
                digits * 1_000_000_000_000 > r * 14_181_647_462_726,
        ;
        assert(false);
    }
    if (r - 1) * 14_181_647_462_725 >= digits * 1_000_000_000_000 {
        assert(h * 14_181_647_462_725 >= k * 1_000_000_000_000) by (nonlinear_arith)
            requires
                k == digits * w,
                h == (r - 1) * w,
                w > 0,
                (r - 1) * 14_181_647_462_725 >= digits * 1_000_000_000_000,
        ;
        assert(false);
    }
}

/// What is told of a computation with the series: three phases are announced, with
/// the terms of the plan, four steps and one; the terms tick one by one, the
/// assembly ticks three times.
pub proof fn law_chudnovsky_steps(digits: int)
    requires
        1 <= digits <= 400_000_000_000,
    ensures
        ({
            let n = term_count(digits);
            let steps = chudnovsky_steps(digits);
            &&& steps.len() == n + 8
            &&& steps[0] == ProgressEvent::Phases(
                seq![
                    ("binary splitting"@, n as u64),
                    ("final assembly"@, 4u64),
                    ("decimal conversion"@, 1u64),
                ],
            )
            &&& steps[1] == ProgressEvent::Start("binary splitting"@, n as u64)
            &&& forall|i: int| 2 <= i < n + 2 ==> #[trigger] steps[i] is Tick
            &&& steps[n + 2] is End
            &&& steps[n + 3] == ProgressEvent::Start("final assembly"@, 3)
            &&& forall|i: int| n + 4 <= i < n + 7 ==> #[trigger] steps[i] is Tick
            &&& steps[n + 7] is End
        }),
{
    law_term_count(digits);
    let n = term_count(digits);
    progress::law_phase("binary splitting"@, n as u64, n as nat);
    progress::law_phase("final assembly"@, 3, 3);
    let a = progress::phase("binary splitting"@, n as u64, n as nat);
    let b = progress::phase("final assembly"@, 3, 3);
    let steps = chudnovsky_steps(digits);
    assert forall|i: int| 2 <= i < n + 2 implies #[trigger] steps[i] is Tick by {
        assert(steps[i] == a[i - 1]);
    }
    assert forall|i: int| n + 4 <= i < n + 7 implies #[trigger] steps[i] is Tick by {
        assert(steps[i] == b[i - n - 3]);
    }
}

/// What is told of a computation with the iteration: four phases are announced,
/// and each iteration ticks once.
pub proof fn law_gauss_legendre_steps(digits: int)
    requires
        1 <= digits,
        precision::precision_for(digits) <= 0x100_0000_0000,
    ensures
        ({
            let n = gauss_legendre::iteration_count(precision::precision_for(digits));
            let steps = gauss_legendre_steps(digits);
            &&& steps.len() == n + 9
            &&& steps[0] == ProgressEvent::Phases(
                seq![
                    ("initialization"@, 1u64),
                    ("agm iterations"@, n as u64),
                    ("final assembly"@, 1u64),
                    ("decimal conversion"@, 1u64),
                ],
            )
            &&& steps[1] == ProgressEvent::Start("initialization"@, 1)
            &&& steps[2] is Tick
            &&& steps[3] is End
            &&& steps[4] == ProgressEvent::Start("agm iterations"@, n as u64)
            &&& forall|i: int| 5 <= i < n + 5 ==> #[trigger] steps[i] is Tick
            &&& steps[n as int + 5] is End
            &&& steps[n as int + 6] == ProgressEvent::Start("final assembly"@, 1)
            &&& steps[n as int + 7] is Tick
            &&& steps[n as int + 8] is End
        }),
{
    let prec = precision::precision_for(digits);
    precision::lemma_precision_upper(digits as nat);
    let n = gauss_legendre::iteration_count(prec);
    lemma2_to64();
    lemma2_to64_rest();
    bitlen::lemma_bit_len_at_most(prec - 1, 40);
    assert(n as u32 == n);
    let a = progress::phase("initialization"@, 1, 1);
    let b = progress::phase("agm iterations"@, n as u64, n);
    let c = progress::phase("final assembly"@, 1, 1);
    progress::law_phase("initialization"@, 1, 1);
    progress::law_phase("agm iterations"@, n as u64, n);
    progress::law_phase("final assembly"@, 1, 1);
    let steps = gauss_legendre_steps(digits);
    assert forall|i: int| 5 <= i < n + 5 implies #[trigger] steps[i] is Tick by {
        assert(steps[i] == b[i - 4]);
    }
    assert(steps[2] == a[1]);
    assert(steps[n as int + 7] == c[1]);
}

/// The conversion follows the work: its start, eight named points in order, and,
/// unless the sink took no more, one tick and the end.
pub proof fn law_all_steps(work: Seq<ProgressEvent>)
    ensures
        ({
            let n = work.len() as int;
            let all = all_steps(work, true);
            &&& all.len() == n + 11
            &&& all.take(n) == work
            &&& all[n] == ProgressEvent::Start("decimal conversion"@, 1)
            &&& all[n + 1] == ProgressEvent::Milestone("dc.scale_build.start"@)
            &&& all[n + 2] == ProgressEvent::Milestone("dc.scale_build.end"@)
            &&& all[n + 3] == ProgressEvent::Milestone("dc.scale_mul.start"@)
            &&& all[n + 4] == ProgressEvent::Milestone("dc.scale_mul.end"@)
            &&& all[n + 5] == ProgressEvent::Milestone("dc.to_integer.start"@)
            &&& all[n + 6] == ProgressEvent::Milestone("dc.to_integer.end"@)
            &&& all[n + 7] == ProgressEvent::Milestone("dc.to_string.start"@)
            &&& all[n + 8] == ProgressEvent::Milestone("dc.to_string.end"@)
            &&& all[n + 9] is Tick
            &&& all[n + 10] is End
            &&& all_steps(work, false) == all.take(n + 9)
        }),
{
    let n = work.len() as int;
    let all = all_steps(work, true);
    assert(all.take(n) =~= work);
    assert(all_steps(work, false) =~= all.take(n + 9));
}

/// The number `v` that the series spells, in whole numbers: with `Q` and `T` of the
/// splitting over the planned terms, `v` is `10^(digits - 1)` times
/// `426880 * sqrt(10005) * Q / (13591409 * Q + T)`, rounded down, where a value
/// within `2^-190` of an integer may be rounded either way.
pub proof fn law_spells_chudnovsky(v: int, digits: nat)
    requires
        spells_chudnovsky(v, digits),
    ensures
        v >= 1,
        ({
            let n = term_count(digits as int);
            let q = chudnovsky::split_q(1, n + 1);
            let t = chudnovsky::split_t(1, n + 1);
            let d = 13_591_409 * q + t;
            let g = pow2(190) as int;
            let scale = pow(10, (digits - 1) as nat) * g;
            let square = (scale * scale) * ((426_880 * 426_880 * 10_005) * (q * q));
            let low = (v * g - 1) * d;
            let high = ((v + 1) * g + 1) * d;
            low * low <= square <= high * high
        }),
{
}

/// The number `v` that the iteration spells: some value `x` that the iteration
/// gives at the planned precision, times `10^(digits - 1)`, rounded down, but for a
/// relative error of `2 * (digits + 1)` units in the last place of `x`.
pub proof fn law_spells_gauss_legendre(v: int, digits: nat) -> (x: real)
    requires
        spells_gauss_legendre(v, digits),
    ensures
        ({
            let prec = precision::precision_for(digits as int);
            let e = ((2 * (digits + 1)) as real) * reals::rpow2(-prec);
            let y = x * (pow(10, (digits - 1) as nat) as real);
            &&& gauss_legendre::is_gauss_legendre(x, prec)
            &&& (v as real) <= y * (1real + e)
            &&& y * (1real - e) < (v as real) + 1real
        }),
{
    let prec = precision::precision_for(digits as int);
    choose|x: real| #[trigger]
        gauss_legendre::is_gauss_legendre(x, prec) && digits::is_scaled_floor(
            v,
            x,
            digits,
            digits::scaling_error(digits, prec),
        )
}

/// What a sink answers is passed on: a computation that ends well has handed over
/// everything, and one that the sink stopped gives the sink's own reason.
pub proof fn law_answered<S: DigitSink>(
    before: S,
    after: S,
    events: Seq<SinkEvent>,
    r: Result<(), ComputeError>,
)
    requires
        before.records(),
        answered(before, after, events, r),
    ensures
        r is Ok ==> after.taken() == before.taken() + events && after.refusals() == before.refusals(),
        r is Err ==> r->Err_0 is Sink && after.taken().len() < before.taken().len() + events.len()
            && after.taken().is_prefix_of(before.taken() + events) && after.refusals().last()
            == r->Err_0->Sink_0.message@,
{
    match r {
        Ok(()) => {},
        Err(ComputeError::Sink(e)) => {
            output::law_handed_over(before, after, events, Err(e));
        },
        Err(ComputeError::Plan(_)) => {},
    }
}

/// The two algorithms go by their names.
pub proof fn law_algorithm_names()
    ensures
        AlgorithmKind::Chudnovsky.text() == "chudnovsky"@,
        AlgorithmKind::GaussLegendre.text() == "gauss-legendre"@,
        Chudnovsky.title() == "chudnovsky"@,
        GaussLegendre.title() == "gauss-legendre"@,
{
}

} // verus!
