//! Tables of powers of roots of unity, and a cache for them.
use crate::field;
use crate::field::{P, inv, primitive_root_of_unity};
use crate::fourier;
use std::sync::Arc;
use vstd::arithmetic::div_mod::*;
use vstd::arithmetic::mul::*;
use vstd::arithmetic::power2::*;
use vstd::arithmetic::power::*;
use vstd::prelude::*;

verus! {

/// Counts from here on are built in two halves at a time, in parallel.
pub const PARALLEL_TWIDDLE_THRESHOLD: usize = 8192;

/// Parallel pieces are at least this long.
pub const MIN_TWIDDLE_CHUNK: usize = 4096;

/// Tables longer than this are built anew on every request.
pub const MAX_CACHED_TWIDDLE_COUNT: usize = 0x1000_0000;

/// `t` holds `start * omega^0, start * omega^1, ...` (`count` entries).
pub open spec fn is_progression(t: Seq<u64>, start: int, omega: int, count: nat) -> bool {
    &&& t.len() == count
    &&& forall|j: int|
        0 <= j < count ==> #[trigger] t[j] as int == field::residue(start * pow(omega, j as nat))
}

/// `t` holds the first `count` powers of `omega`.
pub open spec fn is_powers(t: Seq<u64>, omega: int, count: nat) -> bool {
    is_progression(t, 1, omega, count)
}

/// The progression from `start`, one multiplication after the other.
fn progression_serial(start: u64, omega: u64, count: usize) -> (t: Vec<u64>)
    requires
        start < P,
    ensures
        is_progression(t@, start as int, omega as int, count as nat),
{
    let mut out: Vec<u64> = Vec::with_capacity(count);
    let mut w: u64 = start;
    proof {
        lemma_pow0(omega as int);
        lemma_small_mod(start as nat, P as nat);
        assert(start * 1 == start);
    }
    while out.len() < count
        invariant
            out.len() <= count,
            w as int == field::residue(start * pow(omega as int, out@.len())),
            is_progression(out@, start as int, omega as int, out@.len()),
        decreases count - out.len(),
    {
        proof {
            let x = start * pow(omega as int, out@.len());
            lemma_mod_twice(x, P as int);
            field::lemma_product_residue(w as int, x, omega as int, omega as int);
            lemma_pow_adds(omega as int, out@.len(), 1);
            lemma_pow1(omega as int);
            lemma_mul_is_associative(
                start as int,
                pow(omega as int, out@.len()),
                omega as int,
            );
        }
        out.push(w);
        w = crate::field::mul(w, omega);
    }
    out
}

/// The first `count` powers of `omega`, one multiplication after the other.
pub fn build_twiddles_serial(omega: u64, count: usize) -> (t: Vec<u64>)
    ensures
        is_powers(t@, omega as int, count as nat),
{
    progression_serial(1, omega, count)
}

/// The progression from `start`, large counts in two halves that run in
/// parallel: the second half starts at `start * omega^half`.
fn progression_parallel(start: u64, omega: u64, count: usize) -> (t: Vec<u64>)
    requires
        start < P,
    ensures
        is_progression(t@, start as int, omega as int, count as nat),
    decreases count,
{
    if count < 2 * MIN_TWIDDLE_CHUNK {
        return progression_serial(start, omega, count);
    }
    let half: usize = count / 2;
    let step: u64 = crate::field::pow(omega, half as u64);
    let mid: u64 = crate::field::mul(start, step);
    let low_task = || -> (r: Vec<u64>)
        ensures is_progression(r@, start as int, omega as int, half as nat)
    { progression_parallel(start, omega, half) };
    let high_task = || -> (r: Vec<u64>)
        ensures is_progression(r@, mid as int, omega as int, (count - half) as nat)
    { progression_parallel(mid, omega, count - half) };
    let (mut low, mut high) = rayon::join(low_task, high_task);
    let ghost l = low@;
    let ghost h = high@;
    low.append(&mut high);
    proof {
        let o = omega as int;
        let s = start as int;
        let hn = half as nat;
        lemma_mod_twice(pow(o, hn), P as int);
        field::lemma_product_residue(s, s, step as int, pow(o, hn));
        lemma_mod_twice(s * pow(o, hn), P as int);
        assert forall|j: int| 0 <= j < count implies #[trigger] low@[j] as int == field::residue(
            s * pow(o, j as nat),
        ) by {
            if j < half {
                assert(low@[j] == l[j]);
            } else {
                let i = (j - half) as nat;
                assert(low@[j] == h[i as int]);
                field::lemma_product_residue(mid as int, s * pow(o, hn), pow(o, i), pow(o, i));
                lemma_pow_adds(o, hn, i);
                lemma_mul_is_associative(s, pow(o, hn), pow(o, i));
            }
        }
    }
    low
}

/// The first `count` powers of `omega`, built in parallel pieces.
pub fn build_twiddles_parallel(omega: u64, count: usize) -> (t: Vec<u64>)
    ensures
        is_powers(t@, omega as int, count as nat),
{
    progression_parallel(1, omega, count)
}

/// The first `count` powers of `omega`.
pub fn build_twiddles(omega: u64, count: usize) -> (t: Vec<u64>)
    ensures
        is_powers(t@, omega as int, count as nat),
{
    if count == 0 {
        return Vec::new();
    }
    if count < PARALLEL_TWIDDLE_THRESHOLD {
        return build_twiddles_serial(omega, count);
    }
    build_twiddles_parallel(omega, count)
}

/// The root whose powers a pass over blocks of `2 * count` entries uses.
pub open spec fn pass_root(count: nat, inverse: bool) -> int {
    let len: nat = if count == 0 {
        2
    } else {
        2 * count
    };
    let base = field::residue(pow(field::GENERATOR as int, ((P - 1) / len as int) as nat));
    if inverse {
        field::residue(pow(base, (P - 2) as nat))
    } else {
        base
    }
}

/// The root of order `2^32` that forward transforms use.
pub open spec fn forward_root() -> int {
    pow(7, 0xFFFF_FFFF)
}

/// Its inverse, which inverse transforms use.
pub open spec fn inverse_root() -> int {
    pow(forward_root(), (P - 2) as nat)
}

/// The root for one direction.
pub open spec fn direction(inverse: bool) -> int {
    if inverse {
        inverse_root()
    } else {
        forward_root()
    }
}

/// Odd powers of minus one.
proof fn lemma_minus_one_odd(x: int, e: nat)
    requires
        field::residue(x) == P - 1,
    ensures
        field::residue(pow(x, 2 * e + 1)) == P - 1,
{
    lemma_pow_adds(x, 2 * e, 1);
    lemma_pow1(x);
    lemma_pow_multiplies(x, 2, e);
    lemma_pow_adds(x, 1, 1);
    fourier::lemma_minus_one_square(x);
    lemma_small_mod(1, P as nat);
    field::lemma_pow_residue(x * x, 1, e);
    lemma1_pow(e);
    fourier::lemma_times_one(x, pow(x, 2 * e));
    lemma_mul_is_commutative(x, pow(x, 2 * e));
}

/// Both directions use roots of order `2^32`, inverse to each other.
pub proof fn lemma_roots()
    ensures
        fourier::is_root(forward_root()),
        fourier::is_root(inverse_root()),
        field::residue(forward_root() * inverse_root()) == 1,
        field::residue(inverse_root() * forward_root()) == 1,
{
    let f = forward_root();
    lemma2_to64();
    field::lemma_generator_half();
    lemma_pow_multiplies(7, 0xFFFF_FFFF, pow2(31));
    assert(fourier::is_root(f));
    let x = pow(f, pow2(31));
    lemma_pow_multiplies(f, (P - 2) as nat, pow2(31));
    lemma_pow_multiplies(f, pow2(31), (P - 2) as nat);
    lemma_minus_one_odd(x, 0x7FFF_FFFF_7FFF_FFFF);
    assert(pow(inverse_root(), pow2(31)) == pow(x, (P - 2) as nat));
    // f * f^(P - 2) is (f^(2^32))^(2^32 - 1).
    lemma_pow_adds(f, 1, (P - 2) as nat);
    lemma_pow1(f);
    lemma_pow_adds(f, pow2(31), pow2(31));
    fourier::lemma_minus_one_square(x);
    lemma_pow_multiplies(f, 0x1_0000_0000, 0xFFFF_FFFF);
    lemma_small_mod(1, P as nat);
    field::lemma_pow_residue(pow(f, 0x1_0000_0000), 1, 0xFFFF_FFFF);
    lemma1_pow(0xFFFF_FFFF);
    lemma_mul_is_commutative(f, inverse_root());
}

/// The root of a pass over blocks of `2^(m + 1)` entries.
pub proof fn lemma_pass_root(m: nat, inverse: bool)
    requires
        m < 32,
    ensures
        pass_root(pow2(m), inverse) == field::residue(fourier::root(direction(inverse), m + 1)),
{
    let count = pow2(m);
    let len = pow2(m + 1);
    lemma_pow2_unfold(m + 1);
    lemma_pow2_pos(m);
    lemma_pow2_adds((31 - m) as nat, m + 1);
    lemma2_to64();
    let rest = pow2((31 - m) as nat);
    let p = P as int;
    // (P - 1) / len == (2^32 - 1) * rest.
    assert(P - 1 == (0xFFFF_FFFF * rest) * len) by (nonlinear_arith)
        requires
            P - 1 == 0xFFFF_FFFF * 0x1_0000_0000,
            rest * len == 0x1_0000_0000,
    ;
    lemma_fundamental_div_mod_converse(P - 1, len as int, 0xFFFF_FFFF * (rest as int), 0);
    lemma_pow_multiplies(7, 0xFFFF_FFFF, rest);
    let r = fourier::root(forward_root(), m + 1);
    let base = field::residue(r);
    assert(base == pass_root(count, false));
    lemma_mod_twice(r, p);
    field::lemma_pow_residue(base, r, (P - 2) as nat);
    lemma_pow_multiplies(forward_root(), rest, (P - 2) as nat);
    lemma_pow_multiplies(forward_root(), (P - 2) as nat, rest);
    lemma_mul_is_commutative(rest as int, P - 2);
    assert(field::residue(pow(base, (P - 2) as nat)) == field::residue(fourier::root(inverse_root(), m + 1)));
}

/// The tables of transform passes: the powers of `pass_root` are those of the
/// root of order `2 * count`.
pub proof fn lemma_pass_table(t: Seq<u64>, m: nat, inverse: bool)
    requires
        m < 32,
        is_powers(t, pass_root(pow2(m), inverse), pow2(m)),
    ensures
        fourier::is_table(t, direction(inverse), m + 1, pow2(m)),
{
    let count = pow2(m);
    let w = direction(inverse);
    let omega = pass_root(count, inverse);
    lemma_pass_root(m, inverse);
    lemma_mod_twice(fourier::root(w, m + 1), P as int);
    assert forall|j: int| 0 <= j < count implies #[trigger] t[j] as int == field::residue(
        fourier::twiddle(w, m + 1, j as nat),
    ) by {
        field::lemma_pow_residue(omega, fourier::root(w, m + 1), j as nat);
        assert(1 * pow(omega, j as nat) == pow(omega, j as nat));
    }
}

/// A table in the cache, with its key.
pub struct TwiddleEntry {
    pub count: usize,
    pub inverse: bool,
    pub table: Arc<Vec<u64>>,
}

/// `Arc::clone` makes a second handle to the same value.
#[verifier::external_body]
fn share(table: &Arc<Vec<u64>>) -> (r: Arc<Vec<u64>>)
    ensures
        r == *table,
{
    Arc::clone(table)
}

/// Tables by count and direction, each built once.
pub struct TwiddleCache {
    pub entries: Vec<TwiddleEntry>,
}

impl TwiddleCache {
    /// The keys present, oldest first.
    pub open spec fn keys(&self) -> Seq<(usize, bool)> {
        Seq::new(self.entries@.len(), |i: int| (self.entries@[i].count, self.entries@[i].inverse))
    }

    /// Every entry holds the table of its key, no key occurs twice, and no
    /// table is over the limit.
    pub open spec fn wf(&self) -> bool {
        &&& forall|i: int|
            0 <= i < self.entries@.len() ==> is_powers(
                #[trigger] self.entries@[i].table@,
                pass_root(self.entries@[i].count as nat, self.entries@[i].inverse),
                self.entries@[i].count as nat,
            )
        &&& forall|i: int|
            0 <= i < self.entries@.len() ==> #[trigger] self.entries@[i].count
                <= MAX_CACHED_TWIDDLE_COUNT
        &&& self.keys().no_duplicates()
    }

    /// An empty cache.
    pub fn new() -> (c: TwiddleCache)
        ensures
            c.wf(),
            c.keys() == Seq::<(usize, bool)>::empty(),
    {
        let c = TwiddleCache { entries: Vec::new() };
        proof {
            assert(c.keys() =~= Seq::<(usize, bool)>::empty());
        }
        c
    }

    /// The position of a key, or the number of entries.
    fn find(&self, count: usize, inverse: bool) -> (i: usize)
        ensures
            i <= self.entries@.len(),
            i < self.entries@.len() ==> self.keys()[i as int] == (count, inverse),
            i == self.entries@.len() ==> !self.keys().contains((count, inverse)),
    {
        let mut i: usize = 0;
        while i < self.entries.len()
            invariant
                i <= self.entries@.len(),
                forall|k: int| 0 <= k < i ==> #[trigger] self.keys()[k] != (count, inverse),
            decreases self.entries@.len() - i,
        {
            if self.entries[i].count == count && self.entries[i].inverse == inverse {
                return i;
            }
            i += 1;
        }
        i
    }

    /// The powers of `pass_root(count, inverse)`.  A table is built on the
    /// first request and handed out again on later ones, unless it is over the
    /// limit.
    pub fn get(&mut self, count: usize, inverse: bool) -> (t: Arc<Vec<u64>>)
        requires
            old(self).wf(),
            2 * count <= usize::MAX,
        ensures
            final(self).wf(),
            is_powers(t@, pass_root(count as nat, inverse), count as nat),
            final(self).keys() == if old(self).keys().contains((count, inverse)) || count
                > MAX_CACHED_TWIDDLE_COUNT {
                old(self).keys()
            } else {
                old(self).keys().push((count, inverse))
            },
            forall|i: int|
                0 <= i < old(self).entries@.len() ==> #[trigger] final(self).entries@[i]
                    == old(self).entries@[i],
            forall|i: int|
                0 <= i < final(self).entries@.len() && #[trigger] final(self).keys()[i] == (
                    count,
                    inverse,
                ) ==> t == final(self).entries@[i].table,
    {
        let at: usize = self.find(count, inverse);
        if at < self.entries.len() {
            proof {
                assert(self.keys()[at as int] == (count, inverse));
                assert(self.keys().contains((count, inverse)));
                assert(is_powers(
                    self.entries@[at as int].table@,
                    pass_root(self.entries@[at as int].count as nat, inverse),
                    self.entries@[at as int].count as nat,
                ));
            }
            return share(&self.entries[at].table);
        }
        let len: usize = if count == 0 {
            2
        } else {
            count * 2
        };
        let omega_base: u64 = primitive_root_of_unity(len as u64);
        let omega: u64 = if inverse {
            inv(omega_base)
        } else {
            omega_base
        };
        let built: Arc<Vec<u64>> = Arc::new(build_twiddles(omega, count));
        if count <= MAX_CACHED_TWIDDLE_COUNT {
            let ghost before = *self;
            self.entries.push(TwiddleEntry { count, inverse, table: share(&built) });
            proof {
                assert(self.keys() =~= before.keys().push((count, inverse)));
                assert forall|i: int| 0 <= i < self.entries@.len() implies is_powers(
                    #[trigger] self.entries@[i].table@,
                    pass_root(self.entries@[i].count as nat, self.entries@[i].inverse),
                    self.entries@[i].count as nat,
                ) by {
                    if i < before.entries@.len() {
                        assert(self.entries@[i] == before.entries@[i]);
                        assert(is_powers(
                            before.entries@[i].table@,
                            pass_root(
                                before.entries@[i].count as nat,
                                before.entries@[i].inverse,
                            ),
                            before.entries@[i].count as nat,
                        ));
                    }
                }
                assert forall|i: int| 0 <= i < self.entries@.len()
                    && #[trigger] self.keys()[i] == (count, inverse) implies built
                    == self.entries@[i].table by {
                    if i < before.entries@.len() {
                        assert(before.keys()[i] == (count, inverse));
                    }
                }
            }
        }
        built
    }

    /// The number of tables held.
    pub fn entry_count(&self) -> (n: usize)
        ensures
            n == self.keys().len(),
    {
        self.entries.len()
    }

    /// Drop every table.
    pub fn clear(&mut self)
        ensures
            final(self).wf(),
            final(self).keys() == Seq::<(usize, bool)>::empty(),
    {
        self.entries = Vec::new();
        proof {
            assert(self.keys() =~= Seq::<(usize, bool)>::empty());
        }
    }
}

/// The roots of unity: seven to the power `2^32 - 1`, and its inverse; the root of a
/// pass over `2 * count` elements is the generator to the power that leaves it that
/// order.
pub proof fn law_roots(count: nat)
    requires
        count > 0,
    ensures
        direction(false) == pow(7, 4_294_967_295),
        direction(true) == pow(pow(7, 4_294_967_295), 18_446_744_069_414_584_319),
        pass_root(count, false) == pow(
            7,
            (18_446_744_069_414_584_320int / (2 * count) as int) as nat,
        ) % 18_446_744_069_414_584_321,
        pass_root(count, true) == pow(pass_root(count, false), 18_446_744_069_414_584_319)
            % 18_446_744_069_414_584_321,
{
}

/// A table of powers holds the remainders of the powers of its root, from the first
/// on; tables of up to 268435456 entries are kept.
pub proof fn law_power_table(t: Seq<u64>, omega: int, count: nat, j: int)
    requires
        is_powers(t, omega, count),
        0 <= j < count,
    ensures
        t.len() == count,
        t[j] == pow(omega, j as nat) % 18_446_744_069_414_584_321,
        MAX_CACHED_TWIDDLE_COUNT == 268_435_456,
{
    lemma_mul_basics(pow(omega, j as nat));
}

} // verus!
