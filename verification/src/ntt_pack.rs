//! Limbs as coefficients of sixteen bits, and back with carries.
use crate::fourier;
use crate::limbs;
use crate::limbs::{high_limb, low_limb, strip};
use crate::numerals;
use vstd::arithmetic::div_mod::*;
use vstd::arithmetic::mul::*;
use vstd::arithmetic::power2::*;
use vstd::arithmetic::power::*;
use vstd::prelude::*;

verus! {

/// Coefficients that one limb gives.
pub const COEFFS_PER_LIMB: usize = 4;

/// Coefficient counts from here on are unpacked in parallel.
pub const PARALLEL_UNPACK_THRESHOLD: usize = 0x10_0000;

/// Coefficients per parallel piece, a multiple of four.
const UNPACK_CHUNK: usize = 0x4_0000;

/// `2^16`, the place value of neighbouring coefficients.
pub open spec fn coeff_base() -> int {
    0x1_0000
}

/// Four places of sixteen bits make one limb.
pub proof fn lemma_places(i: nat)
    ensures
        pow(coeff_base(), 4 * i) == limbs::weight(i),
{
    lemma_pow_multiplies(coeff_base(), 4, i);
    lemma_small_places();
}

/// The first powers of `2^16`.
proof fn lemma_small_places()
    ensures
        pow(coeff_base(), 1) == 0x1_0000,
        pow(coeff_base(), 2) == 0x1_0000_0000,
        pow(coeff_base(), 3) == 0x1_0000_0000_0000,
        pow(coeff_base(), 4) == 0x1_0000_0000_0000_0000,
{
    lemma_pow1(coeff_base());
    numerals::lemma_pow_product(coeff_base(), 1, 1, 0x1_0000, 0x1_0000);
    numerals::lemma_pow_product(coeff_base(), 1, 2, 0x1_0000, 0x1_0000_0000);
    numerals::lemma_pow_product(coeff_base(), 2, 2, 0x1_0000_0000, 0x1_0000_0000);
}

/// Four coefficients as one number; those outside the range count as zero.
pub open spec fn block(c: Seq<u64>, i: int) -> int {
    fourier::coeff(c, i) + fourier::coeff(c, i + 1) * 0x1_0000 + fourier::coeff(c, i + 2) * 0x1_0000_0000 + fourier::coeff(c, i + 3)
        * 0x1_0000_0000_0000
}

/// The first `i` blocks, or all coefficients where there are fewer.
pub open spec fn blocks_end(len: nat, i: nat) -> int {
    if 4 * i <= len {
        4 * i as int
    } else {
        len as int
    }
}

/// One more block.
proof fn lemma_block(c: Seq<u64>, i: nat)
    requires
        4 * i < c.len(),
    ensures
        limbs::digits_value(c.take(blocks_end(c.len(), i + 1)), coeff_base()) == limbs::digits_value(
            c.take(4 * i as int),
            coeff_base(),
        ) + block(c, 4 * i as int) * limbs::weight(i),
{
    let b = coeff_base();
    let k = 4 * i as int;
    let w = limbs::weight(i);
    lemma_places(i);
    lemma_pow_adds(b, 4 * i, 1);
    lemma_pow_adds(b, 4 * i, 2);
    lemma_pow_adds(b, 4 * i, 3);
    lemma_small_places();
    let (c0, c1, c2, c3) = (fourier::coeff(c, k), fourier::coeff(c, k + 1), fourier::coeff(c, k + 2), fourier::coeff(c, k + 3));
    limbs::lemma_value_take_next(c, k, b);
    if k + 1 < c.len() {
        limbs::lemma_value_take_next(c, k + 1, b);
    }
    if k + 2 < c.len() {
        limbs::lemma_value_take_next(c, k + 2, b);
    }
    if k + 3 < c.len() {
        limbs::lemma_value_take_next(c, k + 3, b);
    }
    assert(c0 * w + c1 * (w * 0x1_0000) + c2 * (w * 0x1_0000_0000) + c3 * (w * 0x1_0000_0000_0000)
        == (c0 + c1 * 0x1_0000 + c2 * 0x1_0000_0000 + c3 * 0x1_0000_0000_0000) * w)
        by (nonlinear_arith);
    assert(0 * (w * 0x1_0000) == 0 && 0 * (w * 0x1_0000_0000) == 0 && 0 * (w
        * 0x1_0000_0000_0000) == 0);
}

/// Write the limbs as coefficients, sixteen bits each, and zero the rest.
pub fn pack(limbs: &[u64], coeffs: &mut Vec<u64>)
    requires
        4 * limbs@.len() <= old(coeffs)@.len(),
    ensures
        final(coeffs)@.len() == old(coeffs)@.len(),
        forall|i: int| 0 <= i < final(coeffs)@.len() ==> #[trigger] final(coeffs)@[i] <= 0xFFFF,
        forall|i: int|
            4 * limbs@.len() <= i < final(coeffs)@.len() ==> #[trigger] final(coeffs)@[i] == 0,
        forall|i: int|
            0 <= i < limbs@.len() ==> #[trigger] limbs@[i] as int == block(final(coeffs)@, 4 * i),
        limbs::digits_value(final(coeffs)@, coeff_base()) == limbs::value(limbs@),
{
    let n: usize = limbs.len();
    let total: usize = coeffs.len();
    let mut i: usize = 0;
    while i < n
        invariant
            n == limbs@.len(),
            total == coeffs@.len(),
            4 * n <= total,
            i <= n,
            forall|k: int| 0 <= k < 4 * i ==> #[trigger] coeffs@[k] <= 0xFFFF,
            forall|k: int| 0 <= k < i ==> #[trigger] limbs@[k] as int == block(coeffs@, 4 * k),
        decreases n - i,
    {
        let x: u64 = limbs[i];
        let k: usize = 4 * i;
        let ghost before = coeffs@;
        coeffs.set(k, x % 0x1_0000);
        coeffs.set(k + 1, (x / 0x1_0000) % 0x1_0000);
        coeffs.set(k + 2, (x / 0x1_0000_0000) % 0x1_0000);
        coeffs.set(k + 3, x / 0x1_0000_0000_0000);
        proof {
            assert forall|j: int| 0 <= j < i + 1 implies #[trigger] limbs@[j] as int == block(
                coeffs@,
                4 * j,
            ) by {
                if j < i {
                    assert(limbs@[j] as int == block(before, 4 * j));
                } else {
                    assert(x / 0x1_0000_0000 == (x / 0x1_0000) / 0x1_0000);
                    assert(x / 0x1_0000_0000_0000 == (x / 0x1_0000_0000) / 0x1_0000);
                }
            }
        }
        i += 1;
    }
    let mut k: usize = 4 * n;
    while k < total
        invariant
            n == limbs@.len(),
            total == coeffs@.len(),
            4 * n <= k <= total,
            forall|j: int| 0 <= j < k ==> #[trigger] coeffs@[j] <= 0xFFFF,
            forall|j: int| 4 * n <= j < k ==> #[trigger] coeffs@[j] == 0,
            forall|j: int| 0 <= j < n ==> #[trigger] limbs@[j] as int == block(coeffs@, 4 * j),
        decreases total - k,
    {
        let ghost before = coeffs@;
        coeffs.set(k, 0);
        proof {
            assert forall|j: int| 0 <= j < n implies #[trigger] limbs@[j] as int == block(
                coeffs@,
                4 * j,
            ) by {
                assert(limbs@[j] as int == block(before, 4 * j));
            }
        }
        k += 1;
    }
    proof {
        lemma_packed_value(limbs@, coeffs@, n as nat);
        assert(limbs@.take(n as int) =~= limbs@);
        limbs::lemma_value_split(coeffs@, 4 * n, coeff_base());
        limbs::lemma_value_zeros(coeffs@.skip(4 * n), coeff_base());
        assert(pow(coeff_base(), (4 * n) as nat) * 0 == 0);
    }
}

proof fn lemma_packed_value(s: Seq<u64>, c: Seq<u64>, n: nat)
    requires
        n <= s.len(),
        4 * s.len() <= c.len(),
        forall|i: int| 0 <= i < s.len() ==> #[trigger] s[i] as int == block(c, 4 * i),
    ensures
        limbs::digits_value(c.take(4 * n as int), coeff_base()) == limbs::value(s.take(n as int)),
    decreases n,
{
    if n == 0 {
        assert(c.take(0).len() == 0);
        assert(s.take(0).len() == 0);
    } else {
        let i = (n - 1) as nat;
        lemma_packed_value(s, c, i);
        lemma_block(c, i);
        limbs::lemma_value_take_next(s, i as int, limbs::base());
        assert(s[i as int] as int == block(c, 4 * i as int));
    }
}

/// The block of coefficients from `i` on.
fn block_sum(c: &[u64], i: usize) -> (s: u128)
    requires
        i < c@.len(),
    ensures
        s as int == block(c@, i as int),
        s < 0x1_0001_0001_0001_0000_0000_0000_0000,
{
    let n: usize = c.len();
    let mut s: u128 = c[i] as u128;
    if n - i > 1 {
        s = s + c[i + 1] as u128 * 0x1_0000;
    }
    if n - i > 2 {
        s = s + c[i + 2] as u128 * 0x1_0000_0000;
    }
    if n - i > 3 {
        s = s + c[i + 3] as u128 * 0x1_0000_0000_0000;
    }
    s
}

/// The coefficients as limbs with a carry out: limb by limb, each block and
/// the carry below it, split into a limb and the next carry.
fn unpack_process_chunk(chunk: &[u64]) -> (r: (Vec<u64>, u128))
    requires
        chunk@.len() + 4 <= usize::MAX,
    ensures
        is_unpacked(chunk@, r.0@, r.1 as int),
{
    let n: usize = chunk.len();
    let mut limbs: Vec<u64> = Vec::with_capacity((n + 3) / 4);
    let mut carry: u128 = 0;
    let mut i: usize = 0;
    proof {
        assert(chunk@.take(0).len() == 0);
        assert(0 * limbs::weight(0) == 0);
    }
    while i < n
        invariant
            n == chunk@.len(),
            n + 4 <= usize::MAX,
            i == 4 * limbs@.len(),
            i < n + 4,
            carry < 0x2_0000_0000_0000,
            limbs::value(limbs@) + carry * limbs::weight(limbs@.len()) == limbs::digits_value(
                chunk@.take(blocks_end(n as nat, limbs@.len())),
                coeff_base(),
            ),
        decreases n + 4 - i,
    {
        let total: u128 = carry + block_sum(chunk, i);
        let low: u64 = low_limb(total);
        let high: u64 = high_limb(total);
        proof {
            let k = limbs@.len();
            lemma_block(chunk@, k);
            limbs::lemma_value_push(limbs@, low, limbs::base());
            limbs::lemma_weight_step(k);
            let w = limbs::weight(k);
            let c = carry as int;
            let b = block(chunk@, i as int);
            assert(low * w + high * (limbs::base() * w) == c * w + b * w) by (nonlinear_arith)
                requires
                    high * limbs::base() + low == c + b,
            ;
        }
        limbs.push(low);
        carry = high as u128;
        i += 4;
    }
    proof {
        assert(chunk@.take(n as int) =~= chunk@);
    }
    (limbs, carry)
}

/// The limbs and the carry above them hold the value of the coefficients, one
/// limb for each block.
pub open spec fn is_unpacked(c: Seq<u64>, limbs: Seq<u64>, carry: int) -> bool {
    &&& limbs.len() == (c.len() + 3) / 4
    &&& 0 <= carry < 0x2_0000_0000_0000
    &&& limbs::value(limbs) + carry * limbs::weight(limbs.len()) == limbs::digits_value(c, coeff_base())
}

/// Append what is left of a carry, then drop zero limbs at the top.
fn finish_limbs(limbs: Vec<u64>, carry: u128) -> (r: Vec<u64>)
    ensures
        limbs::normalized(r@),
        limbs::value(r@) == limbs::value(limbs@) + carry * limbs::weight(limbs@.len()),
{
    let mut result: Vec<u64> = limbs;
    let mut c: u128 = carry;
    while c != 0
        invariant
            limbs::value(result@) + c * limbs::weight(result@.len()) == limbs::value(limbs@) + carry * limbs::weight(
                limbs@.len(),
            ),
        decreases c,
    {
        let low: u64 = low_limb(c);
        let high: u64 = high_limb(c);
        proof {
            let k = result@.len();
            limbs::lemma_value_push(result@, low, limbs::base());
            limbs::lemma_weight_step(k);
            let w = limbs::weight(k);
            assert(low * w + high * (limbs::base() * w) == c * w) by (nonlinear_arith)
                requires
                    high * limbs::base() + low == c,
            ;
        }
        result.push(low);
        c = high as u128;
    }
    proof {
        assert(0 * limbs::weight(result@.len()) == 0);
    }
    strip(&mut result);
    result
}

/// The value of the coefficients in limbs, in one go.
pub fn unpack_serial(coeffs: &[u64]) -> (r: Vec<u64>)
    requires
        coeffs@.len() + 4 <= usize::MAX,
    ensures
        limbs::normalized(r@),
        limbs::value(r@) == limbs::digits_value(coeffs@, coeff_base()),
{
    let (limbs, carry) = unpack_process_chunk(coeffs);
    finish_limbs(limbs, carry)
}

/// Limbs that the pieces hold together.
pub open spec fn pieces_len(pieces: Seq<(Vec<u64>, u128)>) -> nat
    decreases pieces.len(),
{
    if pieces.len() == 0 {
        0
    } else {
        pieces_len(pieces.drop_last()) + pieces.last().0@.len()
    }
}

/// The value of pieces one above the other, each with the carry above it.
pub open spec fn pieces_value(pieces: Seq<(Vec<u64>, u128)>) -> int
    decreases pieces.len(),
{
    if pieces.len() == 0 {
        0
    } else {
        let last = pieces.last();
        pieces_value(pieces.drop_last()) + limbs::weight(pieces_len(pieces.drop_last())) * (limbs::value(last.0@)
            + last.1 * limbs::weight(last.0@.len()))
    }
}

/// No piece is empty and every carry is small.
pub open spec fn pieces_ok(pieces: Seq<(Vec<u64>, u128)>) -> bool {
    forall|i: int|
        0 <= i < pieces.len() ==> (#[trigger] pieces[i]).0@.len() > 0 && pieces[i].1
            < 0x2_0000_0000_0000
}

/// Runs of pieces one above the other.
proof fn lemma_pieces_concat(p: Seq<(Vec<u64>, u128)>, q: Seq<(Vec<u64>, u128)>)
    ensures
        pieces_len(p + q) == pieces_len(p) + pieces_len(q),
        pieces_value(p + q) == pieces_value(p) + limbs::weight(pieces_len(p)) * pieces_value(q),
    decreases q.len(),
{
    if q.len() == 0 {
        assert(p + q =~= p);
        assert(limbs::weight(pieces_len(p)) * 0 == 0);
    } else {
        let d = q.drop_last();
        lemma_pieces_concat(p, d);
        assert((p + q).drop_last() =~= p + d);
        assert((p + q).last() == q.last());
        limbs::lemma_weight_adds(pieces_len(p), pieces_len(d));
        let wp = limbs::weight(pieces_len(p));
        let wd = limbs::weight(pieces_len(d));
        let v = pieces_value(d);
        let x = limbs::value(q.last().0@) + q.last().1 * limbs::weight(q.last().0@.len());
        assert(wp * v + (wp * wd) * x == wp * (v + wd * x)) by (nonlinear_arith);
    }
}

/// The pieces together hold the value of the coefficients.
pub open spec fn are_pieces(c: Seq<u64>, pieces: Seq<(Vec<u64>, u128)>) -> bool {
    &&& pieces_ok(pieces)
    &&& pieces_len(pieces) == (c.len() + 3) / 4
    &&& pieces_value(pieces) == limbs::digits_value(c, coeff_base())
}

/// The pieces of two parts are the pieces of the whole.
proof fn lemma_join_pieces(
    c: Seq<u64>,
    i: nat,
    p: Seq<(Vec<u64>, u128)>,
    q: Seq<(Vec<u64>, u128)>,
)
    requires
        4 * i <= c.len(),
        are_pieces(c.take((4 * i) as int), p),
        are_pieces(c.skip((4 * i) as int), q),
    ensures
        are_pieces(c, p + q),
{
    let cut = (4 * i) as int;
    lemma_pieces_concat(p, q);
    limbs::lemma_value_split(c, cut, coeff_base());
    lemma_places(i);
    let r = p + q;
    assert forall|j: int| 0 <= j < r.len() implies (#[trigger] r[j]).0@.len() > 0 && r[j].1
        < 0x2_0000_0000_0000 by {
        if j < p.len() {
            assert(r[j] == p[j]);
        } else {
            assert(r[j] == q[j - p.len()]);
        }
    }
}

/// Unpack pieces of the coefficients in parallel.
fn unpack_pieces(coeffs: &[u64]) -> (r: Vec<(Vec<u64>, u128)>)
    requires
        0 < coeffs@.len(),
        coeffs@.len() + 4 <= usize::MAX,
    ensures
        are_pieces(coeffs@, r@),
    decreases coeffs@.len(),
{
    let n: usize = coeffs.len();
    if n <= UNPACK_CHUNK {
        let piece: (Vec<u64>, u128) = unpack_process_chunk(coeffs);
        let mut out: Vec<(Vec<u64>, u128)> = Vec::new();
        out.push(piece);
        proof {
            assert(out@.drop_last() =~= Seq::<(Vec<u64>, u128)>::empty());
            assert(pieces_len(out@.drop_last()) == 0);
            assert(pieces_value(out@.drop_last()) == 0);
            limbs::lemma_weight_step(0);
            let last = out@.last();
            let v = limbs::value(last.0@) + last.1 * limbs::weight(last.0@.len());
            assert(1 * v == v);
        }
        return out;
    }
    let cut: usize = (n / 8) * 4;
    let (lo, hi) = coeffs.split_at(cut);
    let low_task = || -> (r: Vec<(Vec<u64>, u128)>)
        ensures are_pieces(lo@, r@)
    { unpack_pieces(lo) };
    let high_task = || -> (r: Vec<(Vec<u64>, u128)>)
        ensures are_pieces(hi@, r@)
    { unpack_pieces(hi) };
    let (mut low, mut high) = rayon::join(low_task, high_task);
    let ghost (p, q) = (low@, high@);
    low.append(&mut high);
    proof {
        assert(lo@ =~= coeffs@.take(cut as int));
        assert(hi@ =~= coeffs@.skip(cut as int));
        lemma_join_pieces(coeffs@, (n / 8) as nat, p, q);
        assert(low@ =~= p + q);
    }
    low
}

/// Add `spare` below the limbs of a piece and append them; what is carried
/// out, with the piece's own carry, is the spare of the next piece.
fn merge_piece(result: &mut Vec<u64>, piece: &Vec<u64>, carry: u128, spare: u128) -> (next: u128)
    requires
        piece@.len() > 0,
        carry < 0x2_0000_0000_0000,
        spare < 0x4_0000_0000_0000,
    ensures
        next < 0x4_0000_0000_0000,
        final(result)@.len() == old(result)@.len() + piece@.len(),
        limbs::value(final(result)@) + next * limbs::weight(final(result)@.len()) == limbs::value(old(result)@)
            + limbs::weight(old(result)@.len()) * (spare + limbs::value(piece@) + carry * limbs::weight(piece@.len())),
{
    let ghost start = result@;
    let ghost w0 = limbs::weight(start.len());
    let mut s: u128 = spare;
    let mut i: usize = 0;
    let n: usize = piece.len();
    proof {
        assert(piece@.take(0).len() == 0);
        assert(s * w0 == w0 * (s + 0)) by (nonlinear_arith);
    }
    while i < n
        invariant
            n == piece@.len(),
            i <= n,
            w0 == limbs::weight(start.len()),
            result@.len() == start.len() + i,
            s < 0x4_0000_0000_0000,
            i > 0 ==> s <= 1,
            limbs::value(result@) + s * limbs::weight(result@.len()) == limbs::value(start) + w0 * (spare + limbs::value(
                piece@.take(i as int),
            )),
        decreases n - i,
    {
        let sum: u128 = piece[i] as u128 + s;
        let low: u64 = low_limb(sum);
        let high: u64 = high_limb(sum);
        proof {
            let k = result@.len();
            limbs::lemma_value_push(result@, low, limbs::base());
            limbs::lemma_weight_step(k);
            limbs::lemma_weight_adds(start.len(), i as nat);
            limbs::lemma_value_take_next(piece@, i as int, limbs::base());
            let w = limbs::weight(k);
            let wi = limbs::weight(i as nat);
            let x = piece@[i as int] as int;
            let si = s as int;
            assert(low * w + high * (limbs::base() * w) == si * w + x * w) by (nonlinear_arith)
                requires
                    high * limbs::base() + low == si + x,
            ;
            let pv = limbs::value(piece@.take(i as int));
            let sp = spare as int;
            assert(w0 * (sp + pv) + x * w == w0 * (sp + (pv + x * wi))) by (nonlinear_arith)
                requires
                    w == w0 * wi,
            ;
        }
        result.push(low);
        s = high as u128;
        i += 1;
    }
    proof {
        assert(piece@.take(n as int) =~= piece@);
        limbs::lemma_weight_adds(start.len(), n as nat);
        let w = limbs::weight(result@.len());
        let wn = limbs::weight(n as nat);
        let c = carry as int;
        let si = s as int;
        let v = spare + limbs::value(piece@);
        assert((si + c) * w == si * w + w0 * (c * wn)) by (nonlinear_arith)
            requires
                w == w0 * wn,
        ;
        assert(w0 * v + w0 * (c * wn) == w0 * (v + c * wn)) by (nonlinear_arith);
    }
    s + carry
}

/// The value of the coefficients in limbs: pieces in parallel, then the
/// carries between them one after the other.
pub fn unpack_parallel(coeffs: &[u64]) -> (r: Vec<u64>)
    requires
        0 < coeffs@.len(),
        coeffs@.len() + 4 <= usize::MAX,
    ensures
        limbs::normalized(r@),
        limbs::value(r@) == limbs::digits_value(coeffs@, coeff_base()),
{
    let pieces: Vec<(Vec<u64>, u128)> = unpack_pieces(coeffs);
    let mut result: Vec<u64> = Vec::new();
    let mut spare: u128 = 0;
    let mut i: usize = 0;
    proof {
        assert(pieces@.take(0).len() == 0);
        assert(0 * limbs::weight(0) == 0);
    }
    while i < pieces.len()
        invariant
            pieces_ok(pieces@),
            i <= pieces@.len(),
            spare < 0x4_0000_0000_0000,
            result@.len() == pieces_len(pieces@.take(i as int)),
            limbs::value(result@) + spare * limbs::weight(result@.len()) == pieces_value(
                pieces@.take(i as int),
            ),
        decreases pieces@.len() - i,
    {
        let ghost before = result@;
        let ghost sp = spare as int;
        proof {
            assert(pieces@[i as int].0@.len() > 0);
            assert(pieces@.take(i + 1).drop_last() =~= pieces@.take(i as int));
            assert(pieces@.take(i + 1).last() == pieces@[i as int]);
            let w = limbs::weight(before.len());
            let x = limbs::value(pieces@[i as int].0@) + pieces@[i as int].1 * limbs::weight(
                pieces@[i as int].0@.len(),
            );
            assert(w * (sp + x) == sp * w + w * x) by (nonlinear_arith);
        }
        spare = merge_piece(&mut result, &pieces[i].0, pieces[i].1, spare);
        i += 1;
    }
    proof {
        assert(pieces@.take(pieces@.len() as int) =~= pieces@);
    }
    finish_limbs(result, spare)
}

/// The value of the coefficients, each of which may exceed its place, in
/// limbs without zeros at the top.
pub fn unpack(coeffs: &[u64]) -> (r: Vec<u64>)
    requires
        coeffs@.len() + 4 <= usize::MAX,
    ensures
        limbs::normalized(r@),
        limbs::value(r@) == limbs::digits_value(coeffs@, coeff_base()),
{
    if coeffs.len() < PARALLEL_UNPACK_THRESHOLD {
        unpack_serial(coeffs)
    } else {
        unpack_parallel(coeffs)
    }
}

/// Unpacking what was packed gives the value back.
pub proof fn law_pack_unpack(limbs: Seq<u64>, coeffs: Seq<u64>, out: Seq<u64>)
    requires
        limbs::digits_value(coeffs, coeff_base()) == limbs::value(limbs),
        limbs::normalized(limbs),
        limbs::normalized(out),
        limbs::value(out) == limbs::digits_value(coeffs, coeff_base()),
    ensures
        out == limbs,
{
    limbs::lemma_normalized_unique(limbs, out);
}

} // verus!
