//! Which digits of a file have been checked: a set of disjoint intervals.
use crate::accuracy;
use crate::bitlen;
use crate::display;
use crate::display::push_thousands;
use crate::double;
use crate::double::Double;
use crate::reals;
use crate::text;
use crate::text::push_decimal;
use vstd::arithmetic::power2::*;
use vstd::prelude::*;
use vstd::set_lib::*;
use vstd::string::*;

verus! {

/// A set of positions, kept as intervals in ascending order that neither overlap
/// nor touch.
#[derive(Debug)]
pub struct IntervalSet {
    /// The intervals, each by its start and its end.
    pub spans: Vec<(u64, u64)>,
    /// How many positions they hold.
    pub covered: u64,
}

/// Positions in all of the intervals together.
pub open spec fn total(s: Seq<(u64, u64)>) -> int
    decreases s.len(),
{
    if s.len() == 0 {
        0
    } else {
        total(s.drop_last()) + (s.last().1 - s.last().0)
    }
}

/// The intervals hold something, are in order, and have gaps between them.
pub open spec fn in_order(s: Seq<(u64, u64)>) -> bool {
    &&& forall|i: int| 0 <= i < s.len() ==> (#[trigger] s[i]).0 < s[i].1
    &&& forall|i: int, j: int| 0 <= i < j < s.len() ==> (#[trigger] s[i]).1 < (#[trigger] s[j]).0
}

/// One of the intervals `from..to` holds `p`.
pub open spec fn held(s: Seq<(u64, u64)>, from: int, to: int, p: int) -> bool {
    exists|i: int| from <= i < to && (#[trigger] s[i]).0 <= p < s[i].1
}

impl View for IntervalSet {
    type V = Set<int>;

    /// The positions in the set.
    open spec fn view(&self) -> Set<int> {
        Set::new(|p: int| held(self.spans@, 0, self.spans@.len() as int, p))
    }
}

impl IntervalSet {
    /// The intervals are in order, and counted.
    pub open spec fn wf(&self) -> bool {
        &&& in_order(self.spans@)
        &&& self.covered == total(self.spans@)
    }

    /// The empty set.
    pub fn new() -> (s: IntervalSet)
        ensures
            s.wf(),
            s@ == Set::<int>::empty(),
            s.spans@.len() == 0,
    {
        let s = IntervalSet { spans: Vec::new(), covered: 0 };
        assert(s@ =~= Set::<int>::empty());
        s
    }

    /// Add the positions from `start` up to `end`, joining intervals that overlap
    /// or touch.
    pub fn insert(&mut self, start: u64, end: u64)
        requires
            old(self).wf(),
        ensures
            final(self).wf(),
            final(self)@ == old(self)@.union(Set::new(|p: int| start <= p < end)),
    {
        let ghost s = self.spans@;
        let ghost before = self@;
        if start >= end {
            proof {
                assert(Set::new(|p: int| start <= p < end) =~= Set::<int>::empty());
                assert(before =~= before.union(Set::<int>::empty()));
            }
            return;
        }
        let len: usize = self.spans.len();
        let mut out: Vec<(u64, u64)> = Vec::new();
        let mut i: usize = 0;
        while i < len && self.spans[i].1 < start
            invariant
                i <= len == s.len(),
                s == self.spans@,
                in_order(s),
                out@ == s.take(i as int),
                forall|t: int| 0 <= t < i ==> (#[trigger] s[t]).1 < start,
            decreases len - i,
        {
            out.push(self.spans[i]);
            proof {
                assert(s.take(i + 1) =~= s.take(i as int).push(s[i as int]));
            }
            i = i + 1;
        }
        let ghost low = i as int;
        let mut lo: u64 = start;
        let mut hi: u64 = end;
        let mut removed: u64 = 0;
        proof {
            assert(s.subrange(low, low) =~= Seq::<(u64, u64)>::empty());
        }
        while i < len && self.spans[i].0 <= end
            invariant
                low <= i <= len == s.len(),
                0 <= low,
                s == self.spans@,
                in_order(s),
                start < end,
                low < len ==> s[low].1 >= start,
                lo <= start,
                end <= hi,
                forall|t: int| low <= t < i ==> lo <= (#[trigger] s[t]).0 && s[t].1 <= hi,
                hi == end || low < i && hi == s[i - 1].1,
                lo == start || low < i && lo == s[low].0,
                forall|t: int| low <= t < i ==> (#[trigger] s[t]).0 <= end && s[t].1 >= start,
                removed == total(s.subrange(low, i as int)),
            decreases len - i,
        {
            let (a, b) = self.spans[i];
            proof {
                if i > low {
                    assert(s[low].1 < s[i as int].0);
                }
                assert(s.subrange(low, i + 1).drop_last() =~= s.subrange(low, i as int));
                assert(s.subrange(low, i + 1).last() == s[i as int]);
                lemma_total_within(s.subrange(low, i + 1));
            }
            removed = removed + (b - a);
            if a < lo {
                lo = a;
            }
            if b > hi {
                hi = b;
            }
            i = i + 1;
        }
        let ghost high = i as int;
        out.push((lo, hi));
        let ghost head = out@;
        proof {
            lemma_total_parts(s, low, high);
            lemma_part_in_order(s, 0, low);
            lemma_part_in_order(s, high, s.len() as int);
            lemma_total_within(s.subrange(0, low));
            lemma_total_within(s.subrange(high, s.len() as int));
            lemma_total_within(s);
            assert(s.subrange(0, low) =~= s.take(low));
            assert(s.subrange(high, s.len() as int) =~= s.skip(high));
            assert(head.drop_last() =~= s.take(low));
            assert(in_order(head)) by {
                assert forall|t: int, u: int| 0 <= t < u < head.len() implies (#[trigger] head[t]).1
                    < (#[trigger] head[u]).0 by {
                    if u == low {
                        assert(head[t] == s[t]);
                        if lo != start {
                            assert(s[t].1 < s[low].0);
                        }
                    } else {
                        assert(head[t] == s[t] && head[u] == s[u]);
                    }
                }
                assert forall|t: int| 0 <= t < head.len() implies (#[trigger] head[t]).0
                    < head[t].1 by {
                    if t < low {
                        assert(head[t] == s[t]);
                    }
                }
            }
        }
        while i < len
            invariant
                high <= i <= len == s.len(),
                0 <= low <= high,
                s == self.spans@,
                in_order(s),
                in_order(head),
                head.len() == low + 1,
                head[low] == (lo, hi),
                high < s.len() ==> hi < s[high].0,
                out@ == head + s.subrange(high, i as int),
            decreases len - i,
        {
            out.push(self.spans[i]);
            proof {
                assert(head + s.subrange(high, i + 1) =~= (head + s.subrange(high, i as int)).push(
                    s[i as int],
                ));
            }
            i = i + 1;
        }
        proof {
            assert(head =~= s.take(low).push((lo, hi)));
            lemma_joined(s, low, high, lo, hi, head, out@, start, end);
            lemma_total_within(out@);
        }
        self.covered = self.covered - removed + (hi - lo);
        self.spans = out;
        proof {
            assert(self@ =~= before.union(Set::new(|p: int| start <= p < end)));
        }
    }

    /// How many positions are in the set.
    pub fn covered(&self) -> (n: u64)
        requires
            self.wf(),
        ensures
            self@.finite(),
            n == self@.len(),
    {
        proof {
            law_counted(*self);
        }
        self.covered
    }

    /// How many intervals the set falls into.
    pub fn count(&self) -> (n: usize)
        ensures
            n == self.spans@.len(),
    {
        self.spans.len()
    }
}

/// What a sequence of intervals holds is what its parts hold.
proof fn lemma_total_parts(s: Seq<(u64, u64)>, low: int, high: int)
    requires
        0 <= low <= high <= s.len(),
    ensures
        total(s) == total(s.take(low)) + total(s.subrange(low, high)) + total(s.skip(high)),
{
    lemma_total_add(s.take(low), s.subrange(low, high));
    lemma_total_add(s.take(high), s.skip(high));
    assert(s.take(low) + s.subrange(low, high) =~= s.take(high));
    assert(s.take(high) + s.skip(high) =~= s);
}

proof fn lemma_total_add(a: Seq<(u64, u64)>, b: Seq<(u64, u64)>)
    ensures
        total(a + b) == total(a) + total(b),
    decreases b.len(),
{
    if b.len() == 0 {
        assert(a + b =~= a);
    } else {
        lemma_total_add(a, b.drop_last());
        assert((a + b).drop_last() =~= a + b.drop_last());
        assert((a + b).last() == b.last());
    }
}

/// A part of intervals in order is in order.
proof fn lemma_part_in_order(s: Seq<(u64, u64)>, from: int, to: int)
    requires
        in_order(s),
        0 <= from <= to <= s.len(),
    ensures
        in_order(s.subrange(from, to)),
{
    let t = s.subrange(from, to);
    assert forall|i: int, j: int| 0 <= i < j < t.len() implies (#[trigger] t[i]).1 < (#[trigger] t[j]).0
        by {
        assert(s[from + i].1 < s[from + j].0);
    }
    assert forall|i: int| 0 <= i < t.len() implies (#[trigger] t[i]).0 < t[i].1 by {
        assert(s[from + i].0 < s[from + i].1);
    }
}

/// Intervals in order hold no more than there are positions up to the last end.
proof fn lemma_total_within(s: Seq<(u64, u64)>)
    requires
        in_order(s),
    ensures
        0 <= total(s),
        s.len() > 0 ==> total(s) <= s.last().1,
        s.len() == 0 ==> total(s) == 0,
        total(s) <= u64::MAX,
    decreases s.len(),
{
    if s.len() > 0 {
        let t = s.drop_last();
        lemma_part_in_order(s, 0, s.len() - 1);
        assert(s.subrange(0, s.len() - 1) =~= t);
        lemma_total_within(t);
        assert(s.last().0 < s.last().1) by {
            assert(s[s.len() - 1].0 < s[s.len() - 1].1);
        }
        if t.len() > 0 {
            assert(s[s.len() - 2].1 < s[s.len() - 1].0);
        }
    }
}

/// The intervals from `low` to `high` joined with `start..end` into one.
proof fn lemma_joined(
    s: Seq<(u64, u64)>,
    low: int,
    high: int,
    lo: u64,
    hi: u64,
    head: Seq<(u64, u64)>,
    out: Seq<(u64, u64)>,
    start: u64,
    end: u64,
)
    requires
        in_order(s),
        in_order(head),
        0 <= low <= high <= s.len(),
        start < end,
        head == s.take(low).push((lo, hi)),
        out == head + s.subrange(high, s.len() as int),
        high < s.len() ==> hi < s[high].0,
        lo <= start && end <= hi,
        forall|t: int| low <= t < high ==> lo <= (#[trigger] s[t]).0 && s[t].1 <= hi,
        hi == end || low < high && hi == s[high - 1].1,
        lo == start || low < high && lo == s[low].0,
        forall|t: int| low <= t < high ==> (#[trigger] s[t]).0 <= end && s[t].1 >= start,
    ensures
        in_order(out),
        total(out) == total(s.take(low)) + (hi - lo) + total(s.skip(high)),
        forall|p: int|
            held(out, 0, out.len() as int, p) <==> held(s, 0, s.len() as int, p) || start <= p < end,
{
    let rest = s.subrange(high, s.len() as int);
    let shift = low + 1 - high;
    assert(s.skip(high) =~= rest);
    lemma_total_add(head, rest);
    assert(head.drop_last() =~= s.take(low));
    assert forall|t: int| 0 <= t < out.len() implies (#[trigger] out[t]).0 < out[t].1 by {
        if t <= low {
            assert(out[t] == head[t]);
        } else {
            assert(out[t] == s[t - shift]);
        }
    }
    assert forall|t: int, u: int| 0 <= t < u < out.len() implies (#[trigger] out[t]).1
        < (#[trigger] out[u]).0 by {
        if u <= low {
            assert(out[t] == head[t] && out[u] == head[u]);
        } else {
            assert(out[u] == s[u - shift]);
            if t > low {
                assert(out[t] == s[t - shift]);
            } else if t == low {
                assert(out[t] == (lo, hi));
                if u - shift > high {
                    assert(s[high].1 < s[u - shift].0);
                    assert(s[high].0 < s[high].1);
                }
            } else {
                assert(out[t] == s[t]);
                assert(s[t].1 < s[u - shift].0);
            }
        }
    }
    let n = s.len() as int;
    let m = out.len() as int;
    assert forall|p: int|
        held(out, 0, m, p) <==> held(s, 0, n, p) || start <= p < end by {
        if held(out, 0, m, p) {
            let t = choose|t: int| 0 <= t < m && (#[trigger] out[t]).0 <= p < out[t].1;
            if t < low {
                assert(out[t] == s[t]);
            } else if t > low {
                assert(out[t] == s[t - shift]);
            } else {
                assert(out[t] == (lo, hi));
                if p < start {
                    assert(s[low].0 <= p < s[low].1);
                } else if p >= end {
                    assert(s[high - 1].0 <= p < s[high - 1].1);
                }
            }
        }
        if held(s, 0, n, p) {
            let t = choose|t: int| 0 <= t < n && (#[trigger] s[t]).0 <= p < s[t].1;
            if t < low {
                assert(out[t] == s[t]);
            } else if t >= high {
                assert(out[t + shift] == s[t]);
            } else {
                assert(out[low] == (lo, hi));
            }
        }
        if start <= p < end {
            assert(out[low] == (lo, hi));
        }
    }
}

/// The positions that some intervals in order hold are as many as their lengths
/// together.
proof fn lemma_counted(s: Seq<(u64, u64)>)
    requires
        in_order(s),
    ensures
        Set::new(|p: int| held(s, 0, s.len() as int, p)).finite(),
        Set::new(|p: int| held(s, 0, s.len() as int, p)).len() == total(s),
    decreases s.len(),
{
    let all = Set::new(|p: int| held(s, 0, s.len() as int, p));
    if s.len() == 0 {
        assert(all =~= Set::<int>::empty());
    } else {
        let t = s.drop_last();
        let k = s.len() - 1;
        lemma_part_in_order(s, 0, s.len() - 1);
        assert(s.subrange(0, s.len() - 1) =~= t);
        lemma_counted(t);
        let first = Set::new(|p: int| held(t, 0, t.len() as int, p));
        let (a, b) = (s[k].0 as int, s[k].1 as int);
        let last = set_int_range(a, b);
        lemma_int_range(a, b);
        assert forall|p: int| all.contains(p) <==> first.contains(p) || last.contains(p) by {
            if all.contains(p) {
                let i = choose|i: int| 0 <= i < s.len() && (#[trigger] s[i]).0 <= p < s[i].1;
                if i < k {
                    assert(t[i] == s[i]);
                }
            }
            if first.contains(p) {
                let i = choose|i: int| 0 <= i < t.len() && (#[trigger] t[i]).0 <= p < t[i].1;
                assert(s[i] == t[i]);
            }
            if last.contains(p) {
                assert(s[k].0 <= p < s[k].1);
            }
        }
        assert(all =~= first.union(last));
        assert(first.disjoint(last)) by {
            assert forall|p: int| !(first.contains(p) && last.contains(p)) by {
                if first.contains(p) {
                    let i = choose|i: int| 0 <= i < t.len() && (#[trigger] t[i]).0 <= p < t[i].1;
                    assert(s[i] == t[i]);
                    assert(s[i].1 < s[k].0);
                }
            }
        }
        lemma_set_disjoint_lens(first, last);
    }
}

/// The counter of a set is the number of its positions.
pub proof fn law_counted(s: IntervalSet)
    requires
        s.wf(),
    ensures
        s@.finite(),
        s@.len() == s.covered,
{
    lemma_counted(s.spans@);
}

/// What has been covered in percent, in double precision.
pub open spec fn percent_covered(covered: u64, digits: u64) -> Double {
    if digits == 0 {
        Double { mant: 0, exp: 0 }
    } else {
        Double::quotient(
            Double::product(Double::of(covered as int, 0), Double { mant: 100, exp: 0 }),
            Double::of(digits as int, 0),
        )
    }
}

/// The coverage in words.
pub open spec fn coverage_words(covered: u64, digits: u64, intervals: usize) -> Seq<char> {
    "covered "@ + display::thousands(covered as nat) + " of "@ + display::thousands(digits as nat)
        + " verifiable hex digits ("@ + double::fixed_text(percent_covered(covered, digits), 5)
        + "%) across "@ + text::numeral(intervals as int, 10) + " disjoint intervals"@
}

/// Say how many of `digits` digits have been covered, and in how many intervals.
pub fn coverage_text(covered: u64, digits: u64, intervals: usize) -> (s: String)
    ensures
        s@ == coverage_words(covered, digits, intervals),
{
    let mut s: String = "covered ".to_owned();
    push_thousands(&mut s, covered);
    s.append(" of ");
    push_thousands(&mut s, digits);
    s.append(" verifiable hex digits (");
    let percent: Double = if digits == 0 {
        Double { mant: 0, exp: 0 }
    } else {
        let hundred: Double = Double { mant: 100, exp: 0 };
        Double::from_u64(covered).times(hundred).over(Double::from_u64(digits))
    };
    percent.push_fixed(&mut s, 5);
    s.append("%) across ");
    push_decimal(&mut s, intervals as u64);
    s.append(" disjoint intervals");
    s
}

/// A set holds the positions of its intervals, and these are not empty, stand in
/// order and do not touch: there are as many as there are gaps between them.
pub proof fn law_intervals(s: IntervalSet, p: int)
    requires
        s.wf(),
    ensures
        s@.contains(p) <==> exists|i: int|
            0 <= i < s.spans@.len() && (#[trigger] s.spans@[i]).0 <= p < s.spans@[i].1,
        forall|i: int| 0 <= i < s.spans@.len() ==> (#[trigger] s.spans@[i]).0 < s.spans@[i].1,
        forall|i: int, j: int|
            0 <= i < j < s.spans@.len() ==> (#[trigger] s.spans@[i]).1 < (#[trigger] s.spans@[j]).0,
{
}

/// The share that has been covered, in percent: a hundred times the covered digits
/// over all of them, but for the rounding of double precision, and zero where there
/// are none.
pub proof fn law_percent(covered: u64, digits: u64)
    ensures
        digits == 0 || covered == 0 ==> percent_covered(covered, digits).mant == 0,
        digits > 0 && covered > 0 ==> accuracy::within(
            percent_covered(covered, digits).value(),
            (100real * (covered as real)) / (digits as real),
            9real,
            reals::rpow2(-53),
        ),
{
    double::law_round_even(0, 0);
    double::law_double_drop(0);
    if digits > 0 && covered > 0 {
        lemma2_to64();
        bitlen::lemma_bit_len_at_most(covered as int, 64);
        bitlen::lemma_bit_len_at_most(digits as int, 64);
        double::lemma_of_value(covered as int, 0);
        double::lemma_of_value(digits as int, 0);
        let u = reals::rpow2(-53);
        reals::lemma_rpow2_step(0);
        reals::lemma_rpow2_step(-53);
        reals::lemma_rpow2_nat(53);
        reals::lemma_rpow2_add(-53, 53);
        lemma2_to64_rest();
        assert(u <= 1real / 10000real) by (nonlinear_arith)
            requires
                u * 9_007_199_254_740_992real == 1real,
        ;
        let (a, b) = (Double::of(covered as int, 0), Double::of(digits as int, 0));
        let h = Double { mant: 100, exp: 0 };
        let (c, d) = (covered as real, digits as real);
        assert(c * 1real == c && d * 1real == d && 100real * 1real == 100real) by (nonlinear_arith);
        double::law_double_product(a, h);
        let p = Double::product(a, h);
        double::law_double_quotient(p, b);
        accuracy::lemma_within_scale(a.value(), c, 1real, u, 100real);
        accuracy::lemma_within_chain(p.value(), a.value() * 100real, c * 100real, 1real, 1real, u);
        reals::lemma_real_comm(c, 100real);
        // The quotient of the rounded numbers against that of the exact ones.
        let (x, y) = (100real * c, d);
        let (v, w) = (p.value(), b.value());
        lemma_quotient_within(v, x, w, y, u);
        accuracy::lemma_within_chain(Double::quotient(p, b).value(), v / w, x / y, 3real, 5real, u);
    }
}

/// Quotients of close numbers are close.
proof fn lemma_quotient_within(v: real, x: real, w: real, y: real, u: real)
    requires
        0real < u <= 1real / 10000real,
        accuracy::within(v, x, 3real, u),
        accuracy::within(w, y, 1real, u),
    ensures
        accuracy::within(v / w, x / y, 5real, u),
{
    assert(1real * u == u) by (nonlinear_arith);
    let yu = y * u;
    assert(0real < yu <= y / 10000real) by (nonlinear_arith)
        requires
            yu == y * u,
            0real < u <= 1real / 10000real,
            y > 0real,
    ;
    let q = v / w;
    let r = x / y;
    assert(q * w == v) by (nonlinear_arith)
        requires
            q == v / w,
            w > 0real,
    ;
    assert(r * y == x && r > 0real) by (nonlinear_arith)
        requires
            r == x / y,
            y > 0real,
            x > 0real,
    ;
    let ru = r * u;
    let e = r * (5real * u);
    assert(x * (3real * u) == 3real * (ru * y)) by (nonlinear_arith)
        requires
            r * y == x,
            ru == r * u,
    ;
    assert(e == 5real * ru && ru > 0real && 10000real * ru <= r) by (nonlinear_arith)
        requires
            e == r * (5real * u),
            ru == r * u,
            r > 0real,
            0real < u <= 1real / 10000real,
    ;
    let s = ru * y;
    assert(v <= r * y + 3real * s && v >= r * y - 3real * s);
    assert(r * yu == s) by (nonlinear_arith)
        requires
            yu == y * u,
            s == ru * y,
            ru == r * u,
    ;
    let t = ru * yu;
    assert(0real <= t && 10000real * t <= s) by (nonlinear_arith)
        requires
            t == ru * yu,
            ru > 0real,
            0real < yu,
            10000real * yu <= y,
            s == ru * y,
    ;
    let (hi, lo) = (r + 5real * ru, r - 5real * ru);
    assert(hi * (y - yu) == r * y - s + 5real * s - 5real * t) by (nonlinear_arith)
        requires
            hi == r + 5real * ru,
            r * yu == s,
            s == ru * y,
            t == ru * yu,
    ;
    assert(lo * (y + yu) == r * y + s - 5real * s - 5real * t) by (nonlinear_arith)
        requires
            lo == r - 5real * ru,
            r * yu == s,
            s == ru * y,
            t == ru * yu,
    ;
    assert(q <= hi) by (nonlinear_arith)
        requires
            q * w <= hi * (y - yu),
            y - yu <= w,
            w > 0real,
            hi > 0real,
    ;
    assert(lo <= q) by (nonlinear_arith)
        requires
            lo * (y + yu) <= q * w,
            w <= y + yu,
            w > 0real,
            lo > 0real,
    ;
}

/// The coverage in words.
pub proof fn law_coverage_words(covered: u64, digits: u64, intervals: usize)
    ensures
        coverage_words(covered, digits, intervals) == "covered "@ + display::thousands(
            covered as nat,
        ) + " of "@ + display::thousands(digits as nat) + " verifiable hex digits ("@
            + double::fixed_text(percent_covered(covered, digits), 5) + "%) across "@
            + text::numeral(intervals as int, 10) + " disjoint intervals"@,
{
}

} // verus!
