//! What a generated configuration file sets, read off its text.
use crate::bignum_config;
use crate::config_gen;
use crate::config_gen::{Knobs, MemoryMode};
use crate::display;
use crate::double;
use crate::double::Double;
use crate::file_config;
use crate::file_config::FileConfig;
use crate::hardware::HardwareProfile;
use crate::pi_config;
use crate::text;
use vstd::arithmetic::div_mod::*;
use vstd::arithmetic::mul::*;
use vstd::arithmetic::power2::*;
use vstd::arithmetic::power::*;
use vstd::prelude::*;
use vstd::string::*;

verus! {

/// A text without a line end.
pub open spec fn plain(t: Seq<char>) -> bool {
    forall|i: int| 0 <= i < t.len() ==> #[trigger] t[i] != '\n'
}

/// A text that has been read up to some character.
#[verifier::ext_equal]
pub struct Reading {
    /// The lines so far that are neither empty nor comments.
    pub settings: Seq<Seq<char>>,
    /// The line that has not ended yet.
    pub open: Seq<char>,
}

/// Read a text: lines that begin with `#` are comments.
pub open spec fn read(t: Seq<char>) -> Reading
    decreases t.len(),
{
    if t.len() == 0 {
        Reading { settings: Seq::empty(), open: Seq::empty() }
    } else {
        let before = read(t.drop_last());
        if t.last() != '\n' {
            Reading { settings: before.settings, open: before.open.push(t.last()) }
        } else if before.open.len() == 0 || before.open[0] == '#' {
            Reading { settings: before.settings, open: Seq::empty() }
        } else {
            Reading { settings: before.settings.push(before.open), open: Seq::empty() }
        }
    }
}

/// The line that sets a size, where it is set.
pub open spec fn size_line(key: Seq<char>, v: Option<usize>) -> Seq<Seq<char>> {
    match v {
        Some(n) => seq![key + text::numeral(n as int, 10)],
        None => Seq::empty(),
    }
}

/// The line that sets a count, where it is set.
pub open spec fn count_line(key: Seq<char>, v: Option<u64>) -> Seq<Seq<char>> {
    match v {
        Some(n) => seq![key + text::numeral(n as int, 10)],
        None => Seq::empty(),
    }
}

/// The line that sets a switch, where it is set.
pub open spec fn switch_line(key: Seq<char>, v: Option<bool>) -> Seq<Seq<char>> {
    match v {
        Some(on) => seq![
            key + if on {
                "true"@
            } else {
                "false"@
            },
        ],
        None => Seq::empty(),
    }
}

/// The lines of section `runtime`.
pub open spec fn runtime_lines(c: FileConfig) -> Seq<Seq<char>> {
    seq!["[runtime]"@, "threads = "@ + text::numeral(c.runtime.threads as int, 10)]
}

/// The lines of section `bignum`, up to the disk threshold.
pub open spec fn bignum_lines(c: FileConfig) -> Seq<Seq<char>> {
    let b = c.bignum;
    seq!["[bignum]"@] + size_line("karatsuba_threshold = "@, b.karatsuba_threshold) + size_line(
        "parallel_karatsuba_threshold = "@,
        b.parallel_karatsuba_threshold,
    ) + size_line("ntt_threshold = "@, b.ntt_threshold) + size_line(
        "newton_div_threshold = "@,
        b.newton_div_threshold,
    )
}

/// The line of the disk threshold.
pub open spec fn disk_lines(c: FileConfig) -> Seq<Seq<char>> {
    size_line("disk_limb_threshold = "@, c.bignum.disk_limb_threshold)
}

/// The lines of section `bignum.ntt`.
pub open spec fn ntt_lines(c: FileConfig) -> Seq<Seq<char>> {
    let n = c.bignum.ntt;
    seq!["[bignum.ntt]"@] + size_line("target_task_size = "@, n.target_task_size) + size_line(
        "parallel_pack_threshold = "@,
        n.parallel_pack_threshold,
    ) + size_line("parallel_pointwise_threshold = "@, n.parallel_pointwise_threshold)
}

/// The lines of section `chudnovsky`.
pub open spec fn chudnovsky_lines(c: FileConfig) -> Seq<Seq<char>> {
    let h = c.chudnovsky;
    seq!["[chudnovsky]"@] + count_line("parallel_split_threshold = "@, h.parallel_split_threshold)
        + count_line("sequential_top_threshold = "@, h.sequential_top_threshold) + switch_line(
        "parallel_final_assembly = "@,
        h.parallel_final_assembly,
    )
}

/// The lines of section `decimal_conversion`.
pub open spec fn decimal_lines(c: FileConfig) -> Seq<Seq<char>> {
    let d = c.decimal_conversion;
    seq!["[decimal_conversion]"@] + size_line("to_string_dc_threshold = "@, d.to_string_dc_threshold)
        + size_line("parallel_to_string_threshold = "@, d.parallel_to_string_threshold)
}

/// The lines of section `perf`.
pub open spec fn perf_lines(c: FileConfig) -> Seq<Seq<char>> {
    seq!["[perf]"@] + count_line("default_sample_ms = "@, c.perf.default_sample_ms)
}

/// The lines that set what `c` holds, section by section.
pub open spec fn setting_lines(c: FileConfig) -> Seq<Seq<char>> {
    runtime_lines(c) + bignum_lines(c) + disk_lines(c) + ntt_lines(c) + chudnovsky_lines(c)
        + decimal_lines(c) + perf_lines(c)
}

/// The text of a generated file sets exactly the values that were picked: read
/// line by line, what is neither empty nor a comment is the settings, each key
/// in its section with its value.
pub proof fn law_text_sets(digits: u64, hw: HardwareProfile, k: Knobs)
    requires
        plain(hw.os@),
        plain(hw.arch@),
    ensures
        read(config_gen::config_text(digits, hw, k)).settings == setting_lines(
            config_gen::settings_of(k),
        ),
        read(config_gen::config_text(digits, hw, k)).open.len() == 0,
{
    let c = config_gen::settings_of(k);
    let none = Seq::<Seq<char>>::empty();
    assert(at_start(Seq::empty(), none)) by {
        reveal(at_start);
    }
    let s0 = config_gen::header_text(Seq::empty(), digits, hw, k);
    lemma_header_lines(Seq::empty(), digits, hw, k, none);
    let s1 = config_gen::rationale_text(s0, k);
    lemma_rationale_lines(s0, k, none);
    let s2 = config_gen::runtime_text(s1, hw);
    lemma_runtime_lines(s1, hw, k, none);
    let l2 = none + runtime_lines(c);
    let s3 = config_gen::bignum_text(s2, k, hw);
    lemma_bignum_lines(s2, k, hw, l2);
    let l3 = l2 + bignum_lines(c);
    let s4 = config_gen::disk_text(s3, k);
    lemma_disk_lines(s3, k, l3);
    let l4 = l3 + disk_lines(c);
    let s5 = config_gen::ntt_text(s4, k, hw);
    lemma_ntt_lines(s4, k, hw, l4);
    let l5 = l4 + ntt_lines(c);
    let s6 = config_gen::chudnovsky_text(s5, k, hw);
    lemma_chudnovsky_lines(s5, k, hw, l5);
    let l6 = l5 + chudnovsky_lines(c);
    let s7 = config_gen::decimal_text(s6, k, hw);
    lemma_decimal_lines(s6, k, hw, l6);
    let l7 = l6 + decimal_lines(c);
    lemma_perf_lines(s7, digits, k, l7);
    assert(none + runtime_lines(c) =~= runtime_lines(c));
    reveal(at_start);
}

/// The lines from `disk_limb_threshold` on.
spec fn from_disk_limb_threshold(c: FileConfig) -> Seq<Seq<char>> {
    size_line("disk_limb_threshold = "@, c.bignum.disk_limb_threshold) + from_ntt(c)
}

/// The lines from `newton_div_threshold` on.
spec fn from_newton_div_threshold(c: FileConfig) -> Seq<Seq<char>> {
    size_line("newton_div_threshold = "@, c.bignum.newton_div_threshold) + from_disk_limb_threshold(c)
}

/// The lines from `ntt_threshold` on.
spec fn from_ntt_threshold(c: FileConfig) -> Seq<Seq<char>> {
    size_line("ntt_threshold = "@, c.bignum.ntt_threshold) + from_newton_div_threshold(c)
}

/// The lines from `parallel_karatsuba_threshold` on.
spec fn from_parallel_karatsuba_threshold(c: FileConfig) -> Seq<Seq<char>> {
    size_line("parallel_karatsuba_threshold = "@, c.bignum.parallel_karatsuba_threshold) + from_ntt_threshold(c)
}

/// The lines from section `bignum` on.
spec fn from_bignum(c: FileConfig) -> Seq<Seq<char>> {
    seq!["[bignum]"@] + (size_line("karatsuba_threshold = "@, c.bignum.karatsuba_threshold) + from_parallel_karatsuba_threshold(c))
}

/// The lines from `parallel_pointwise_threshold` on.
spec fn from_parallel_pointwise_threshold(c: FileConfig) -> Seq<Seq<char>> {
    size_line("parallel_pointwise_threshold = "@, c.bignum.ntt.parallel_pointwise_threshold) + from_chudnovsky(c)
}

/// The lines from `parallel_pack_threshold` on.
spec fn from_parallel_pack_threshold(c: FileConfig) -> Seq<Seq<char>> {
    size_line("parallel_pack_threshold = "@, c.bignum.ntt.parallel_pack_threshold) + from_parallel_pointwise_threshold(c)
}

/// The lines from section `bignum.ntt` on.
spec fn from_ntt(c: FileConfig) -> Seq<Seq<char>> {
    seq!["[bignum.ntt]"@] + (size_line("target_task_size = "@, c.bignum.ntt.target_task_size) + from_parallel_pack_threshold(c))
}

/// The lines from `parallel_final_assembly` on.
spec fn from_parallel_final_assembly(c: FileConfig) -> Seq<Seq<char>> {
    switch_line("parallel_final_assembly = "@, c.chudnovsky.parallel_final_assembly) + from_decimal(c)
}

/// The lines from `sequential_top_threshold` on.
spec fn from_sequential_top_threshold(c: FileConfig) -> Seq<Seq<char>> {
    count_line("sequential_top_threshold = "@, c.chudnovsky.sequential_top_threshold) + from_parallel_final_assembly(c)
}

/// The lines from section `chudnovsky` on.
spec fn from_chudnovsky(c: FileConfig) -> Seq<Seq<char>> {
    seq!["[chudnovsky]"@] + (count_line("parallel_split_threshold = "@, c.chudnovsky.parallel_split_threshold) + from_sequential_top_threshold(c))
}

/// The lines from `parallel_to_string_threshold` on.
spec fn from_parallel_to_string_threshold(c: FileConfig) -> Seq<Seq<char>> {
    size_line("parallel_to_string_threshold = "@, c.decimal_conversion.parallel_to_string_threshold) + from_perf(c)
}

/// The lines from section `decimal_conversion` on.
spec fn from_decimal(c: FileConfig) -> Seq<Seq<char>> {
    seq!["[decimal_conversion]"@] + (size_line("to_string_dc_threshold = "@, c.decimal_conversion.to_string_dc_threshold) + from_parallel_to_string_threshold(c))
}

/// The lines from section `perf` on.
spec fn from_perf(c: FileConfig) -> Seq<Seq<char>> {
    seq!["[perf]"@] + (count_line("default_sample_ms = "@, c.perf.default_sample_ms) + Seq::<Seq<char>>::empty())
}

/// A line has the character `ch` at `i`.
spec fn has_at(line: Seq<char>, i: int, ch: char) -> bool {
    i < line.len() && line[i] == ch
}

/// The first of several lines has the character `ch` at `i`.
spec fn begins(lines: Seq<Seq<char>>, i: int, ch: char) -> bool {
    lines.len() > 0 && has_at(lines[0], i, ch)
}

/// Take off a line that both sequences begin with: what stands before `rest` is
/// that line where `rest` begins with another one.
proof fn lemma_peel(piece: Seq<Seq<char>>, line: Seq<char>, rest: Seq<Seq<char>>, other: Seq<Seq<char>>)
    requires
        piece.len() <= 1,
        piece + rest == seq![line] + other,
        rest.len() > 0 ==> rest[0] != line,
    ensures
        piece == seq![line],
        rest == other,
{
    let all = seq![line] + other;
    assert(all[0] == line);
    if piece.len() == 0 {
        assert(piece + rest =~= rest);
    } else {
        assert((piece + rest)[0] == piece[0]);
        assert(piece =~= seq![line]);
        assert(all.skip(1) =~= other);
        assert((piece + rest).skip(1) =~= rest);
    }
}

/// A numeral stands for one number.
proof fn lemma_same_number(key: Seq<char>, m: int, n: int)
    requires
        m >= 0,
        n >= 0,
        key + text::numeral(m, 10) == key + text::numeral(n, 10),
    ensures
        m == n,
{
    let (a, b) = (text::numeral(m, 10), text::numeral(n, 10));
    assert((key + a).skip(key.len() as int) =~= a);
    assert((key + b).skip(key.len() as int) =~= b);
    text::lemma_numeral_value(m, 10);
    text::lemma_numeral_value(n, 10);
}

/// A line that sets a size sets one size.
proof fn lemma_size_set(key: Seq<char>, v: Option<usize>, n: usize)
    requires
        size_line(key, v) == seq![key + text::numeral(n as int, 10)],
    ensures
        v == Some(n),
{
    assert(size_line(key, v).len() == 1);
    assert(size_line(key, v)[0] == key + text::numeral(n as int, 10));
    lemma_same_number(key, v->0 as int, n as int);
}

/// A line that sets a count sets one count.
proof fn lemma_count_set(key: Seq<char>, v: Option<u64>, n: u64)
    requires
        count_line(key, v) == seq![key + text::numeral(n as int, 10)],
    ensures
        v == Some(n),
{
    assert(count_line(key, v).len() == 1);
    assert(count_line(key, v)[0] == key + text::numeral(n as int, 10));
    lemma_same_number(key, v->0 as int, n as int);
}

/// A line that sets a switch sets it one way.
proof fn lemma_switch_set(key: Seq<char>, v: Option<bool>, on: bool)
    requires
        switch_line(key, v) == switch_line(key, Some(on)),
    ensures
        v == Some(on),
{
    reveal_strlit("true");
    reveal_strlit("false");
    assert(switch_line(key, Some(true))[0] == key + "true"@);
    assert(switch_line(key, Some(false))[0] == key + "false"@);
    assert((key + "true"@).len() == key.len() + 4);
    assert((key + "false"@).len() == key.len() + 5);
    assert(switch_line(key, None).len() == 0);
    assert(switch_line(key, Some(on)).len() == 1);
    match v {
        None => {},
        Some(b) => {
            assert(switch_line(key, Some(b))[0] == switch_line(key, Some(on))[0]);
        },
    }
}

/// The lines of section `bignum` determine what it sets.
proof fn lemma_bignum_determined(c: FileConfig, s: FileConfig)
    requires
        from_bignum(c) == from_bignum(s),
        s.bignum.karatsuba_threshold is Some,
        s.bignum.parallel_karatsuba_threshold is Some,
        s.bignum.ntt_threshold is Some,
        s.bignum.newton_div_threshold is Some,
    ensures
        c.bignum.karatsuba_threshold == s.bignum.karatsuba_threshold,
        c.bignum.parallel_karatsuba_threshold == s.bignum.parallel_karatsuba_threshold,
        c.bignum.ntt_threshold == s.bignum.ntt_threshold,
        c.bignum.newton_div_threshold == s.bignum.newton_div_threshold,
        c.bignum.disk_limb_threshold == s.bignum.disk_limb_threshold,
        from_ntt(c) == from_ntt(s),
{
    reveal_strlit("karatsuba_threshold = ");
    reveal_strlit("parallel_karatsuba_threshold = ");
    reveal_strlit("ntt_threshold = ");
    reveal_strlit("newton_div_threshold = ");
    reveal_strlit("disk_limb_threshold = ");
    reveal_strlit("[bignum.ntt]");
    assert(from_ntt(c)[0] == "[bignum.ntt]"@);
    assert(from_bignum(c) =~= seq!["[bignum]"@] + from_bignum(c).skip(1));
    assert(from_bignum(c).skip(1) =~= from_bignum(s).skip(1));
    assert(from_bignum(c).skip(1) =~= size_line("karatsuba_threshold = "@, c.bignum.karatsuba_threshold) + from_parallel_karatsuba_threshold(c));
    assert(from_bignum(s).skip(1) =~= size_line("karatsuba_threshold = "@, s.bignum.karatsuba_threshold) + from_parallel_karatsuba_threshold(s));
    assert(begins(from_parallel_karatsuba_threshold(c), 0, 'p') || begins(from_parallel_karatsuba_threshold(c), 0, 'n') || begins(from_parallel_karatsuba_threshold(c), 0, 'd') || begins(from_parallel_karatsuba_threshold(c), 0, '['));
    let line_1 = size_line("karatsuba_threshold = "@, s.bignum.karatsuba_threshold)[0];
    assert(has_at(line_1, 0, 'k'));
    assert(size_line("karatsuba_threshold = "@, s.bignum.karatsuba_threshold) =~= seq![line_1]);
    lemma_peel(size_line("karatsuba_threshold = "@, c.bignum.karatsuba_threshold), line_1, from_parallel_karatsuba_threshold(c), from_parallel_karatsuba_threshold(s));
    lemma_size_set("karatsuba_threshold = "@, c.bignum.karatsuba_threshold, s.bignum.karatsuba_threshold->0);
    assert(begins(from_ntt_threshold(c), 0, 'n') || begins(from_ntt_threshold(c), 0, 'd') || begins(from_ntt_threshold(c), 0, '['));
    let line_2 = size_line("parallel_karatsuba_threshold = "@, s.bignum.parallel_karatsuba_threshold)[0];
    assert(has_at(line_2, 0, 'p'));
    assert(size_line("parallel_karatsuba_threshold = "@, s.bignum.parallel_karatsuba_threshold) =~= seq![line_2]);
    lemma_peel(size_line("parallel_karatsuba_threshold = "@, c.bignum.parallel_karatsuba_threshold), line_2, from_ntt_threshold(c), from_ntt_threshold(s));
    lemma_size_set("parallel_karatsuba_threshold = "@, c.bignum.parallel_karatsuba_threshold, s.bignum.parallel_karatsuba_threshold->0);
    assert(begins(from_newton_div_threshold(c), 1, 'e') || begins(from_newton_div_threshold(c), 0, 'd') || begins(from_newton_div_threshold(c), 0, '['));
    let line_3 = size_line("ntt_threshold = "@, s.bignum.ntt_threshold)[0];
    assert(has_at(line_3, 0, 'n'));
    assert(has_at(line_3, 1, 't'));
    assert(size_line("ntt_threshold = "@, s.bignum.ntt_threshold) =~= seq![line_3]);
    lemma_peel(size_line("ntt_threshold = "@, c.bignum.ntt_threshold), line_3, from_newton_div_threshold(c), from_newton_div_threshold(s));
    lemma_size_set("ntt_threshold = "@, c.bignum.ntt_threshold, s.bignum.ntt_threshold->0);
    assert(begins(from_disk_limb_threshold(c), 0, 'd') || begins(from_disk_limb_threshold(c), 0, '['));
    let line_4 = size_line("newton_div_threshold = "@, s.bignum.newton_div_threshold)[0];
    assert(has_at(line_4, 0, 'n'));
    assert(size_line("newton_div_threshold = "@, s.bignum.newton_div_threshold) =~= seq![line_4]);
    lemma_peel(size_line("newton_div_threshold = "@, c.bignum.newton_div_threshold), line_4, from_disk_limb_threshold(c), from_disk_limb_threshold(s));
    lemma_size_set("newton_div_threshold = "@, c.bignum.newton_div_threshold, s.bignum.newton_div_threshold->0);
    assert(begins(from_ntt(c), 0, '['));
    if s.bignum.disk_limb_threshold is None {
        assert(size_line("disk_limb_threshold = "@, s.bignum.disk_limb_threshold) + from_ntt(s) =~= from_ntt(s));
        assert(size_line("disk_limb_threshold = "@, c.bignum.disk_limb_threshold).len() == 0) by {
            if c.bignum.disk_limb_threshold is Some {
                assert((size_line("disk_limb_threshold = "@, c.bignum.disk_limb_threshold) + from_ntt(c))[0][0] == 'd');
                assert(from_ntt(s)[0] == "[bignum.ntt]"@);
            }
        }
        assert(size_line("disk_limb_threshold = "@, c.bignum.disk_limb_threshold) + from_ntt(c) =~= from_ntt(c));
    } else {
        let line = size_line("disk_limb_threshold = "@, s.bignum.disk_limb_threshold)[0];
        assert(has_at(line, 0, 'd'));
        assert(size_line("disk_limb_threshold = "@, s.bignum.disk_limb_threshold) =~= seq![line]);
        lemma_peel(size_line("disk_limb_threshold = "@, c.bignum.disk_limb_threshold), line, from_ntt(c), from_ntt(s));
        lemma_size_set("disk_limb_threshold = "@, c.bignum.disk_limb_threshold, s.bignum.disk_limb_threshold->0);
    }
}

/// The lines of section `bignum.ntt` determine what it sets.
proof fn lemma_ntt_determined(c: FileConfig, s: FileConfig)
    requires
        from_ntt(c) == from_ntt(s),
        s.bignum.ntt.target_task_size is Some,
        s.bignum.ntt.parallel_pack_threshold is Some,
        s.bignum.ntt.parallel_pointwise_threshold is Some,
    ensures
        c.bignum.ntt.target_task_size == s.bignum.ntt.target_task_size,
        c.bignum.ntt.parallel_pack_threshold == s.bignum.ntt.parallel_pack_threshold,
        c.bignum.ntt.parallel_pointwise_threshold == s.bignum.ntt.parallel_pointwise_threshold,
        from_chudnovsky(c) == from_chudnovsky(s),
{
    reveal_strlit("target_task_size = ");
    reveal_strlit("parallel_pack_threshold = ");
    reveal_strlit("parallel_pointwise_threshold = ");
    reveal_strlit("[chudnovsky]");
    assert(from_chudnovsky(c)[0] == "[chudnovsky]"@);
    assert(from_ntt(c) =~= seq!["[bignum.ntt]"@] + from_ntt(c).skip(1));
    assert(from_ntt(c).skip(1) =~= from_ntt(s).skip(1));
    assert(from_ntt(c).skip(1) =~= size_line("target_task_size = "@, c.bignum.ntt.target_task_size) + from_parallel_pack_threshold(c));
    assert(from_ntt(s).skip(1) =~= size_line("target_task_size = "@, s.bignum.ntt.target_task_size) + from_parallel_pack_threshold(s));
    assert(begins(from_parallel_pack_threshold(c), 0, 'p') || begins(from_parallel_pack_threshold(c), 0, '['));
    let line_6 = size_line("target_task_size = "@, s.bignum.ntt.target_task_size)[0];
    assert(has_at(line_6, 0, 't'));
    assert(size_line("target_task_size = "@, s.bignum.ntt.target_task_size) =~= seq![line_6]);
    lemma_peel(size_line("target_task_size = "@, c.bignum.ntt.target_task_size), line_6, from_parallel_pack_threshold(c), from_parallel_pack_threshold(s));
    lemma_size_set("target_task_size = "@, c.bignum.ntt.target_task_size, s.bignum.ntt.target_task_size->0);
    assert(begins(from_parallel_pointwise_threshold(c), 10, 'o') || begins(from_parallel_pointwise_threshold(c), 0, '['));
    let line_7 = size_line("parallel_pack_threshold = "@, s.bignum.ntt.parallel_pack_threshold)[0];
    assert(has_at(line_7, 0, 'p'));
    assert(has_at(line_7, 10, 'a'));
    assert(size_line("parallel_pack_threshold = "@, s.bignum.ntt.parallel_pack_threshold) =~= seq![line_7]);
    lemma_peel(size_line("parallel_pack_threshold = "@, c.bignum.ntt.parallel_pack_threshold), line_7, from_parallel_pointwise_threshold(c), from_parallel_pointwise_threshold(s));
    lemma_size_set("parallel_pack_threshold = "@, c.bignum.ntt.parallel_pack_threshold, s.bignum.ntt.parallel_pack_threshold->0);
    assert(begins(from_chudnovsky(c), 0, '['));
    let line_8 = size_line("parallel_pointwise_threshold = "@, s.bignum.ntt.parallel_pointwise_threshold)[0];
    assert(has_at(line_8, 0, 'p'));
    assert(size_line("parallel_pointwise_threshold = "@, s.bignum.ntt.parallel_pointwise_threshold) =~= seq![line_8]);
    lemma_peel(size_line("parallel_pointwise_threshold = "@, c.bignum.ntt.parallel_pointwise_threshold), line_8, from_chudnovsky(c), from_chudnovsky(s));
    lemma_size_set("parallel_pointwise_threshold = "@, c.bignum.ntt.parallel_pointwise_threshold, s.bignum.ntt.parallel_pointwise_threshold->0);
}

/// The lines of section `chudnovsky` determine what it sets.
proof fn lemma_chudnovsky_determined(c: FileConfig, s: FileConfig)
    requires
        from_chudnovsky(c) == from_chudnovsky(s),
        s.chudnovsky.parallel_split_threshold is Some,
        s.chudnovsky.sequential_top_threshold is Some,
        s.chudnovsky.parallel_final_assembly is Some,
    ensures
        c.chudnovsky.parallel_split_threshold == s.chudnovsky.parallel_split_threshold,
        c.chudnovsky.sequential_top_threshold == s.chudnovsky.sequential_top_threshold,
        c.chudnovsky.parallel_final_assembly == s.chudnovsky.parallel_final_assembly,
        from_decimal(c) == from_decimal(s),
{
    reveal_strlit("parallel_split_threshold = ");
    reveal_strlit("sequential_top_threshold = ");
    reveal_strlit("parallel_final_assembly = ");
    reveal_strlit("[decimal_conversion]");
    assert(from_decimal(c)[0] == "[decimal_conversion]"@);
    assert(from_chudnovsky(c) =~= seq!["[chudnovsky]"@] + from_chudnovsky(c).skip(1));
    assert(from_chudnovsky(c).skip(1) =~= from_chudnovsky(s).skip(1));
    assert(from_chudnovsky(c).skip(1) =~= count_line("parallel_split_threshold = "@, c.chudnovsky.parallel_split_threshold) + from_sequential_top_threshold(c));
    assert(from_chudnovsky(s).skip(1) =~= count_line("parallel_split_threshold = "@, s.chudnovsky.parallel_split_threshold) + from_sequential_top_threshold(s));
    assert(begins(from_sequential_top_threshold(c), 0, 's') || begins(from_sequential_top_threshold(c), 9, 'f') || begins(from_sequential_top_threshold(c), 0, '['));
    let line_9 = count_line("parallel_split_threshold = "@, s.chudnovsky.parallel_split_threshold)[0];
    assert(has_at(line_9, 0, 'p'));
    assert(has_at(line_9, 9, 's'));
    assert(count_line("parallel_split_threshold = "@, s.chudnovsky.parallel_split_threshold) =~= seq![line_9]);
    lemma_peel(count_line("parallel_split_threshold = "@, c.chudnovsky.parallel_split_threshold), line_9, from_sequential_top_threshold(c), from_sequential_top_threshold(s));
    lemma_count_set("parallel_split_threshold = "@, c.chudnovsky.parallel_split_threshold, s.chudnovsky.parallel_split_threshold->0);
    assert(begins(from_parallel_final_assembly(c), 0, 'p') || begins(from_parallel_final_assembly(c), 0, '['));
    let line_10 = count_line("sequential_top_threshold = "@, s.chudnovsky.sequential_top_threshold)[0];
    assert(has_at(line_10, 0, 's'));
    assert(count_line("sequential_top_threshold = "@, s.chudnovsky.sequential_top_threshold) =~= seq![line_10]);
    lemma_peel(count_line("sequential_top_threshold = "@, c.chudnovsky.sequential_top_threshold), line_10, from_parallel_final_assembly(c), from_parallel_final_assembly(s));
    lemma_count_set("sequential_top_threshold = "@, c.chudnovsky.sequential_top_threshold, s.chudnovsky.sequential_top_threshold->0);
    assert(begins(from_decimal(c), 0, '['));
    let line_11 = switch_line("parallel_final_assembly = "@, s.chudnovsky.parallel_final_assembly)[0];
    assert(has_at(line_11, 0, 'p'));
    assert(switch_line("parallel_final_assembly = "@, s.chudnovsky.parallel_final_assembly) =~= seq![line_11]);
    lemma_peel(switch_line("parallel_final_assembly = "@, c.chudnovsky.parallel_final_assembly), line_11, from_decimal(c), from_decimal(s));
    lemma_switch_set("parallel_final_assembly = "@, c.chudnovsky.parallel_final_assembly, s.chudnovsky.parallel_final_assembly->0);
}

/// The lines of section `decimal_conversion` determine what it sets.
proof fn lemma_decimal_determined(c: FileConfig, s: FileConfig)
    requires
        from_decimal(c) == from_decimal(s),
        s.decimal_conversion.to_string_dc_threshold is Some,
        s.decimal_conversion.parallel_to_string_threshold is Some,
    ensures
        c.decimal_conversion.to_string_dc_threshold == s.decimal_conversion.to_string_dc_threshold,
        c.decimal_conversion.parallel_to_string_threshold == s.decimal_conversion.parallel_to_string_threshold,
        from_perf(c) == from_perf(s),
{
    reveal_strlit("to_string_dc_threshold = ");
    reveal_strlit("parallel_to_string_threshold = ");
    reveal_strlit("[perf]");
    assert(from_perf(c)[0] == "[perf]"@);
    assert(from_decimal(c) =~= seq!["[decimal_conversion]"@] + from_decimal(c).skip(1));
    assert(from_decimal(c).skip(1) =~= from_decimal(s).skip(1));
    assert(from_decimal(c).skip(1) =~= size_line("to_string_dc_threshold = "@, c.decimal_conversion.to_string_dc_threshold) + from_parallel_to_string_threshold(c));
    assert(from_decimal(s).skip(1) =~= size_line("to_string_dc_threshold = "@, s.decimal_conversion.to_string_dc_threshold) + from_parallel_to_string_threshold(s));
    assert(begins(from_parallel_to_string_threshold(c), 0, 'p') || begins(from_parallel_to_string_threshold(c), 0, '['));
    let line_12 = size_line("to_string_dc_threshold = "@, s.decimal_conversion.to_string_dc_threshold)[0];
    assert(has_at(line_12, 0, 't'));
    assert(size_line("to_string_dc_threshold = "@, s.decimal_conversion.to_string_dc_threshold) =~= seq![line_12]);
    lemma_peel(size_line("to_string_dc_threshold = "@, c.decimal_conversion.to_string_dc_threshold), line_12, from_parallel_to_string_threshold(c), from_parallel_to_string_threshold(s));
    lemma_size_set("to_string_dc_threshold = "@, c.decimal_conversion.to_string_dc_threshold, s.decimal_conversion.to_string_dc_threshold->0);
    assert(begins(from_perf(c), 0, '['));
    let line_13 = size_line("parallel_to_string_threshold = "@, s.decimal_conversion.parallel_to_string_threshold)[0];
    assert(has_at(line_13, 0, 'p'));
    assert(size_line("parallel_to_string_threshold = "@, s.decimal_conversion.parallel_to_string_threshold) =~= seq![line_13]);
    lemma_peel(size_line("parallel_to_string_threshold = "@, c.decimal_conversion.parallel_to_string_threshold), line_13, from_perf(c), from_perf(s));
    lemma_size_set("parallel_to_string_threshold = "@, c.decimal_conversion.parallel_to_string_threshold, s.decimal_conversion.parallel_to_string_threshold->0);
}

/// The lines of section `perf` determine what it sets.
proof fn lemma_perf_determined(c: FileConfig, s: FileConfig)
    requires
        from_perf(c) == from_perf(s),
        s.perf.default_sample_ms is Some,
    ensures
        c.perf.default_sample_ms == s.perf.default_sample_ms,
{
    reveal_strlit("default_sample_ms = ");
    assert(from_perf(c) =~= seq!["[perf]"@] + from_perf(c).skip(1));
    assert(from_perf(c).skip(1) =~= from_perf(s).skip(1));
    assert(from_perf(c).skip(1) =~= count_line("default_sample_ms = "@, c.perf.default_sample_ms) + Seq::<Seq<char>>::empty());
    assert(from_perf(s).skip(1) =~= count_line("default_sample_ms = "@, s.perf.default_sample_ms) + Seq::<Seq<char>>::empty());
    let line_14 = count_line("default_sample_ms = "@, s.perf.default_sample_ms)[0];
    assert(has_at(line_14, 0, 'd'));
    assert(count_line("default_sample_ms = "@, s.perf.default_sample_ms) =~= seq![line_14]);
    lemma_peel(count_line("default_sample_ms = "@, c.perf.default_sample_ms), line_14, Seq::<Seq<char>>::empty(), Seq::<Seq<char>>::empty());
    lemma_count_set("default_sample_ms = "@, c.perf.default_sample_ms, s.perf.default_sample_ms->0);
}

/// The order in which lines are joined does not matter.
proof fn lemma_join(a: Seq<Seq<char>>, b: Seq<Seq<char>>, c: Seq<Seq<char>>)
    ensures
        a + b + c == a + (b + c),
{
    assert(a + b + c =~= a + (b + c));
}

/// Behind two lines.
proof fn lemma_after_two(a: Seq<Seq<char>>, b: Seq<Seq<char>>)
    requires
        a.len() == 2,
    ensures
        (a + b)[1] == a[1],
        (a + b).skip(2) == b,
{
    assert((a + b).skip(2) =~= b);
}

/// Section `bignum` and what follows it.
proof fn lemma_from_bignum(c: FileConfig)
    ensures
        bignum_lines(c) + disk_lines(c) + from_ntt(c) == from_bignum(c),
{
    lemma_join(seq!["[bignum]"@] + size_line("karatsuba_threshold = "@, c.bignum.karatsuba_threshold) + size_line("parallel_karatsuba_threshold = "@, c.bignum.parallel_karatsuba_threshold) + size_line("ntt_threshold = "@, c.bignum.ntt_threshold) + size_line("newton_div_threshold = "@, c.bignum.newton_div_threshold), size_line("disk_limb_threshold = "@, c.bignum.disk_limb_threshold), from_ntt(c));
    lemma_join(seq!["[bignum]"@] + size_line("karatsuba_threshold = "@, c.bignum.karatsuba_threshold) + size_line("parallel_karatsuba_threshold = "@, c.bignum.parallel_karatsuba_threshold) + size_line("ntt_threshold = "@, c.bignum.ntt_threshold), size_line("newton_div_threshold = "@, c.bignum.newton_div_threshold), (size_line("disk_limb_threshold = "@, c.bignum.disk_limb_threshold) + from_ntt(c)));
    lemma_join(seq!["[bignum]"@] + size_line("karatsuba_threshold = "@, c.bignum.karatsuba_threshold) + size_line("parallel_karatsuba_threshold = "@, c.bignum.parallel_karatsuba_threshold), size_line("ntt_threshold = "@, c.bignum.ntt_threshold), (size_line("newton_div_threshold = "@, c.bignum.newton_div_threshold) + (size_line("disk_limb_threshold = "@, c.bignum.disk_limb_threshold) + from_ntt(c))));
    lemma_join(seq!["[bignum]"@] + size_line("karatsuba_threshold = "@, c.bignum.karatsuba_threshold), size_line("parallel_karatsuba_threshold = "@, c.bignum.parallel_karatsuba_threshold), (size_line("ntt_threshold = "@, c.bignum.ntt_threshold) + (size_line("newton_div_threshold = "@, c.bignum.newton_div_threshold) + (size_line("disk_limb_threshold = "@, c.bignum.disk_limb_threshold) + from_ntt(c)))));
    lemma_join(seq!["[bignum]"@], size_line("karatsuba_threshold = "@, c.bignum.karatsuba_threshold), (size_line("parallel_karatsuba_threshold = "@, c.bignum.parallel_karatsuba_threshold) + (size_line("ntt_threshold = "@, c.bignum.ntt_threshold) + (size_line("newton_div_threshold = "@, c.bignum.newton_div_threshold) + (size_line("disk_limb_threshold = "@, c.bignum.disk_limb_threshold) + from_ntt(c))))));
}

/// Section `bignum.ntt` and what follows it.
proof fn lemma_from_ntt(c: FileConfig)
    ensures
        ntt_lines(c) + from_chudnovsky(c) == from_ntt(c),
{
    lemma_join(seq!["[bignum.ntt]"@] + size_line("target_task_size = "@, c.bignum.ntt.target_task_size) + size_line("parallel_pack_threshold = "@, c.bignum.ntt.parallel_pack_threshold), size_line("parallel_pointwise_threshold = "@, c.bignum.ntt.parallel_pointwise_threshold), from_chudnovsky(c));
    lemma_join(seq!["[bignum.ntt]"@] + size_line("target_task_size = "@, c.bignum.ntt.target_task_size), size_line("parallel_pack_threshold = "@, c.bignum.ntt.parallel_pack_threshold), (size_line("parallel_pointwise_threshold = "@, c.bignum.ntt.parallel_pointwise_threshold) + from_chudnovsky(c)));
    lemma_join(seq!["[bignum.ntt]"@], size_line("target_task_size = "@, c.bignum.ntt.target_task_size), (size_line("parallel_pack_threshold = "@, c.bignum.ntt.parallel_pack_threshold) + (size_line("parallel_pointwise_threshold = "@, c.bignum.ntt.parallel_pointwise_threshold) + from_chudnovsky(c))));
}

/// Section `chudnovsky` and what follows it.
proof fn lemma_from_chudnovsky(c: FileConfig)
    ensures
        chudnovsky_lines(c) + from_decimal(c) == from_chudnovsky(c),
{
    lemma_join(seq!["[chudnovsky]"@] + count_line("parallel_split_threshold = "@, c.chudnovsky.parallel_split_threshold) + count_line("sequential_top_threshold = "@, c.chudnovsky.sequential_top_threshold), switch_line("parallel_final_assembly = "@, c.chudnovsky.parallel_final_assembly), from_decimal(c));
    lemma_join(seq!["[chudnovsky]"@] + count_line("parallel_split_threshold = "@, c.chudnovsky.parallel_split_threshold), count_line("sequential_top_threshold = "@, c.chudnovsky.sequential_top_threshold), (switch_line("parallel_final_assembly = "@, c.chudnovsky.parallel_final_assembly) + from_decimal(c)));
    lemma_join(seq!["[chudnovsky]"@], count_line("parallel_split_threshold = "@, c.chudnovsky.parallel_split_threshold), (count_line("sequential_top_threshold = "@, c.chudnovsky.sequential_top_threshold) + (switch_line("parallel_final_assembly = "@, c.chudnovsky.parallel_final_assembly) + from_decimal(c))));
}

/// Section `decimal_conversion` and what follows it.
proof fn lemma_from_decimal(c: FileConfig)
    ensures
        decimal_lines(c) + from_perf(c) == from_decimal(c),
{
    lemma_join(seq!["[decimal_conversion]"@] + size_line("to_string_dc_threshold = "@, c.decimal_conversion.to_string_dc_threshold), size_line("parallel_to_string_threshold = "@, c.decimal_conversion.parallel_to_string_threshold), from_perf(c));
    lemma_join(seq!["[decimal_conversion]"@], size_line("to_string_dc_threshold = "@, c.decimal_conversion.to_string_dc_threshold), (size_line("parallel_to_string_threshold = "@, c.decimal_conversion.parallel_to_string_threshold) + from_perf(c)));
}

/// Section `perf` and what follows it.
proof fn lemma_from_perf(c: FileConfig)
    ensures
        perf_lines(c) == from_perf(c),
{
    assert(count_line("default_sample_ms = "@, c.perf.default_sample_ms) + Seq::<Seq<char>>::empty() =~= count_line("default_sample_ms = "@, c.perf.default_sample_ms));
}

/// All lines.
proof fn lemma_from_start(c: FileConfig)
    ensures
        setting_lines(c) == runtime_lines(c) + from_bignum(c),
{
    lemma_from_perf(c);
    lemma_from_decimal(c);
    lemma_from_chudnovsky(c);
    lemma_from_ntt(c);
    lemma_from_bignum(c);
    let r = runtime_lines(c);
    let b = bignum_lines(c);
    let d = disk_lines(c);
    let n = ntt_lines(c);
    let h = chudnovsky_lines(c);
    let e = decimal_lines(c);
    let f = perf_lines(c);
    lemma_join(r + b + d + n + h, e, f);
    lemma_join(r + b + d + n, h, e + f);
    lemma_join(r + b + d, n, h + (e + f));
    lemma_join(r + b, d, n + (h + (e + f)));
    lemma_join(r, b, d + (n + (h + (e + f))));
    lemma_join(b, d, n + (h + (e + f)));
}

/// The lines of a generated file determine what is set: a reader that finds them
/// finds the values that were picked, and no others.
pub proof fn law_lines_determine(c: FileConfig, k: Knobs)
    requires
        setting_lines(c) == setting_lines(config_gen::settings_of(k)),
    ensures
        c == config_gen::settings_of(k),
{
    let s = config_gen::settings_of(k);
    lemma_from_start(c);
    lemma_from_start(s);
    let (x, y) = (from_bignum(c), from_bignum(s));
    lemma_after_two(runtime_lines(c), x);
    lemma_after_two(runtime_lines(s), y);
    lemma_same_number("threads = "@, c.runtime.threads as int, s.runtime.threads as int);
    lemma_bignum_determined(c, s);
    lemma_ntt_determined(c, s);
    lemma_chudnovsky_determined(c, s);
    lemma_decimal_determined(c, s);
    lemma_perf_determined(c, s);
}

/// A generated file can be loaded back: whatever settings a reader makes of the
/// lines of its text, loading them puts the picked values in force, and leaves
/// the others at their defaults.
pub proof fn law_generated_loads(digits: u64, hw: HardwareProfile, c: FileConfig)
    requires
        plain(hw.os@),
        plain(hw.arch@),
        read(
            config_gen::config_text(digits, hw, config_gen::knobs_for(digits, hw)),
        ).settings == setting_lines(c),
    ensures
        ({
            let k = config_gen::knobs_for(digits, hw);
            &&& c.runtime.threads == 0
            &&& file_config::bignum_overlay(c) == (bignum_config::Config {
                parallel_karatsuba_threshold: k.parallel_karatsuba_threshold,
                parallel_to_string_threshold: k.parallel_to_string_threshold,
                disk_limb_threshold: k.disk_limb_threshold,
                ntt: bignum_config::NttConfig {
                    target_task_size: k.ntt_target_task_size,
                    ..bignum_config::NttConfig::defaults()
                },
                ..bignum_config::Config::defaults()
            })
            &&& forall|p: pi_config::Config| #[trigger]
                file_config::is_pi_overlay(c, p) ==> {
                    &&& p.chudnovsky.parallel_split_threshold == k.parallel_split_threshold
                    &&& p.chudnovsky.sequential_top_threshold == k.sequential_top_threshold
                    &&& p.chudnovsky.parallel_final_assembly == k.parallel_final_assembly
                    &&& p.perf.default_sample_ms == k.default_sample_ms
                }
        }),
{
    let k = config_gen::knobs_for(digits, hw);
    law_text_sets(digits, hw, k);
    law_lines_determine(c, k);
    config_gen::law_settings_load(k);
}

/// `s` ends with a whole line, and sets `l`.
#[verifier::opaque]
spec fn at_start(s: Seq<char>, l: Seq<Seq<char>>) -> bool {
    read(s).settings == l && read(s).open.len() == 0
}

/// `s` ends within a comment, and sets `l`.
#[verifier::opaque]
spec fn in_comment(s: Seq<char>, l: Seq<Seq<char>>) -> bool {
    read(s).settings == l && read(s).open.len() > 0 && read(s).open[0] == '#'
}

/// Reading on within a line.
proof fn lemma_piece(s: Seq<char>, t: Seq<char>)
    requires
        plain(t),
    ensures
        read(s + t) == (Reading { settings: read(s).settings, open: read(s).open + t }),
    decreases t.len(),
{
    if t.len() == 0 {
        assert(s + t =~= s);
        assert(read(s).open + t =~= read(s).open);
    } else {
        let u = t.drop_last();
        assert forall|i: int| 0 <= i < u.len() implies #[trigger] u[i] != '\n' by {
            assert(u[i] == t[i]);
        }
        lemma_piece(s, u);
        assert((s + t).drop_last() =~= s + u);
        assert((s + t).last() == t[t.len() - 1]);
        assert((read(s).open + u).push(t.last()) =~= read(s).open + t);
    }
}

/// Reading a line end.
proof fn lemma_end(s: Seq<char>)
    ensures
        read(s + "\n"@).open.len() == 0,
        read(s + "\n"@).settings == if read(s).open.len() == 0 || read(s).open[0] == '#' {
            read(s).settings
        } else {
            read(s).settings.push(read(s).open)
        },
{
    reveal_strlit("\n");
    assert((s + "\n"@).drop_last() =~= s);
    assert((s + "\n"@).last() == '\n');
}

proof fn comment_begin(s: Seq<char>, t: Seq<char>, l: Seq<Seq<char>>) -> (r: Seq<char>)
    requires
        at_start(s, l),
        plain(t),
        t.len() > 0,
        t[0] == '#',
    ensures
        r == s + t,
        in_comment(r, l),
{
    reveal(at_start);
    reveal(in_comment);
    lemma_piece(s, t);
    s + t
}

proof fn comment_more(s: Seq<char>, t: Seq<char>, l: Seq<Seq<char>>) -> (r: Seq<char>)
    requires
        in_comment(s, l),
        plain(t),
    ensures
        r == s + t,
        in_comment(r, l),
{
    reveal(in_comment);
    lemma_piece(s, t);
    s + t
}

proof fn comment_end(s: Seq<char>, l: Seq<Seq<char>>) -> (r: Seq<char>)
    requires
        in_comment(s, l),
    ensures
        r == s + "\n"@,
        at_start(r, l),
{
    reveal(at_start);
    reveal(in_comment);
    lemma_end(s);
    s + "\n"@
}

proof fn comment_line(s: Seq<char>, t: Seq<char>, l: Seq<Seq<char>>) -> (r: Seq<char>)
    requires
        at_start(s, l),
        plain(t),
        t.len() > 0,
        t[0] == '#',
    ensures
        r == config_gen::line(s, t),
        at_start(r, l),
{
    let begun = comment_begin(s, t, l);
    comment_end(begun, l)
}

proof fn blank_line(s: Seq<char>, l: Seq<Seq<char>>) -> (r: Seq<char>)
    requires
        at_start(s, l),
    ensures
        r == s + "\n"@,
        at_start(r, l),
{
    reveal(at_start);
    lemma_end(s);
    s + "\n"@
}

proof fn setting_line(s: Seq<char>, t: Seq<char>, l: Seq<Seq<char>>) -> (r: Seq<char>)
    requires
        at_start(s, l),
        plain(t),
        t.len() > 0,
        t[0] != '#',
    ensures
        r == config_gen::line(s, t),
        at_start(r, l.push(t)),
{
    reveal(at_start);
    lemma_piece(s, t);
    lemma_end(s + t);
    assert(read(s).open + t =~= t);
    config_gen::line(s, t)
}

proof fn setting_number(s: Seq<char>, key: Seq<char>, n: int, l: Seq<Seq<char>>) -> (r: Seq<char>)
    requires
        at_start(s, l),
        plain(key),
        key.len() > 0,
        key[0] != '#',
        n >= 0,
    ensures
        r == s + key + text::numeral(n, 10) + "\n"@,
        at_start(r, l.push(key + text::numeral(n, 10))),
{
    let t = key + text::numeral(n, 10);
    lemma_numeral_plain(n);
    assert(plain(t));
    assert(s + t =~= s + key + text::numeral(n, 10));
    setting_line(s, t, l)
}

proof fn comment_number(s: Seq<char>, n: int, l: Seq<Seq<char>>) -> (r: Seq<char>)
    requires
        in_comment(s, l),
        n >= 0,
    ensures
        r == s + text::numeral(n, 10),
        in_comment(r, l),
{
    lemma_numeral_plain(n);
    comment_more(s, text::numeral(n, 10), l)
}

proof fn comment_thousands(s: Seq<char>, n: nat, l: Seq<Seq<char>>) -> (r: Seq<char>)
    requires
        in_comment(s, l),
    ensures
        r == s + display::thousands(n),
        in_comment(r, l),
{
    lemma_thousands_plain(n);
    comment_more(s, display::thousands(n), l)
}

proof fn comment_fixed(s: Seq<char>, d: Double, places: nat, l: Seq<Seq<char>>) -> (r: Seq<char>)
    requires
        in_comment(s, l),
    ensures
        r == s + double::fixed_text(d, places),
        in_comment(r, l),
{
    lemma_fixed_plain(d, places);
    comment_more(s, double::fixed_text(d, places), l)
}

/// Numerals hold digits only.
proof fn lemma_numeral_plain(n: int)
    requires
        n >= 0,
    ensures
        plain(text::numeral(n, 10)),
    decreases n,
{
    if n >= 10 {
        lemma_numeral_plain(n / 10);
    }
}

/// So do padded numerals.
proof fn lemma_padded_plain(n: int, len: nat)
    requires
        n >= 0,
    ensures
        plain(text::padded(n, 10, len)),
    decreases len,
{
    if len > 0 {
        lemma_padded_plain(n / 10, (len - 1) as nat);
    }
}

proof fn lemma_thousands_plain(n: nat)
    ensures
        plain(display::thousands(n)),
    decreases n,
{
    if n < 1000 {
        lemma_numeral_plain(n as int);
    } else {
        lemma_thousands_plain(n / 1000);
        lemma_padded_plain(n as int % 1000, 3);
    }
}

proof fn lemma_fixed_plain(d: Double, places: nat)
    ensures
        plain(double::fixed_text(d, places)),
{
    let n = d.units(places);
    let m = d.mant * pow(10, places);
    lemma_pow_positive(10, places);
    assert(m >= 0) by (nonlinear_arith)
        requires
            d.mant >= 0,
            pow(10, places) > 0,
            m == d.mant * pow(10, places),
    ;
    if d.exp >= 0 {
        lemma_pow2_pos(d.exp as nat);
        lemma_mul_nonnegative(m, pow2(d.exp as nat) as int);
    } else {
        let p = pow2((-d.exp) as nat) as int;
        lemma_pow2_pos((-d.exp) as nat);
        lemma_div_pos_is_pos(m, p);
    }
    assert(n >= 0);
    lemma_div_pos_is_pos(n, pow(10, places));
    lemma_mod_bound(n, pow(10, places));
    lemma_numeral_plain(n);
    lemma_numeral_plain(n / pow(10, places));
    lemma_padded_plain(n % pow(10, places), places);
}

proof fn lemma_ram_plain(ram_bytes: u64, ram: Double)
    ensures
        plain(config_gen::ram_words(ram_bytes, ram)),
{
    reveal_strlit(" GB");
    reveal_strlit("unknown");
    lemma_fixed_plain(ram, 1);
}

proof fn lemma_mode_plain(mode: MemoryMode)
    ensures
        plain(mode.words()),
{
    reveal_strlit("Speed");
    reveal_strlit("Moderate");
    reveal_strlit("Conservative");
}

/// The head sets nothing.
proof fn lemma_header_lines(s0: Seq<char>, digits: u64, hw: HardwareProfile, k: Knobs, l0: Seq<Seq<char>>)
    requires
        at_start(s0, l0),
        plain(hw.os@),
        plain(hw.arch@),
    ensures
        at_start(config_gen::header_text(s0, digits, hw, k), l0),
{
    let mut s: Seq<char> = s0;
    let l = l0;
    reveal_strlit("# =============================================================================");
    s = comment_line(s, "# ============================================================================="@, l);
    reveal_strlit("# Generated by `pi --generate-config ");
    s = comment_begin(s, "# Generated by `pi --generate-config "@, l);
    s = comment_number(s, digits as int, l);
    reveal_strlit("`");
    s = comment_more(s, "`"@, l);
    s = comment_end(s, l);
    reveal_strlit("# Host: ");
    s = comment_begin(s, "# Host: "@, l);
    s = comment_number(s, hw.logical_cores as int, l);
    reveal_strlit(" cores logical (");
    s = comment_more(s, " cores logical ("@, l);
    s = comment_number(s, hw.physical_cores as int, l);
    reveal_strlit(" physical), ");
    s = comment_more(s, " physical), "@, l);
    lemma_ram_plain(hw.ram_bytes, k.ram);
    s = comment_more(s, config_gen::ram_words(hw.ram_bytes, k.ram), l);
    reveal_strlit(" RAM, ");
    s = comment_more(s, " RAM, "@, l);
    s = comment_more(s, hw.os@, l);
    reveal_strlit("/");
    s = comment_more(s, "/"@, l);
    s = comment_more(s, hw.arch@, l);
    s = comment_end(s, l);
    reveal_strlit("# Target: ");
    s = comment_begin(s, "# Target: "@, l);
    s = comment_thousands(s, digits as nat, l);
    reveal_strlit(" digits");
    s = comment_more(s, " digits"@, l);
    s = comment_end(s, l);
    reveal_strlit("# Estimated peak RSS at full parallelism: ");
    s = comment_begin(s, "# Estimated peak RSS at full parallelism: "@, l);
    s = comment_fixed(s, k.est, 1, l);
    reveal_strlit(" GB");
    s = comment_more(s, " GB"@, l);
    s = comment_end(s, l);
    reveal_strlit("#   (linear extrapolation from a measured 5.4 GB at 100M; peak is set by");
    s = comment_line(s, "#   (linear extrapolation from a measured 5.4 GB at 100M; peak is set by"@, l);
    reveal_strlit("#    top-of-tree integers + NTT scratch, which do not scale with core count)");
    s = comment_line(s, "#    top-of-tree integers + NTT scratch, which do not scale with core count)"@, l);
    reveal_strlit("# Memory mode: ");
    s = comment_begin(s, "# Memory mode: "@, l);
    lemma_mode_plain(k.mode);
    s = comment_more(s, k.mode.words(), l);
    s = comment_end(s, l);
}

/// The reasons set nothing.
proof fn lemma_rationale_lines(s0: Seq<char>, k: Knobs, l0: Seq<Seq<char>>)
    requires
        at_start(s0, l0),
    ensures
        at_start(config_gen::rationale_text(s0, k), l0),
{
    let mut s: Seq<char> = s0;
    let l = l0;
    if k.ram.mant == 0 {
        reveal_strlit("# (RAM unknown — defaulting to Conservative mode.)");
        s = comment_line(s, "# (RAM unknown — defaulting to Conservative mode.)"@, l);
    } else {
        if k.mode == MemoryMode::Speed {
            reveal_strlit("#   Estimated peak ");
            s = comment_begin(s, "#   Estimated peak "@, l);
            s = comment_fixed(s, k.est, 1, l);
            reveal_strlit(" GB is ");
            s = comment_more(s, " GB is "@, l);
            s = comment_fixed(s, k.percent, 0, l);
            reveal_strlit("% of RAM (< 50%) —");
            s = comment_more(s, "% of RAM (< 50%) —"@, l);
            s = comment_end(s, l);
            reveal_strlit("#   speed-tuned defaults; no memory-conservative knobs active.");
            s = comment_line(s, "#   speed-tuned defaults; no memory-conservative knobs active."@, l);
        } else {
            if k.mode == MemoryMode::Moderate {
                reveal_strlit("#   Estimated peak ");
                s = comment_begin(s, "#   Estimated peak "@, l);
                s = comment_fixed(s, k.est, 1, l);
                reveal_strlit(" GB is ");
                s = comment_more(s, " GB is "@, l);
                s = comment_fixed(s, k.percent, 0, l);
                reveal_strlit("% of RAM (50–80%) —");
                s = comment_more(s, "% of RAM (50–80%) —"@, l);
                s = comment_end(s, l);
                reveal_strlit("#   sequential final-assembly to keep one less GB-class Float chain");
                s = comment_line(s, "#   sequential final-assembly to keep one less GB-class Float chain"@, l);
                reveal_strlit("#   live at a time.");
                s = comment_line(s, "#   live at a time."@, l);
            } else {
                reveal_strlit("#   Estimated peak ");
                s = comment_begin(s, "#   Estimated peak "@, l);
                s = comment_fixed(s, k.est, 1, l);
                reveal_strlit(" GB exceeds 80% of RAM (");
                s = comment_more(s, " GB exceeds 80% of RAM ("@, l);
                s = comment_fixed(s, k.ram, 1, l);
                reveal_strlit(" GB) —");
                s = comment_more(s, " GB) —"@, l);
                s = comment_end(s, l);
                reveal_strlit("#   sequential binary-split top AND sequential final-assembly to");
                s = comment_line(s, "#   sequential binary-split top AND sequential final-assembly to"@, l);
                reveal_strlit("#   bound concurrent NTT scratch.  Some swap activity expected; the");
                s = comment_line(s, "#   bound concurrent NTT scratch.  Some swap activity expected; the"@, l);
                reveal_strlit("#   run completes but watch `major_faults` in --performance-file.");
                s = comment_line(s, "#   run completes but watch `major_faults` in --performance-file."@, l);
            }
        }
    }
}

/// Section `runtime`.
proof fn lemma_runtime_lines(s0: Seq<char>, hw: HardwareProfile, k: Knobs, l0: Seq<Seq<char>>)
    requires
        at_start(s0, l0),
    ensures
        at_start(config_gen::runtime_text(s0, hw), l0 + runtime_lines(config_gen::settings_of(k))),
{
    let mut s: Seq<char> = s0;
    let mut l: Seq<Seq<char>> = l0;
    reveal_strlit("# =============================================================================");
    s = comment_line(s, "# ============================================================================="@, l);
    s = blank_line(s, l);
    reveal_strlit("[runtime]");
    s = setting_line(s, "[runtime]"@, l);
    l = l.push("[runtime]"@);
    reveal_strlit("# 0 = autodetect (rayon will pick ");
    s = comment_begin(s, "# 0 = autodetect (rayon will pick "@, l);
    s = comment_number(s, hw.logical_cores as int, l);
    reveal_strlit(").  Set non-zero to leave headroom");
    s = comment_more(s, ").  Set non-zero to leave headroom"@, l);
    s = comment_end(s, l);
    reveal_strlit("# for other processes or to confine to a NUMA node.");
    s = comment_line(s, "# for other processes or to confine to a NUMA node."@, l);
    reveal_strlit("threads = 0");
    s = setting_line(s, "threads = 0"@, l);
    l = l.push("threads = 0"@);
    s = blank_line(s, l);
    assert("threads = 0"@ =~= "threads = "@ + text::numeral(0, 10)) by {
        reveal_strlit("threads = 0");
        reveal_strlit("threads = ");
        reveal_with_fuel(text::numeral, 2);
    }
    assert(l =~= l0 + runtime_lines(config_gen::settings_of(k)));
}

/// Section `bignum`, up to the disk threshold.
proof fn lemma_bignum_lines(s0: Seq<char>, k: Knobs, hw: HardwareProfile, l0: Seq<Seq<char>>)
    requires
        at_start(s0, l0),
    ensures
        at_start(config_gen::bignum_text(s0, k, hw), l0 + bignum_lines(config_gen::settings_of(k))),
{
    let mut s: Seq<char> = s0;
    let mut l: Seq<Seq<char>> = l0;
    reveal_strlit("[bignum]");
    s = setting_line(s, "[bignum]"@, l);
    l = l.push("[bignum]"@);
    reveal_strlit("# Algorithmic crossover, doesn't shift with hardware.");
    s = comment_line(s, "# Algorithmic crossover, doesn't shift with hardware."@, l);
    reveal_strlit("karatsuba_threshold = 32");
    s = setting_line(s, "karatsuba_threshold = 32"@, l);
    l = l.push("karatsuba_threshold = 32"@);
    s = blank_line(s, l);
    reveal_strlit("# Parallel-Karatsuba sub-multiplications begin at this size.");
    s = comment_line(s, "# Parallel-Karatsuba sub-multiplications begin at this size."@, l);
    reveal_strlit("# Picked ");
    s = comment_begin(s, "# Picked "@, l);
    s = comment_number(s, k.parallel_karatsuba_threshold as int, l);
    reveal_strlit(" for ");
    s = comment_more(s, " for "@, l);
    s = comment_number(s, hw.logical_cores as int, l);
    reveal_strlit("-core hosts: smaller chunks fan");
    s = comment_more(s, "-core hosts: smaller chunks fan"@, l);
    s = comment_end(s, l);
    reveal_strlit("# out work better; the laptop default 512 is right for ≤12 cores.");
    s = comment_line(s, "# out work better; the laptop default 512 is right for ≤12 cores."@, l);
    reveal_strlit("parallel_karatsuba_threshold = ");
    s = setting_number(s, "parallel_karatsuba_threshold = "@, k.parallel_karatsuba_threshold as int, l);
    l = l.push("parallel_karatsuba_threshold = "@ + text::numeral(k.parallel_karatsuba_threshold as int, 10));
    s = blank_line(s, l);
    reveal_strlit("# NTT engages at this limb count.  Algorithmic crossover (≈Karatsuba ↔ NTT");
    s = comment_line(s, "# NTT engages at this limb count.  Algorithmic crossover (≈Karatsuba ↔ NTT"@, l);
    reveal_strlit("# transition) and shifts little with hardware.");
    s = comment_line(s, "# transition) and shifts little with hardware."@, l);
    reveal_strlit("ntt_threshold = 8192");
    s = setting_line(s, "ntt_threshold = 8192"@, l);
    l = l.push("ntt_threshold = 8192"@);
    s = blank_line(s, l);
    reveal_strlit("# Newton-Raphson reciprocal division above this size.  Algorithmic.");
    s = comment_line(s, "# Newton-Raphson reciprocal division above this size.  Algorithmic."@, l);
    reveal_strlit("newton_div_threshold = 64");
    s = setting_line(s, "newton_div_threshold = 64"@, l);
    l = l.push("newton_div_threshold = 64"@);
    s = blank_line(s, l);
    assert("karatsuba_threshold = 32"@ =~= "karatsuba_threshold = "@ + text::numeral(32, 10)) by {
        reveal_strlit("karatsuba_threshold = 32");
        reveal_strlit("karatsuba_threshold = ");
        reveal_with_fuel(text::numeral, 3);
    }
    assert("ntt_threshold = 8192"@ =~= "ntt_threshold = "@ + text::numeral(8192, 10)) by {
        reveal_strlit("ntt_threshold = 8192");
        reveal_strlit("ntt_threshold = ");
        reveal_with_fuel(text::numeral, 5);
    }
    assert("newton_div_threshold = 64"@ =~= "newton_div_threshold = "@ + text::numeral(64, 10)) by {
        reveal_strlit("newton_div_threshold = 64");
        reveal_strlit("newton_div_threshold = ");
        reveal_with_fuel(text::numeral, 3);
    }
    assert(l =~= l0 + bignum_lines(config_gen::settings_of(k)));
}

/// The disk threshold.
proof fn lemma_disk_lines(s0: Seq<char>, k: Knobs, l0: Seq<Seq<char>>)
    requires
        at_start(s0, l0),
    ensures
        at_start(config_gen::disk_text(s0, k), l0 + disk_lines(config_gen::settings_of(k))),
{
    let mut s: Seq<char> = s0;
    let mut l: Seq<Seq<char>> = l0;
    if k.disk_limb_threshold == usize::MAX {
        reveal_strlit("# Disk-backed integer storage is disabled — peak RSS is");
        s = comment_line(s, "# Disk-backed integer storage is disabled — peak RSS is"@, l);
        reveal_strlit("# expected to fit comfortably in RAM.  Set lower to push");
        s = comment_line(s, "# expected to fit comfortably in RAM.  Set lower to push"@, l);
        reveal_strlit("# the biggest Integers to mmap'd scratch files (see");
        s = comment_line(s, "# the biggest Integers to mmap'd scratch files (see"@, l);
        reveal_strlit("# bignum::storage), at a wall-time cost from SSD access.");
        s = comment_line(s, "# bignum::storage), at a wall-time cost from SSD access."@, l);
        reveal_strlit("# disk_limb_threshold = 18446744073709551615   # usize::MAX = disabled");
        s = comment_line(s, "# disk_limb_threshold = 18446744073709551615   # usize::MAX = disabled"@, l);
    } else {
        reveal_strlit("# MEMORY-CONSERVATIVE: Integer limb buffers ≥ ");
        s = comment_begin(s, "# MEMORY-CONSERVATIVE: Integer limb buffers ≥ "@, l);
        s = comment_thousands(s, k.disk_limb_threshold as nat, l);
        reveal_strlit(" limbs");
        s = comment_more(s, " limbs"@, l);
        s = comment_end(s, l);
        reveal_strlit("# (~");
        s = comment_begin(s, "# (~"@, l);
        s = comment_number(s, k.disk_limb_threshold as int * 8 / 0x10_0000, l);
        reveal_strlit(" MB each) are allocated via `mmap`-backed scratch");
        s = comment_more(s, " MB each) are allocated via `mmap`-backed scratch"@, l);
        s = comment_end(s, l);
        reveal_strlit("# files in `$TMPDIR` instead of heap memory.  Active because");
        s = comment_line(s, "# files in `$TMPDIR` instead of heap memory.  Active because"@, l);
        reveal_strlit("# estimated peak (");
        s = comment_begin(s, "# estimated peak ("@, l);
        s = comment_fixed(s, k.est, 1, l);
        reveal_strlit(" GB) > 70% of available RAM (");
        s = comment_more(s, " GB) > 70% of available RAM ("@, l);
        s = comment_fixed(s, k.ram, 1, l);
        reveal_strlit(" GB).");
        s = comment_more(s, " GB)."@, l);
        s = comment_end(s, l);
        reveal_strlit("# Run wall time will rise (SSD bandwidth replaces RAM); the");
        s = comment_line(s, "# Run wall time will rise (SSD bandwidth replaces RAM); the"@, l);
        reveal_strlit("# trade-off is what makes 1B-10B runs feasible on this box.");
        s = comment_line(s, "# trade-off is what makes 1B-10B runs feasible on this box."@, l);
        reveal_strlit("disk_limb_threshold = ");
        s = setting_number(s, "disk_limb_threshold = "@, k.disk_limb_threshold as int, l);
        l = l.push("disk_limb_threshold = "@ + text::numeral(k.disk_limb_threshold as int, 10));
    }
    s = blank_line(s, l);
    assert(l =~= l0 + disk_lines(config_gen::settings_of(k)));
}

/// Section `bignum.ntt`.
proof fn lemma_ntt_lines(s0: Seq<char>, k: Knobs, hw: HardwareProfile, l0: Seq<Seq<char>>)
    requires
        at_start(s0, l0),
    ensures
        at_start(config_gen::ntt_text(s0, k, hw), l0 + ntt_lines(config_gen::settings_of(k))),
{
    let mut s: Seq<char> = s0;
    let mut l: Seq<Seq<char>> = l0;
    reveal_strlit("[bignum.ntt]");
    s = setting_line(s, "[bignum.ntt]"@, l);
    l = l.push("[bignum.ntt]"@);
    reveal_strlit("# Per-rayon-task work in butterfly passes (u64 elements).  Sized so");
    s = comment_line(s, "# Per-rayon-task work in butterfly passes (u64 elements).  Sized so"@, l);
    reveal_strlit("# each task fits in L2 cache; smaller values spread work across more");
    s = comment_line(s, "# each task fits in L2 cache; smaller values spread work across more"@, l);
    reveal_strlit("# cores at the cost of more task overhead.  Picked ");
    s = comment_begin(s, "# cores at the cost of more task overhead.  Picked "@, l);
    s = comment_number(s, k.ntt_target_task_size as int, l);
    s = comment_end(s, l);
    reveal_strlit("# for a ");
    s = comment_begin(s, "# for a "@, l);
    s = comment_number(s, hw.logical_cores as int, l);
    reveal_strlit("-core host (≈");
    s = comment_more(s, "-core host (≈"@, l);
    s = comment_number(s, k.ntt_target_task_size as int * 8 / 1024, l);
    reveal_strlit(" KB per task).");
    s = comment_more(s, " KB per task)."@, l);
    s = comment_end(s, l);
    reveal_strlit("target_task_size = ");
    s = setting_number(s, "target_task_size = "@, k.ntt_target_task_size as int, l);
    l = l.push("target_task_size = "@ + text::numeral(k.ntt_target_task_size as int, 10));
    s = blank_line(s, l);
    reveal_strlit("# Pack / pointwise-mul parallelism cross-overs.  Defaults work");
    s = comment_line(s, "# Pack / pointwise-mul parallelism cross-overs.  Defaults work"@, l);
    reveal_strlit("# across a wide core range.");
    s = comment_line(s, "# across a wide core range."@, l);
    reveal_strlit("parallel_pack_threshold = 1024");
    s = setting_line(s, "parallel_pack_threshold = 1024"@, l);
    l = l.push("parallel_pack_threshold = 1024"@);
    reveal_strlit("parallel_pointwise_threshold = 1024");
    s = setting_line(s, "parallel_pointwise_threshold = 1024"@, l);
    l = l.push("parallel_pointwise_threshold = 1024"@);
    s = blank_line(s, l);
    assert("parallel_pack_threshold = 1024"@ =~= "parallel_pack_threshold = "@ + text::numeral(1024, 10)) by {
        reveal_strlit("parallel_pack_threshold = 1024");
        reveal_strlit("parallel_pack_threshold = ");
        reveal_with_fuel(text::numeral, 5);
    }
    assert("parallel_pointwise_threshold = 1024"@ =~= "parallel_pointwise_threshold = "@ + text::numeral(1024, 10)) by {
        reveal_strlit("parallel_pointwise_threshold = 1024");
        reveal_strlit("parallel_pointwise_threshold = ");
        reveal_with_fuel(text::numeral, 5);
    }
    assert(l =~= l0 + ntt_lines(config_gen::settings_of(k)));
}

/// Section `chudnovsky`.
#[verifier::spinoff_prover]
#[verifier::rlimit(60)]
proof fn lemma_chudnovsky_lines(s0: Seq<char>, k: Knobs, hw: HardwareProfile, l0: Seq<Seq<char>>)
    requires
        at_start(s0, l0),
    ensures
        at_start(config_gen::chudnovsky_text(s0, k, hw), l0 + chudnovsky_lines(config_gen::settings_of(k))),
{
    let mut s: Seq<char> = s0;
    let mut l: Seq<Seq<char>> = l0;
    reveal_strlit("[chudnovsky]");
    s = setting_line(s, "[chudnovsky]"@, l);
    l = l.push("[chudnovsky]"@);
    reveal_strlit("# Binary-split sub-trees with ≥ this many terms run in parallel via");
    s = comment_line(s, "# Binary-split sub-trees with ≥ this many terms run in parallel via"@, l);
    reveal_strlit("# rayon::join.  Picked ");
    s = comment_begin(s, "# rayon::join.  Picked "@, l);
    s = comment_number(s, k.parallel_split_threshold as int, l);
    reveal_strlit(" for ");
    s = comment_more(s, " for "@, l);
    s = comment_number(s, hw.logical_cores as int, l);
    reveal_strlit(" cores.");
    s = comment_more(s, " cores."@, l);
    s = comment_end(s, l);
    reveal_strlit("parallel_split_threshold = ");
    s = setting_number(s, "parallel_split_threshold = "@, k.parallel_split_threshold as int, l);
    l = l.push("parallel_split_threshold = "@ + text::numeral(k.parallel_split_threshold as int, 10));
    s = blank_line(s, l);
    if k.sequential_top_threshold > 0 {
        reveal_strlit("# MEMORY-CONSERVATIVE: sub-trees at or above ");
        s = comment_begin(s, "# MEMORY-CONSERVATIVE: sub-trees at or above "@, l);
        s = comment_thousands(s, k.sequential_top_threshold as nat, l);
        reveal_strlit(" terms (the top");
        s = comment_more(s, " terms (the top"@, l);
        s = comment_end(s, l);
        reveal_strlit("# few levels of the tree) serialise instead of parallelising, so");
        s = comment_line(s, "# few levels of the tree) serialise instead of parallelising, so"@, l);
        reveal_strlit("# at most one huge NTT scratch pair is live at the top.  Active");
        s = comment_line(s, "# at most one huge NTT scratch pair is live at the top.  Active"@, l);
        reveal_strlit("# because estimated peak (");
        s = comment_begin(s, "# because estimated peak ("@, l);
        s = comment_fixed(s, k.est, 1, l);
        reveal_strlit(" GB) > 80% of available RAM (");
        s = comment_more(s, " GB) > 80% of available RAM ("@, l);
        s = comment_fixed(s, k.ram, 1, l);
        reveal_strlit(" GB).");
        s = comment_more(s, " GB)."@, l);
        s = comment_end(s, l);
        reveal_strlit("sequential_top_threshold = ");
        s = setting_number(s, "sequential_top_threshold = "@, k.sequential_top_threshold as int, l);
        l = l.push("sequential_top_threshold = "@ + text::numeral(k.sequential_top_threshold as int, 10));
    } else {
        reveal_strlit("# 0 = no upper cap; binary-split fully parallel at every level.");
        s = comment_line(s, "# 0 = no upper cap; binary-split fully parallel at every level."@, l);
        reveal_strlit("# Estimated peak fits comfortably in RAM — no sequential cap needed.");
        s = comment_line(s, "# Estimated peak fits comfortably in RAM — no sequential cap needed."@, l);
        reveal_strlit("sequential_top_threshold = 0");
        s = setting_line(s, "sequential_top_threshold = 0"@, l);
        l = l.push("sequential_top_threshold = 0"@);
    }
    s = blank_line(s, l);
    if !k.parallel_final_assembly {
        reveal_strlit("# MEMORY-CONSERVATIVE: sqrt-chain and reciprocal run sequentially");
        s = comment_line(s, "# MEMORY-CONSERVATIVE: sqrt-chain and reciprocal run sequentially"@, l);
        reveal_strlit("# so only one chain's Float intermediates are live at a time.");
        s = comment_line(s, "# so only one chain's Float intermediates are live at a time."@, l);
        reveal_strlit("# Costs ~10% wall in final assembly; saves multi-GB at billion+ scale.");
        s = comment_line(s, "# Costs ~10% wall in final assembly; saves multi-GB at billion+ scale."@, l);
        reveal_strlit("parallel_final_assembly = false");
        s = setting_line(s, "parallel_final_assembly = false"@, l);
        l = l.push("parallel_final_assembly = false"@);
    } else {
        reveal_strlit("# Parallel chains in final assembly — they fill each other's NTT");
        s = comment_line(s, "# Parallel chains in final assembly — they fill each other's NTT"@, l);
        reveal_strlit("# serial pockets (~10% faster, more concurrent Float intermediates).");
        s = comment_line(s, "# serial pockets (~10% faster, more concurrent Float intermediates)."@, l);
        reveal_strlit("parallel_final_assembly = true");
        s = setting_line(s, "parallel_final_assembly = true"@, l);
        l = l.push("parallel_final_assembly = true"@);
    }
    s = blank_line(s, l);
    assert("sequential_top_threshold = 0"@ =~= "sequential_top_threshold = "@ + text::numeral(0, 10)) by {
        reveal_strlit("sequential_top_threshold = 0");
        reveal_strlit("sequential_top_threshold = ");
        reveal_with_fuel(text::numeral, 2);
    }
    assert("parallel_final_assembly = false"@ =~= "parallel_final_assembly = "@ + "false"@) by {
        reveal_strlit("parallel_final_assembly = false");
        reveal_strlit("parallel_final_assembly = ");
        reveal_strlit("false");
    }
    assert("parallel_final_assembly = true"@ =~= "parallel_final_assembly = "@ + "true"@) by {
        reveal_strlit("parallel_final_assembly = true");
        reveal_strlit("parallel_final_assembly = ");
        reveal_strlit("true");
    }
    assert(l =~= l0 + chudnovsky_lines(config_gen::settings_of(k)));
}

/// Section `decimal_conversion`.
proof fn lemma_decimal_lines(s0: Seq<char>, k: Knobs, hw: HardwareProfile, l0: Seq<Seq<char>>)
    requires
        at_start(s0, l0),
    ensures
        at_start(config_gen::decimal_text(s0, k, hw), l0 + decimal_lines(config_gen::settings_of(k))),
{
    let mut s: Seq<char> = s0;
    let mut l: Seq<Seq<char>> = l0;
    reveal_strlit("[decimal_conversion]");
    s = setting_line(s, "[decimal_conversion]"@, l);
    l = l.push("[decimal_conversion]"@);
    reveal_strlit("# Algorithmic crossover, unchanged with hardware.");
    s = comment_line(s, "# Algorithmic crossover, unchanged with hardware."@, l);
    reveal_strlit("to_string_dc_threshold = 32");
    s = setting_line(s, "to_string_dc_threshold = 32"@, l);
    l = l.push("to_string_dc_threshold = 32"@);
    s = blank_line(s, l);
    reveal_strlit("# D&C base-conversion parallelism crossover.  Picked ");
    s = comment_begin(s, "# D&C base-conversion parallelism crossover.  Picked "@, l);
    s = comment_number(s, k.parallel_to_string_threshold as int, l);
    s = comment_end(s, l);
    reveal_strlit("# for ");
    s = comment_begin(s, "# for "@, l);
    s = comment_number(s, hw.logical_cores as int, l);
    reveal_strlit(" cores.");
    s = comment_more(s, " cores."@, l);
    s = comment_end(s, l);
    reveal_strlit("parallel_to_string_threshold = ");
    s = setting_number(s, "parallel_to_string_threshold = "@, k.parallel_to_string_threshold as int, l);
    l = l.push("parallel_to_string_threshold = "@ + text::numeral(k.parallel_to_string_threshold as int, 10));
    s = blank_line(s, l);
    assert("to_string_dc_threshold = 32"@ =~= "to_string_dc_threshold = "@ + text::numeral(32, 10)) by {
        reveal_strlit("to_string_dc_threshold = 32");
        reveal_strlit("to_string_dc_threshold = ");
        reveal_with_fuel(text::numeral, 3);
    }
    assert(l =~= l0 + decimal_lines(config_gen::settings_of(k)));
}

/// Section `perf`.
proof fn lemma_perf_lines(s0: Seq<char>, digits: u64, k: Knobs, l0: Seq<Seq<char>>)
    requires
        at_start(s0, l0),
    ensures
        at_start(config_gen::perf_text(s0, digits, k), l0 + perf_lines(config_gen::settings_of(k))),
{
    let mut s: Seq<char> = s0;
    let mut l: Seq<Seq<char>> = l0;
    reveal_strlit("[perf]");
    s = setting_line(s, "[perf]"@, l);
    l = l.push("[perf]"@);
    reveal_strlit("# Default `--performance-sample-ms`.  Picked ");
    s = comment_begin(s, "# Default `--performance-sample-ms`.  Picked "@, l);
    s = comment_number(s, k.default_sample_ms as int, l);
    reveal_strlit(" ms for a");
    s = comment_more(s, " ms for a"@, l);
    s = comment_end(s, l);
    reveal_strlit("# ");
    s = comment_begin(s, "# "@, l);
    s = comment_thousands(s, digits as nat, l);
    reveal_strlit("-digit run — coarser samples for longer runs keep the JSONL small.");
    s = comment_more(s, "-digit run — coarser samples for longer runs keep the JSONL small."@, l);
    s = comment_end(s, l);
    reveal_strlit("default_sample_ms = ");
    s = setting_number(s, "default_sample_ms = "@, k.default_sample_ms as int, l);
    l = l.push("default_sample_ms = "@ + text::numeral(k.default_sample_ms as int, 10));
    assert(l =~= l0 + perf_lines(config_gen::settings_of(k)));
}

} // verus!
