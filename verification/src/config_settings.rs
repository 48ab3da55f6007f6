//! What a generated configuration file sets, line by line.
use crate::config_gen;
use crate::config_gen::Knobs;
use crate::config_lines;
use crate::hardware::HardwareProfile;
use crate::text;
use vstd::prelude::*;

verus! {

/// The settings of each section.
proof fn lemma_sections(k: Knobs)
    ensures
        config_lines::runtime_lines(config_gen::settings_of(k)) == seq!["[runtime]"@, "threads = "@ + text::numeral(0, 10)],
        config_lines::bignum_lines(config_gen::settings_of(k)) == seq![
            "[bignum]"@,
            "karatsuba_threshold = "@ + text::numeral(32, 10),
            "parallel_karatsuba_threshold = "@ + text::numeral(
                k.parallel_karatsuba_threshold as int,
                10,
            ),
            "ntt_threshold = "@ + text::numeral(8192, 10),
            "newton_div_threshold = "@ + text::numeral(64, 10),
        ],
        config_lines::disk_lines(config_gen::settings_of(k)) == (if k.disk_limb_threshold == usize::MAX {
            Seq::<Seq<char>>::empty()
        } else {
            seq!["disk_limb_threshold = "@ + text::numeral(k.disk_limb_threshold as int, 10)]
        }),
        config_lines::ntt_lines(config_gen::settings_of(k)) == seq![
            "[bignum.ntt]"@,
            "target_task_size = "@ + text::numeral(k.ntt_target_task_size as int, 10),
            "parallel_pack_threshold = "@ + text::numeral(1024, 10),
            "parallel_pointwise_threshold = "@ + text::numeral(1024, 10),
        ],
        config_lines::chudnovsky_lines(config_gen::settings_of(k)) == seq![
            "[chudnovsky]"@,
            "parallel_split_threshold = "@ + text::numeral(k.parallel_split_threshold as int, 10),
            "sequential_top_threshold = "@ + text::numeral(k.sequential_top_threshold as int, 10),
            "parallel_final_assembly = "@ + (if k.parallel_final_assembly {
                "true"@
            } else {
                "false"@
            }),
        ],
        config_lines::decimal_lines(config_gen::settings_of(k)) == seq![
            "[decimal_conversion]"@,
            "to_string_dc_threshold = "@ + text::numeral(32, 10),
            "parallel_to_string_threshold = "@ + text::numeral(
                k.parallel_to_string_threshold as int,
                10,
            ),
        ],
        config_lines::perf_lines(config_gen::settings_of(k)) == seq![
            "[perf]"@,
            "default_sample_ms = "@ + text::numeral(k.default_sample_ms as int, 10),
        ],
{
}

/// What a generated file sets, line by line: each section once, in order, and under
/// it each of its keys with the picked value.  The threshold for disk buffers is
/// left out where nothing goes to disk.
#[verifier::rlimit(60)]
pub proof fn law_generated_settings(digits: u64, hw: HardwareProfile, k: Knobs)
    requires
        config_lines::plain(hw.os@),
        config_lines::plain(hw.arch@),
    ensures
        config_lines::read(config_gen::config_text(digits, hw, k)).settings == seq![
            "[runtime]"@,
            "threads = "@ + text::numeral(0, 10),
        ] + seq![
            "[bignum]"@,
            "karatsuba_threshold = "@ + text::numeral(32, 10),
            "parallel_karatsuba_threshold = "@ + text::numeral(
                k.parallel_karatsuba_threshold as int,
                10,
            ),
            "ntt_threshold = "@ + text::numeral(8192, 10),
            "newton_div_threshold = "@ + text::numeral(64, 10),
        ] + (if k.disk_limb_threshold == usize::MAX {
            Seq::<Seq<char>>::empty()
        } else {
            seq!["disk_limb_threshold = "@ + text::numeral(k.disk_limb_threshold as int, 10)]
        }) + seq![
            "[bignum.ntt]"@,
            "target_task_size = "@ + text::numeral(k.ntt_target_task_size as int, 10),
            "parallel_pack_threshold = "@ + text::numeral(1024, 10),
            "parallel_pointwise_threshold = "@ + text::numeral(1024, 10),
        ] + seq![
            "[chudnovsky]"@,
            "parallel_split_threshold = "@ + text::numeral(k.parallel_split_threshold as int, 10),
            "sequential_top_threshold = "@ + text::numeral(k.sequential_top_threshold as int, 10),
            "parallel_final_assembly = "@ + (if k.parallel_final_assembly {
                "true"@
            } else {
                "false"@
            }),
        ] + seq![
            "[decimal_conversion]"@,
            "to_string_dc_threshold = "@ + text::numeral(32, 10),
            "parallel_to_string_threshold = "@ + text::numeral(
                k.parallel_to_string_threshold as int,
                10,
            ),
        ] + seq![
            "[perf]"@,
            "default_sample_ms = "@ + text::numeral(k.default_sample_ms as int, 10),
        ],
{
    config_lines::law_text_sets(digits, hw, k);
    lemma_sections(k);
    assert(config_lines::setting_lines(config_gen::settings_of(k)) == {
        let c = config_gen::settings_of(k);
        config_lines::runtime_lines(c) + config_lines::bignum_lines(c) + config_lines::disk_lines(c)
            + config_lines::ntt_lines(c) + config_lines::chudnovsky_lines(c)
            + config_lines::decimal_lines(c) + config_lines::perf_lines(c)
    });
}

/// Reading one more line: what is between two line feeds counts unless it is empty
/// or begins with `#`.
pub proof fn law_read_line(t: Seq<char>, s: Seq<char>)
    requires
        config_lines::read(t).open.len() == 0,
        forall|i: int| 0 <= i < s.len() ==> #[trigger] s[i] as int != 10,
    ensures
        config_lines::read(Seq::<char>::empty()).settings.len() == 0,
        config_lines::read(t + s).settings == config_lines::read(t).settings,
        config_lines::read(t + s).open == s,
        config_lines::read((t + s).push(10 as char)).open.len() == 0,
        s.len() == 0 || s[0] as int == 35 ==> config_lines::read((t + s).push(10 as char)).settings == config_lines::read(
            t,
        ).settings,
        s.len() > 0 && s[0] as int != 35 ==> config_lines::read((t + s).push(10 as char)).settings == config_lines::read(
            t,
        ).settings.push(s),
    decreases s.len(),
{
    if s.len() == 0 {
        assert(t + s =~= t);
        assert(config_lines::read(t).open =~= s);
    } else {
        let p = s.drop_last();
        assert forall|i: int| 0 <= i < p.len() implies #[trigger] p[i] as int != 10 by {
            assert(p[i] == s[i]);
        }
        law_read_line(t, p);
        assert((t + s).drop_last() =~= t + p);
        assert(s[s.len() - 1] as int != 10);
        assert(p.push(s.last()) =~= s);
    }
    let u = (t + s).push(10 as char);
    assert(u.drop_last() =~= t + s);
    assert(u.last() == '\n');
}

} // verus!
