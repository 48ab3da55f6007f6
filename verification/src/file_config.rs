//! The configuration file: which parameters it sets, and how they override the
//! defaults.
use crate::bignum_config;
use crate::bignum_config::Tuning;
use crate::pi_config;
use crate::pi_config::Settings;
use vstd::prelude::*;

verus! {

/// Section `runtime`.
#[derive(Debug, Clone, Copy)]
pub struct RuntimeSection {
    /// Worker threads; zero leaves the choice to the thread pool.
    pub threads: usize,
}

/// Section `bignum.ntt`.
#[derive(Debug, Clone, Copy)]
pub struct NttSection {
    pub target_task_size: Option<usize>,
    pub parallel_pack_threshold: Option<usize>,
    pub parallel_pointwise_threshold: Option<usize>,
}

/// Section `bignum`.
#[derive(Debug, Clone, Copy)]
pub struct BignumSection {
    pub karatsuba_threshold: Option<usize>,
    pub parallel_karatsuba_threshold: Option<usize>,
    pub ntt_threshold: Option<usize>,
    pub newton_div_threshold: Option<usize>,
    pub disk_limb_threshold: Option<usize>,
    pub ntt: NttSection,
}

/// Section `chudnovsky`.
#[derive(Debug, Clone, Copy)]
pub struct ChudnovskySection {
    pub parallel_split_threshold: Option<u64>,
    pub sequential_top_threshold: Option<u64>,
    pub parallel_final_assembly: Option<bool>,
}

/// Section `decimal_conversion`.
#[derive(Debug, Clone, Copy)]
pub struct DecimalSection {
    pub to_string_dc_threshold: Option<usize>,
    pub parallel_to_string_threshold: Option<usize>,
}

/// Section `perf`.
#[derive(Debug, Clone, Copy)]
pub struct PerfSection {
    pub default_sample_ms: Option<u64>,
}

/// What a configuration file sets.
#[derive(Debug, Clone, Copy)]
pub struct FileConfig {
    pub runtime: RuntimeSection,
    pub bignum: BignumSection,
    pub chudnovsky: ChudnovskySection,
    pub decimal_conversion: DecimalSection,
    pub perf: PerfSection,
}

impl FileConfig {
    /// A file that sets nothing.
    pub open spec fn silent(self) -> bool {
        &&& self.runtime.threads == 0
        &&& self.bignum.karatsuba_threshold is None
        &&& self.bignum.parallel_karatsuba_threshold is None
        &&& self.bignum.ntt_threshold is None
        &&& self.bignum.newton_div_threshold is None
        &&& self.bignum.disk_limb_threshold is None
        &&& self.bignum.ntt.target_task_size is None
        &&& self.bignum.ntt.parallel_pack_threshold is None
        &&& self.bignum.ntt.parallel_pointwise_threshold is None
        &&& self.chudnovsky.parallel_split_threshold is None
        &&& self.chudnovsky.sequential_top_threshold is None
        &&& self.chudnovsky.parallel_final_assembly is None
        &&& self.decimal_conversion.to_string_dc_threshold is None
        &&& self.decimal_conversion.parallel_to_string_threshold is None
        &&& self.perf.default_sample_ms is None
    }
}

impl Default for FileConfig {
    fn default() -> (f: FileConfig)
        ensures
            f.silent(),
    {
        FileConfig {
            runtime: RuntimeSection { threads: 0 },
            bignum: BignumSection {
                karatsuba_threshold: None,
                parallel_karatsuba_threshold: None,
                ntt_threshold: None,
                newton_div_threshold: None,
                disk_limb_threshold: None,
                ntt: NttSection {
                    target_task_size: None,
                    parallel_pack_threshold: None,
                    parallel_pointwise_threshold: None,
                },
            },
            chudnovsky: ChudnovskySection {
                parallel_split_threshold: None,
                sequential_top_threshold: None,
                parallel_final_assembly: None,
            },
            decimal_conversion: DecimalSection {
                to_string_dc_threshold: None,
                parallel_to_string_threshold: None,
            },
            perf: PerfSection { default_sample_ms: None },
        }
    }
}

/// The value that a file sets, or else the default.
pub open spec fn chosen<T>(set: Option<T>, default: T) -> T {
    match set {
        Some(v) => v,
        None => default,
    }
}

fn choose_size(set: Option<usize>, default: usize) -> (r: usize)
    ensures
        r == chosen(set, default),
{
    match set {
        Some(v) => v,
        None => default,
    }
}

fn choose_count(set: Option<u64>, default: u64) -> (r: u64)
    ensures
        r == chosen(set, default),
{
    match set {
        Some(v) => v,
        None => default,
    }
}

/// The parameters of the arithmetic under a file.
pub open spec fn bignum_overlay(f: FileConfig) -> bignum_config::Config {
    let d = bignum_config::Config::defaults();
    bignum_config::Config {
        karatsuba_threshold: chosen(f.bignum.karatsuba_threshold, d.karatsuba_threshold),
        parallel_karatsuba_threshold: chosen(f.bignum.parallel_karatsuba_threshold, d.parallel_karatsuba_threshold),
        ntt_threshold: chosen(f.bignum.ntt_threshold, d.ntt_threshold),
        newton_div_threshold: chosen(f.bignum.newton_div_threshold, d.newton_div_threshold),
        to_string_dc_threshold: chosen(f.decimal_conversion.to_string_dc_threshold, d.to_string_dc_threshold),
        parallel_to_string_threshold: chosen(f.decimal_conversion.parallel_to_string_threshold, d.parallel_to_string_threshold),
        disk_limb_threshold: chosen(f.bignum.disk_limb_threshold, d.disk_limb_threshold),
        ntt: bignum_config::NttConfig {
            target_task_size: chosen(f.bignum.ntt.target_task_size, d.ntt.target_task_size),
            parallel_pack_threshold: chosen(f.bignum.ntt.parallel_pack_threshold, d.ntt.parallel_pack_threshold),
            parallel_pointwise_threshold: chosen(f.bignum.ntt.parallel_pointwise_threshold, d.ntt.parallel_pointwise_threshold),
        },
    }
}

/// The parameters of the computations under a file.
pub open spec fn is_pi_overlay(f: FileConfig, c: pi_config::Config) -> bool {
    &&& c.chudnovsky.parallel_split_threshold == chosen(f.chudnovsky.parallel_split_threshold, 64)
    &&& c.chudnovsky.sequential_top_threshold == chosen(f.chudnovsky.sequential_top_threshold, 0)
    &&& c.chudnovsky.parallel_final_assembly == chosen(f.chudnovsky.parallel_final_assembly, true)
    &&& c.perf.default_sample_ms == chosen(f.perf.default_sample_ms, 500)
}

/// Put the defaults, overridden by a file, in force.  The result is the number
/// of worker threads that the file asks for.
pub fn apply_file_config(
    file: &FileConfig,
    tuning: &mut Tuning,
    settings: &mut Settings,
) -> (threads: Option<usize>)
    ensures
        final(tuning).active == bignum_overlay(*file),
        is_pi_overlay(*file, final(settings).active),
        threads == if file.runtime.threads > 0 {
            Some(file.runtime.threads)
        } else {
            None::<usize>
        },
{
    let mut bn: bignum_config::Config = bignum_config::Config::default();
    bn.karatsuba_threshold = choose_size(file.bignum.karatsuba_threshold, bn.karatsuba_threshold);
    bn.parallel_karatsuba_threshold = choose_size(file.bignum.parallel_karatsuba_threshold, bn.parallel_karatsuba_threshold);
    bn.ntt_threshold = choose_size(file.bignum.ntt_threshold, bn.ntt_threshold);
    bn.newton_div_threshold = choose_size(file.bignum.newton_div_threshold, bn.newton_div_threshold);
    bn.to_string_dc_threshold = choose_size(file.decimal_conversion.to_string_dc_threshold, bn.to_string_dc_threshold);
    bn.parallel_to_string_threshold = choose_size(file.decimal_conversion.parallel_to_string_threshold, bn.parallel_to_string_threshold);
    bn.disk_limb_threshold = choose_size(file.bignum.disk_limb_threshold, bn.disk_limb_threshold);
    bn.ntt.target_task_size = choose_size(file.bignum.ntt.target_task_size, bn.ntt.target_task_size);
    bn.ntt.parallel_pack_threshold = choose_size(file.bignum.ntt.parallel_pack_threshold, bn.ntt.parallel_pack_threshold);
    bn.ntt.parallel_pointwise_threshold = choose_size(file.bignum.ntt.parallel_pointwise_threshold, bn.ntt.parallel_pointwise_threshold);
    let mut pc: pi_config::Config = pi_config::Config::default();
    pc.chudnovsky.parallel_split_threshold =
    choose_count(file.chudnovsky.parallel_split_threshold, pc.chudnovsky.parallel_split_threshold);
    pc.chudnovsky.sequential_top_threshold =
    choose_count(file.chudnovsky.sequential_top_threshold, pc.chudnovsky.sequential_top_threshold);
    match file.chudnovsky.parallel_final_assembly {
        Some(v) => {
            pc.chudnovsky.parallel_final_assembly = v;
        },
        None => {},
    }
    pc.perf.default_sample_ms = choose_count(file.perf.default_sample_ms, pc.perf.default_sample_ms);
    bignum_config::apply(tuning, &bn);
    pi_config::apply(settings, &pc);
    if file.runtime.threads > 0 {
        Some(file.runtime.threads)
    } else {
        None
    }
}

/// Each parameter of the arithmetic is on its own: a value that the file gives it
/// is in force, whatever the value and whatever else the file sets, and one that
/// the file leaves out keeps its default.
pub proof fn law_arithmetic_settings(f: FileConfig, v: usize)
    ensures
        f.bignum.karatsuba_threshold == Some(v) ==> bignum_overlay(f).karatsuba_threshold == v,
        f.bignum.karatsuba_threshold is None ==> bignum_overlay(f).karatsuba_threshold == 32,
        f.bignum.parallel_karatsuba_threshold == Some(v) ==> bignum_overlay(f).parallel_karatsuba_threshold == v,
        f.bignum.parallel_karatsuba_threshold is None ==> bignum_overlay(f).parallel_karatsuba_threshold == 512,
        f.bignum.ntt_threshold == Some(v) ==> bignum_overlay(f).ntt_threshold == v,
        f.bignum.ntt_threshold is None ==> bignum_overlay(f).ntt_threshold == 8192,
        f.bignum.newton_div_threshold == Some(v) ==> bignum_overlay(f).newton_div_threshold == v,
        f.bignum.newton_div_threshold is None ==> bignum_overlay(f).newton_div_threshold == 64,
        f.bignum.disk_limb_threshold == Some(v) ==> bignum_overlay(f).disk_limb_threshold == v,
        f.bignum.disk_limb_threshold is None ==> bignum_overlay(f).disk_limb_threshold == usize::MAX,
        f.bignum.ntt.target_task_size == Some(v) ==> bignum_overlay(f).ntt.target_task_size == v,
        f.bignum.ntt.target_task_size is None ==> bignum_overlay(f).ntt.target_task_size == 65536,
        f.bignum.ntt.parallel_pack_threshold == Some(v) ==> bignum_overlay(f).ntt.parallel_pack_threshold == v,
        f.bignum.ntt.parallel_pack_threshold is None ==> bignum_overlay(f).ntt.parallel_pack_threshold == 1024,
        f.bignum.ntt.parallel_pointwise_threshold == Some(v) ==> bignum_overlay(f).ntt.parallel_pointwise_threshold == v,
        f.bignum.ntt.parallel_pointwise_threshold is None ==> bignum_overlay(f).ntt.parallel_pointwise_threshold == 1024,
        f.decimal_conversion.to_string_dc_threshold == Some(v) ==> bignum_overlay(f).to_string_dc_threshold == v,
        f.decimal_conversion.to_string_dc_threshold is None ==> bignum_overlay(f).to_string_dc_threshold == 32,
        f.decimal_conversion.parallel_to_string_threshold == Some(v) ==> bignum_overlay(f).parallel_to_string_threshold == v,
        f.decimal_conversion.parallel_to_string_threshold is None ==> bignum_overlay(f).parallel_to_string_threshold == 256,
{
}

/// The same of each parameter of the computations.
pub proof fn law_computation_settings(f: FileConfig, c: pi_config::Config, v: u64, b: bool)
    requires
        is_pi_overlay(f, c),
    ensures
        f.chudnovsky.parallel_split_threshold == Some(v) ==> c.chudnovsky.parallel_split_threshold == v,
        f.chudnovsky.parallel_split_threshold is None ==> c.chudnovsky.parallel_split_threshold == 64,
        f.chudnovsky.sequential_top_threshold == Some(v) ==> c.chudnovsky.sequential_top_threshold == v,
        f.chudnovsky.sequential_top_threshold is None ==> c.chudnovsky.sequential_top_threshold == 0,
        f.chudnovsky.parallel_final_assembly == Some(b) ==> c.chudnovsky.parallel_final_assembly == b,
        f.chudnovsky.parallel_final_assembly is None ==> c.chudnovsky.parallel_final_assembly,
        f.perf.default_sample_ms == Some(v) ==> c.perf.default_sample_ms == v,
        f.perf.default_sample_ms is None ==> c.perf.default_sample_ms == 500,
{
}

/// A file that sets nothing leaves the defaults in force.
pub proof fn law_silent_file(f: FileConfig, c: pi_config::Config)
    requires
        f.silent(),
        is_pi_overlay(f, c),
    ensures
        bignum_overlay(f) == bignum_config::Config::defaults(),
        f.runtime.threads == 0,
        c.chudnovsky.parallel_split_threshold == 64,
        c.chudnovsky.sequential_top_threshold == 0,
        c.chudnovsky.parallel_final_assembly,
        c.perf.default_sample_ms == 500,
{
}

} // verus!
