//! A configuration file for a host and a number of digits, with the reasons for
//! every value in its comments.
use crate::accuracy;
use crate::bignum_config;
use crate::bitlen;
use crate::display;
use crate::display::push_thousands;
use crate::double;
use crate::double::Double;
use crate::file_config;
use crate::file_config::{
    BignumSection, ChudnovskySection, DecimalSection, FileConfig, NttSection, PerfSection,
    RuntimeSection,
};
use crate::hardware::HardwareProfile;
use crate::pi_config;
use crate::reals;
use crate::text;
use crate::text::push_decimal;
use vstd::arithmetic::power2::*;
use vstd::prelude::*;
use vstd::string::*;

verus! {

/// How the estimated peak relates to the memory of the host.
#[derive(Debug, Clone, Copy, PartialEq, Eq, Structural)]
pub enum MemoryMode {
    /// Below half of the memory: plenty of room, tuned for speed.
    Speed,
    /// Below four fifths of the memory: tight, with sequential final assembly
    /// only.
    Moderate,
    /// Above that, or the memory is unknown: over budget, with sequential final
    /// assembly and a sequential top of the splitting tree.
    Conservative,
}

impl MemoryMode {
    /// The name of the mode.
    pub open spec fn words(self) -> Seq<char> {
        match self {
            MemoryMode::Speed => "Speed"@,
            MemoryMode::Moderate => "Moderate"@,
            MemoryMode::Conservative => "Conservative"@,
        }
    }

    /// The name of the mode.
    pub fn to_text(&self) -> (s: &'static str)
        ensures
            s@ == self.words(),
    {
        match self {
            MemoryMode::Speed => "Speed",
            MemoryMode::Moderate => "Moderate",
            MemoryMode::Conservative => "Conservative",
        }
    }
}

/// The estimated peak in gigabytes: 5.4 times the digits over a hundred million,
/// in double precision.
pub open spec fn peak_estimate(digits: u64) -> Double {
    Double::quotient(
        Double::product(
            Double { mant: 3_039_929_748_475_085, exp: (-49int) as i32 },
            Double::of(digits as int, 0),
        ),
        Double { mant: 100_000_000, exp: 0 },
    )
}

/// The memory in gigabytes.
pub open spec fn gigabytes(ram_bytes: u64) -> Double {
    let d = Double::of(ram_bytes as int, 0);
    Double { mant: d.mant, exp: (d.exp - 30) as i32 }
}

/// Half of the memory.
pub open spec fn half_of(ram: Double) -> Double {
    Double::product(ram, Double { mant: 1, exp: (-1int) as i32 })
}

/// Four fifths of the memory.
pub open spec fn four_fifths_of(ram: Double) -> Double {
    Double::product(ram, Double { mant: 3_602_879_701_896_397, exp: (-52int) as i32 })
}

/// Seven tenths of the memory.
pub open spec fn seven_tenths_of(ram: Double) -> Double {
    Double::product(ram, Double { mant: 3_152_519_739_159_347, exp: (-52int) as i32 })
}

/// The estimated peak in percent of the memory.
pub open spec fn percentage(est: Double, ram: Double) -> Double {
    Double::product(Double::quotient(est, ram), Double { mant: 100, exp: 0 })
}

/// The memory mode for an estimated peak.
pub open spec fn memory_mode(est: Double, ram: Double) -> MemoryMode {
    if ram.mant == 0 {
        MemoryMode::Conservative
    } else if est.below(half_of(ram)) {
        MemoryMode::Speed
    } else if est.below(four_fifths_of(ram)) {
        MemoryMode::Moderate
    } else {
        MemoryMode::Conservative
    }
}

/// From how many limbs on buffers live on disk: nowhere where the peak is below
/// seven tenths of the memory or the memory is unknown, and else at a two
/// hundredth of the digits, within bounds.
pub open spec fn disk_threshold(digits: u64, est: Double, ram: Double) -> usize {
    if ram.mant == 0 || est.below(seven_tenths_of(ram)) {
        usize::MAX
    } else if digits / 200 < 50_000 {
        50_000
    } else if digits / 200 > 10_000_000 {
        10_000_000
    } else {
        (digits / 200) as usize
    }
}

/// The values that depend on the host and on the number of digits.
#[derive(Debug, Clone, Copy)]
pub struct Knobs {
    /// Estimated peak in gigabytes.
    pub est: Double,
    /// Memory in gigabytes.
    pub ram: Double,
    /// The peak in percent of the memory; zero where that is unknown.
    pub percent: Double,
    pub mode: MemoryMode,
    pub parallel_karatsuba_threshold: usize,
    pub ntt_target_task_size: usize,
    pub parallel_split_threshold: u64,
    pub parallel_to_string_threshold: usize,
    pub disk_limb_threshold: usize,
    pub sequential_top_threshold: u64,
    pub parallel_final_assembly: bool,
    pub default_sample_ms: u64,
}

impl Knobs {
    /// The doubles can be printed.
    pub open spec fn printable(self) -> bool {
        &&& self.est.wf() && self.est.exp <= 60
        &&& self.ram.wf() && self.ram.exp <= 60
        &&& self.percent.wf() && self.percent.exp <= 60
    }
}

/// The value for up to 12, up to 32 and more cores.
pub open spec fn by_cores(cores: usize, few: int, some: int, many: int) -> int {
    if cores <= 12 {
        few
    } else if cores <= 32 {
        some
    } else {
        many
    }
}

/// The values for a host and a number of digits.  Where buffers live on disk,
/// they relieve the memory, and the final assembly stays parallel.
pub open spec fn knobs_for(digits: u64, hw: HardwareProfile) -> Knobs {
    let est = peak_estimate(digits);
    let ram = gigabytes(hw.ram_bytes);
    let mode = memory_mode(est, ram);
    let disk = disk_threshold(digits, est, ram);
    let cores = hw.logical_cores;
    Knobs {
        est,
        ram,
        percent: if ram.mant == 0 {
            Double { mant: 0, exp: 0 }
        } else {
            percentage(est, ram)
        },
        mode,
        parallel_karatsuba_threshold: if cores <= 12 {
            512
        } else if cores <= 32 {
            256
        } else if cores <= 64 {
            192
        } else {
            128
        },
        ntt_target_task_size: by_cores(cores, 65_536, 32_768, 16_384) as usize,
        parallel_split_threshold: by_cores(cores, 64, 32, 16) as u64,
        parallel_to_string_threshold: by_cores(cores, 256, 128, 64) as usize,
        disk_limb_threshold: disk,
        sequential_top_threshold: if mode != MemoryMode::Conservative {
            0
        } else if disk != usize::MAX {
            digits / 30
        } else {
            digits / 1000
        },
        parallel_final_assembly: mode == MemoryMode::Speed || disk != usize::MAX,
        default_sample_ms: if digits <= 10_000_000 {
            250
        } else if digits <= 200_000_000 {
            500
        } else if digits <= 5_000_000_000 {
            1000
        } else {
            2000
        },
    }
}

/// Pick the values for a host and a number of digits.
pub fn pick_knobs(digits: u64, hw: &HardwareProfile) -> (k: Knobs)
    ensures
        k == knobs_for(digits, *hw),
        k.printable(),
        k.disk_limb_threshold == usize::MAX || k.disk_limb_threshold <= 10_000_000,
        k.ntt_target_task_size <= 65_536,
{
    let rate: Double = Double { mant: 3_039_929_748_475_085, exp: -49 };
    let est: Double = rate.times(Double::from_u64(digits)).over(
        Double { mant: 100_000_000, exp: 0 },
    );
    let bytes: Double = Double::from_u64(hw.ram_bytes);
    let ram: Double = Double { mant: bytes.mant, exp: bytes.exp - 30 };
    let unknown: bool = ram.mant == 0;
    let mode: MemoryMode = if unknown {
        MemoryMode::Conservative
    } else if est.less(ram.times(Double { mant: 1, exp: -1 })) {
        MemoryMode::Speed
    } else if est.less(ram.times(Double { mant: 3_602_879_701_896_397, exp: -52 })) {
        MemoryMode::Moderate
    } else {
        MemoryMode::Conservative
    };
    let disk: usize = if unknown || est.less(
        ram.times(Double { mant: 3_152_519_739_159_347, exp: -52 }),
    ) {
        usize::MAX
    } else if digits / 200 < 50_000 {
        50_000
    } else if digits / 200 > 10_000_000 {
        10_000_000
    } else {
        (digits / 200) as usize
    };
    let percent: Double = if unknown {
        Double { mant: 0, exp: 0 }
    } else {
        est.over(ram).times(Double { mant: 100, exp: 0 })
    };
    let cores: usize = hw.logical_cores;
    let conservative: bool = mode == MemoryMode::Conservative;
    Knobs {
        est,
        ram,
        percent,
        mode,
        parallel_karatsuba_threshold: if cores <= 12 {
            512
        } else if cores <= 32 {
            256
        } else if cores <= 64 {
            192
        } else {
            128
        },
        ntt_target_task_size: if cores <= 12 {
            65_536
        } else if cores <= 32 {
            32_768
        } else {
            16_384
        },
        parallel_split_threshold: if cores <= 12 {
            64
        } else if cores <= 32 {
            32
        } else {
            16
        },
        parallel_to_string_threshold: if cores <= 12 {
            256
        } else if cores <= 32 {
            128
        } else {
            64
        },
        disk_limb_threshold: disk,
        sequential_top_threshold: if !conservative {
            0
        } else if disk != usize::MAX {
            digits / 30
        } else {
            digits / 1000
        },
        parallel_final_assembly: mode == MemoryMode::Speed || disk != usize::MAX,
        default_sample_ms: if digits <= 10_000_000 {
            250
        } else if digits <= 200_000_000 {
            500
        } else if digits <= 5_000_000_000 {
            1000
        } else {
            2000
        },
    }
}

/// What the file sets.
pub open spec fn settings_of(k: Knobs) -> FileConfig {
    FileConfig {
        runtime: RuntimeSection { threads: 0 },
        bignum: BignumSection {
            karatsuba_threshold: Some(32),
            parallel_karatsuba_threshold: Some(k.parallel_karatsuba_threshold),
            ntt_threshold: Some(8192),
            newton_div_threshold: Some(64),
            disk_limb_threshold: if k.disk_limb_threshold == usize::MAX {
                None
            } else {
                Some(k.disk_limb_threshold)
            },
            ntt: NttSection {
                target_task_size: Some(k.ntt_target_task_size),
                parallel_pack_threshold: Some(1024),
                parallel_pointwise_threshold: Some(1024),
            },
        },
        chudnovsky: ChudnovskySection {
            parallel_split_threshold: Some(k.parallel_split_threshold),
            sequential_top_threshold: Some(k.sequential_top_threshold),
            parallel_final_assembly: Some(k.parallel_final_assembly),
        },
        decimal_conversion: DecimalSection {
            to_string_dc_threshold: Some(32),
            parallel_to_string_threshold: Some(k.parallel_to_string_threshold),
        },
        perf: PerfSection { default_sample_ms: Some(k.default_sample_ms) },
    }
}

/// Loading what the file sets puts the picked values in force, and leaves the
/// others at their defaults.
pub proof fn law_settings_load(k: Knobs)
    ensures
        file_config::bignum_overlay(settings_of(k)) == (bignum_config::Config {
            parallel_karatsuba_threshold: k.parallel_karatsuba_threshold,
            parallel_to_string_threshold: k.parallel_to_string_threshold,
            disk_limb_threshold: k.disk_limb_threshold,
            ntt: bignum_config::NttConfig {
                target_task_size: k.ntt_target_task_size,
                ..bignum_config::NttConfig::defaults()
            },
            ..bignum_config::Config::defaults()
        }),
        forall|c: pi_config::Config| #[trigger]
            file_config::is_pi_overlay(settings_of(k), c) ==> {
                &&& c.chudnovsky.parallel_split_threshold == k.parallel_split_threshold
                &&& c.chudnovsky.sequential_top_threshold == k.sequential_top_threshold
                &&& c.chudnovsky.parallel_final_assembly == k.parallel_final_assembly
                &&& c.perf.default_sample_ms == k.default_sample_ms
            },
{
}

/// `s` with one line more.
pub open spec fn line(s: Seq<char>, t: Seq<char>) -> Seq<char> {
    s + t + "\n"@
}

fn push_line(s: &mut String, t: &str)
    ensures
        final(s)@ == line(old(s)@, t@),
{
    s.append(t);
    s.append("\n");
}

/// The memory in words.
pub open spec fn ram_words(ram_bytes: u64, ram: Double) -> Seq<char> {
    if ram_bytes > 0 {
        double::fixed_text(ram, 1) + " GB"@
    } else {
        "unknown"@
    }
}

fn push_ram(s: &mut String, ram_bytes: u64, ram: Double)
    requires
        ram.wf(),
        ram.exp <= 60,
    ensures
        final(s)@ == old(s)@ + ram_words(ram_bytes, ram),
{
    let ghost start = s@;
    if ram_bytes > 0 {
        ram.push_fixed(s, 1);
        s.append(" GB");
        assert(s@ =~= start + ram_words(ram_bytes, ram));
    } else {
        s.append("unknown");
    }
}

/// The head of the file: what it was made for.
pub open spec fn header_text(s: Seq<char>, digits: u64, hw: HardwareProfile, k: Knobs) -> Seq<char> {
    let s = line(s, "# ============================================================================="@);
    let s = s + "# Generated by `pi --generate-config "@ + text::numeral(digits as int, 10) + "`"@ + "\n"@;
    let s = s + "# Host: "@ + text::numeral(hw.logical_cores as int, 10) + " cores logical ("@ + text::numeral(hw.physical_cores as int, 10) + " physical), "@ + ram_words(hw.ram_bytes, k.ram) + " RAM, "@ + hw.os@ + "/"@ + hw.arch@ + "\n"@;
    let s = s + "# Target: "@ + display::thousands(digits as nat) + " digits"@ + "\n"@;
    let s = s + "# Estimated peak RSS at full parallelism: "@ + double::fixed_text(k.est, 1) + " GB"@ + "\n"@;
    let s = line(s, "#   (linear extrapolation from a measured 5.4 GB at 100M; peak is set by"@);
    let s = line(s, "#    top-of-tree integers + NTT scratch, which do not scale with core count)"@);
    let s = s + "# Memory mode: "@ + k.mode.words() + "\n"@;
    s
}

fn push_header(s: &mut String, digits: u64, hw: &HardwareProfile, k: &Knobs)
    requires
        k.printable(),
    ensures
        final(s)@ == header_text(old(s)@, digits, *hw, *k),
{
    push_line(s, "# =============================================================================");
    s.append("# Generated by `pi --generate-config ");
    push_decimal(s, digits);
    s.append("`");
    s.append("\n");
    s.append("# Host: ");
    push_decimal(s, hw.logical_cores as u64);
    s.append(" cores logical (");
    push_decimal(s, hw.physical_cores as u64);
    s.append(" physical), ");
    push_ram(s, hw.ram_bytes, k.ram);
    s.append(" RAM, ");
    s.append(hw.os);
    s.append("/");
    s.append(hw.arch);
    s.append("\n");
    s.append("# Target: ");
    push_thousands(s, digits);
    s.append(" digits");
    s.append("\n");
    s.append("# Estimated peak RSS at full parallelism: ");
    k.est.push_fixed(s, 1);
    s.append(" GB");
    s.append("\n");
    push_line(s, "#   (linear extrapolation from a measured 5.4 GB at 100M; peak is set by");
    push_line(s, "#    top-of-tree integers + NTT scratch, which do not scale with core count)");
    s.append("# Memory mode: ");
    s.append(k.mode.to_text());
    s.append("\n");
}

/// Why the memory mode was picked.
pub open spec fn rationale_text(s: Seq<char>, k: Knobs) -> Seq<char> {
    let s = if k.ram.mant == 0 {
        let s = line(s, "# (RAM unknown — defaulting to Conservative mode.)"@);
        s
    } else {
        let s = if k.mode == MemoryMode::Speed {
            let s = s + "#   Estimated peak "@ + double::fixed_text(k.est, 1) + " GB is "@ + double::fixed_text(k.percent, 0) + "% of RAM (< 50%) —"@ + "\n"@;
            let s = line(s, "#   speed-tuned defaults; no memory-conservative knobs active."@);
            s
        } else {
            let s = if k.mode == MemoryMode::Moderate {
                let s = s + "#   Estimated peak "@ + double::fixed_text(k.est, 1) + " GB is "@ + double::fixed_text(k.percent, 0) + "% of RAM (50–80%) —"@ + "\n"@;
                let s = line(s, "#   sequential final-assembly to keep one less GB-class Float chain"@);
                let s = line(s, "#   live at a time."@);
                s
            } else {
                let s = s + "#   Estimated peak "@ + double::fixed_text(k.est, 1) + " GB exceeds 80% of RAM ("@ + double::fixed_text(k.ram, 1) + " GB) —"@ + "\n"@;
                let s = line(s, "#   sequential binary-split top AND sequential final-assembly to"@);
                let s = line(s, "#   bound concurrent NTT scratch.  Some swap activity expected; the"@);
                let s = line(s, "#   run completes but watch `major_faults` in --performance-file."@);
                s
            };
            s
        };
        s
    };
    s
}

fn push_rationale(s: &mut String, k: &Knobs)
    requires
        k.printable(),
    ensures
        final(s)@ == rationale_text(old(s)@, *k),
{
    if k.ram.mant == 0 {
        push_line(s, "# (RAM unknown — defaulting to Conservative mode.)");
    } else {
        if k.mode == MemoryMode::Speed {
            s.append("#   Estimated peak ");
            k.est.push_fixed(s, 1);
            s.append(" GB is ");
            k.percent.push_fixed(s, 0);
            s.append("% of RAM (< 50%) —");
            s.append("\n");
            push_line(s, "#   speed-tuned defaults; no memory-conservative knobs active.");
        } else {
            if k.mode == MemoryMode::Moderate {
                s.append("#   Estimated peak ");
                k.est.push_fixed(s, 1);
                s.append(" GB is ");
                k.percent.push_fixed(s, 0);
                s.append("% of RAM (50–80%) —");
                s.append("\n");
                push_line(s, "#   sequential final-assembly to keep one less GB-class Float chain");
                push_line(s, "#   live at a time.");
            } else {
                s.append("#   Estimated peak ");
                k.est.push_fixed(s, 1);
                s.append(" GB exceeds 80% of RAM (");
                k.ram.push_fixed(s, 1);
                s.append(" GB) —");
                s.append("\n");
                push_line(s, "#   sequential binary-split top AND sequential final-assembly to");
                push_line(s, "#   bound concurrent NTT scratch.  Some swap activity expected; the");
                push_line(s, "#   run completes but watch `major_faults` in --performance-file.");
            }
        }
    }
}

/// Section `runtime`.
pub open spec fn runtime_text(s: Seq<char>, hw: HardwareProfile) -> Seq<char> {
    let s = line(s, "# ============================================================================="@);
    let s = s + "\n"@;
    let s = line(s, "[runtime]"@);
    let s = s + "# 0 = autodetect (rayon will pick "@ + text::numeral(hw.logical_cores as int, 10) + ").  Set non-zero to leave headroom"@ + "\n"@;
    let s = line(s, "# for other processes or to confine to a NUMA node."@);
    let s = line(s, "threads = 0"@);
    let s = s + "\n"@;
    s
}

fn push_runtime(s: &mut String, hw: &HardwareProfile)
    ensures
        final(s)@ == runtime_text(old(s)@, *hw),
{
    push_line(s, "# =============================================================================");
    s.append("\n");
    push_line(s, "[runtime]");
    s.append("# 0 = autodetect (rayon will pick ");
    push_decimal(s, hw.logical_cores as u64);
    s.append(").  Set non-zero to leave headroom");
    s.append("\n");
    push_line(s, "# for other processes or to confine to a NUMA node.");
    push_line(s, "threads = 0");
    s.append("\n");
}

/// Section `bignum`, up to the disk threshold.
pub open spec fn bignum_text(s: Seq<char>, k: Knobs, hw: HardwareProfile) -> Seq<char> {
    let s = line(s, "[bignum]"@);
    let s = line(s, "# Algorithmic crossover, doesn't shift with hardware."@);
    let s = line(s, "karatsuba_threshold = 32"@);
    let s = s + "\n"@;
    let s = line(s, "# Parallel-Karatsuba sub-multiplications begin at this size."@);
    let s = s + "# Picked "@ + text::numeral(k.parallel_karatsuba_threshold as int, 10) + " for "@ + text::numeral(hw.logical_cores as int, 10) + "-core hosts: smaller chunks fan"@ + "\n"@;
    let s = line(s, "# out work better; the laptop default 512 is right for ≤12 cores."@);
    let s = s + "parallel_karatsuba_threshold = "@ + text::numeral(k.parallel_karatsuba_threshold as int, 10) + "\n"@;
    let s = s + "\n"@;
    let s = line(s, "# NTT engages at this limb count.  Algorithmic crossover (≈Karatsuba ↔ NTT"@);
    let s = line(s, "# transition) and shifts little with hardware."@);
    let s = line(s, "ntt_threshold = 8192"@);
    let s = s + "\n"@;
    let s = line(s, "# Newton-Raphson reciprocal division above this size.  Algorithmic."@);
    let s = line(s, "newton_div_threshold = 64"@);
    let s = s + "\n"@;
    s
}

fn push_bignum(s: &mut String, k: &Knobs, hw: &HardwareProfile)
    ensures
        final(s)@ == bignum_text(old(s)@, *k, *hw),
{
    push_line(s, "[bignum]");
    push_line(s, "# Algorithmic crossover, doesn't shift with hardware.");
    push_line(s, "karatsuba_threshold = 32");
    s.append("\n");
    push_line(s, "# Parallel-Karatsuba sub-multiplications begin at this size.");
    s.append("# Picked ");
    push_decimal(s, k.parallel_karatsuba_threshold as u64);
    s.append(" for ");
    push_decimal(s, hw.logical_cores as u64);
    s.append("-core hosts: smaller chunks fan");
    s.append("\n");
    push_line(s, "# out work better; the laptop default 512 is right for ≤12 cores.");
    s.append("parallel_karatsuba_threshold = ");
    push_decimal(s, k.parallel_karatsuba_threshold as u64);
    s.append("\n");
    s.append("\n");
    push_line(s, "# NTT engages at this limb count.  Algorithmic crossover (≈Karatsuba ↔ NTT");
    push_line(s, "# transition) and shifts little with hardware.");
    push_line(s, "ntt_threshold = 8192");
    s.append("\n");
    push_line(s, "# Newton-Raphson reciprocal division above this size.  Algorithmic.");
    push_line(s, "newton_div_threshold = 64");
    s.append("\n");
}

/// The disk threshold.
pub open spec fn disk_text(s: Seq<char>, k: Knobs) -> Seq<char> {
    let s = if k.disk_limb_threshold == usize::MAX {
        let s = line(s, "# Disk-backed integer storage is disabled — peak RSS is"@);
        let s = line(s, "# expected to fit comfortably in RAM.  Set lower to push"@);
        let s = line(s, "# the biggest Integers to mmap'd scratch files (see"@);
        let s = line(s, "# bignum::storage), at a wall-time cost from SSD access."@);
        let s = line(s, "# disk_limb_threshold = 18446744073709551615   # usize::MAX = disabled"@);
        s
    } else {
        let s = s + "# MEMORY-CONSERVATIVE: Integer limb buffers ≥ "@ + display::thousands(k.disk_limb_threshold as nat) + " limbs"@ + "\n"@;
        let s = s + "# (~"@ + text::numeral(k.disk_limb_threshold as int * 8 / 0x10_0000, 10) + " MB each) are allocated via `mmap`-backed scratch"@ + "\n"@;
        let s = line(s, "# files in `$TMPDIR` instead of heap memory.  Active because"@);
        let s = s + "# estimated peak ("@ + double::fixed_text(k.est, 1) + " GB) > 70% of available RAM ("@ + double::fixed_text(k.ram, 1) + " GB)."@ + "\n"@;
        let s = line(s, "# Run wall time will rise (SSD bandwidth replaces RAM); the"@);
        let s = line(s, "# trade-off is what makes 1B-10B runs feasible on this box."@);
        let s = s + "disk_limb_threshold = "@ + text::numeral(k.disk_limb_threshold as int, 10) + "\n"@;
        s
    };
    let s = s + "\n"@;
    s
}

fn push_disk(s: &mut String, k: &Knobs)
    requires
        k.printable(),
        k.disk_limb_threshold == usize::MAX || k.disk_limb_threshold <= 10_000_000,
    ensures
        final(s)@ == disk_text(old(s)@, *k),
{
    if k.disk_limb_threshold == usize::MAX {
        push_line(s, "# Disk-backed integer storage is disabled — peak RSS is");
        push_line(s, "# expected to fit comfortably in RAM.  Set lower to push");
        push_line(s, "# the biggest Integers to mmap'd scratch files (see");
        push_line(s, "# bignum::storage), at a wall-time cost from SSD access.");
        push_line(s, "# disk_limb_threshold = 18446744073709551615   # usize::MAX = disabled");
    } else {
        s.append("# MEMORY-CONSERVATIVE: Integer limb buffers ≥ ");
        push_thousands(s, k.disk_limb_threshold as u64);
        s.append(" limbs");
        s.append("\n");
        s.append("# (~");
        push_decimal(s, k.disk_limb_threshold as u64 * 8 / 0x10_0000);
        s.append(" MB each) are allocated via `mmap`-backed scratch");
        s.append("\n");
        push_line(s, "# files in `$TMPDIR` instead of heap memory.  Active because");
        s.append("# estimated peak (");
        k.est.push_fixed(s, 1);
        s.append(" GB) > 70% of available RAM (");
        k.ram.push_fixed(s, 1);
        s.append(" GB).");
        s.append("\n");
        push_line(s, "# Run wall time will rise (SSD bandwidth replaces RAM); the");
        push_line(s, "# trade-off is what makes 1B-10B runs feasible on this box.");
        s.append("disk_limb_threshold = ");
        push_decimal(s, k.disk_limb_threshold as u64);
        s.append("\n");
    }
    s.append("\n");
}

/// Section `bignum.ntt`.
pub open spec fn ntt_text(s: Seq<char>, k: Knobs, hw: HardwareProfile) -> Seq<char> {
    let s = line(s, "[bignum.ntt]"@);
    let s = line(s, "# Per-rayon-task work in butterfly passes (u64 elements).  Sized so"@);
    let s = line(s, "# each task fits in L2 cache; smaller values spread work across more"@);
    let s = s + "# cores at the cost of more task overhead.  Picked "@ + text::numeral(k.ntt_target_task_size as int, 10) + "\n"@;
    let s = s + "# for a "@ + text::numeral(hw.logical_cores as int, 10) + "-core host (≈"@ + text::numeral(k.ntt_target_task_size as int * 8 / 1024, 10) + " KB per task)."@ + "\n"@;
    let s = s + "target_task_size = "@ + text::numeral(k.ntt_target_task_size as int, 10) + "\n"@;
    let s = s + "\n"@;
    let s = line(s, "# Pack / pointwise-mul parallelism cross-overs.  Defaults work"@);
    let s = line(s, "# across a wide core range."@);
    let s = line(s, "parallel_pack_threshold = 1024"@);
    let s = line(s, "parallel_pointwise_threshold = 1024"@);
    let s = s + "\n"@;
    s
}

fn push_ntt(s: &mut String, k: &Knobs, hw: &HardwareProfile)
    requires
        k.ntt_target_task_size <= 65_536,
    ensures
        final(s)@ == ntt_text(old(s)@, *k, *hw),
{
    push_line(s, "[bignum.ntt]");
    push_line(s, "# Per-rayon-task work in butterfly passes (u64 elements).  Sized so");
    push_line(s, "# each task fits in L2 cache; smaller values spread work across more");
    s.append("# cores at the cost of more task overhead.  Picked ");
    push_decimal(s, k.ntt_target_task_size as u64);
    s.append("\n");
    s.append("# for a ");
    push_decimal(s, hw.logical_cores as u64);
    s.append("-core host (≈");
    push_decimal(s, k.ntt_target_task_size as u64 * 8 / 1024);
    s.append(" KB per task).");
    s.append("\n");
    s.append("target_task_size = ");
    push_decimal(s, k.ntt_target_task_size as u64);
    s.append("\n");
    s.append("\n");
    push_line(s, "# Pack / pointwise-mul parallelism cross-overs.  Defaults work");
    push_line(s, "# across a wide core range.");
    push_line(s, "parallel_pack_threshold = 1024");
    push_line(s, "parallel_pointwise_threshold = 1024");
    s.append("\n");
}

/// Section `chudnovsky`.
pub open spec fn chudnovsky_text(s: Seq<char>, k: Knobs, hw: HardwareProfile) -> Seq<char> {
    let s = line(s, "[chudnovsky]"@);
    let s = line(s, "# Binary-split sub-trees with ≥ this many terms run in parallel via"@);
    let s = s + "# rayon::join.  Picked "@ + text::numeral(k.parallel_split_threshold as int, 10) + " for "@ + text::numeral(hw.logical_cores as int, 10) + " cores."@ + "\n"@;
    let s = s + "parallel_split_threshold = "@ + text::numeral(k.parallel_split_threshold as int, 10) + "\n"@;
    let s = s + "\n"@;
    let s = if k.sequential_top_threshold > 0 {
        let s = s + "# MEMORY-CONSERVATIVE: sub-trees at or above "@ + display::thousands(k.sequential_top_threshold as nat) + " terms (the top"@ + "\n"@;
        let s = line(s, "# few levels of the tree) serialise instead of parallelising, so"@);
        let s = line(s, "# at most one huge NTT scratch pair is live at the top.  Active"@);
        let s = s + "# because estimated peak ("@ + double::fixed_text(k.est, 1) + " GB) > 80% of available RAM ("@ + double::fixed_text(k.ram, 1) + " GB)."@ + "\n"@;
        let s = s + "sequential_top_threshold = "@ + text::numeral(k.sequential_top_threshold as int, 10) + "\n"@;
        s
    } else {
        let s = line(s, "# 0 = no upper cap; binary-split fully parallel at every level."@);
        let s = line(s, "# Estimated peak fits comfortably in RAM — no sequential cap needed."@);
        let s = line(s, "sequential_top_threshold = 0"@);
        s
    };
    let s = s + "\n"@;
    let s = if !k.parallel_final_assembly {
        let s = line(s, "# MEMORY-CONSERVATIVE: sqrt-chain and reciprocal run sequentially"@);
        let s = line(s, "# so only one chain's Float intermediates are live at a time."@);
        let s = line(s, "# Costs ~10% wall in final assembly; saves multi-GB at billion+ scale."@);
        let s = line(s, "parallel_final_assembly = false"@);
        s
    } else {
        let s = line(s, "# Parallel chains in final assembly — they fill each other's NTT"@);
        let s = line(s, "# serial pockets (~10% faster, more concurrent Float intermediates)."@);
        let s = line(s, "parallel_final_assembly = true"@);
        s
    };
    let s = s + "\n"@;
    s
}

fn push_chudnovsky(s: &mut String, k: &Knobs, hw: &HardwareProfile)
    requires
        k.printable(),
    ensures
        final(s)@ == chudnovsky_text(old(s)@, *k, *hw),
{
    push_line(s, "[chudnovsky]");
    push_line(s, "# Binary-split sub-trees with ≥ this many terms run in parallel via");
    s.append("# rayon::join.  Picked ");
    push_decimal(s, k.parallel_split_threshold);
    s.append(" for ");
    push_decimal(s, hw.logical_cores as u64);
    s.append(" cores.");
    s.append("\n");
    s.append("parallel_split_threshold = ");
    push_decimal(s, k.parallel_split_threshold);
    s.append("\n");
    s.append("\n");
    if k.sequential_top_threshold > 0 {
        s.append("# MEMORY-CONSERVATIVE: sub-trees at or above ");
        push_thousands(s, k.sequential_top_threshold);
        s.append(" terms (the top");
        s.append("\n");
        push_line(s, "# few levels of the tree) serialise instead of parallelising, so");
        push_line(s, "# at most one huge NTT scratch pair is live at the top.  Active");
        s.append("# because estimated peak (");
        k.est.push_fixed(s, 1);
        s.append(" GB) > 80% of available RAM (");
        k.ram.push_fixed(s, 1);
        s.append(" GB).");
        s.append("\n");
        s.append("sequential_top_threshold = ");
        push_decimal(s, k.sequential_top_threshold);
        s.append("\n");
    } else {
        push_line(s, "# 0 = no upper cap; binary-split fully parallel at every level.");
        push_line(s, "# Estimated peak fits comfortably in RAM — no sequential cap needed.");
        push_line(s, "sequential_top_threshold = 0");
    }
    s.append("\n");
    if !k.parallel_final_assembly {
        push_line(s, "# MEMORY-CONSERVATIVE: sqrt-chain and reciprocal run sequentially");
        push_line(s, "# so only one chain's Float intermediates are live at a time.");
        push_line(s, "# Costs ~10% wall in final assembly; saves multi-GB at billion+ scale.");
        push_line(s, "parallel_final_assembly = false");
    } else {
        push_line(s, "# Parallel chains in final assembly — they fill each other's NTT");
        push_line(s, "# serial pockets (~10% faster, more concurrent Float intermediates).");
        push_line(s, "parallel_final_assembly = true");
    }
    s.append("\n");
}

/// Section `decimal_conversion`.
pub open spec fn decimal_text(s: Seq<char>, k: Knobs, hw: HardwareProfile) -> Seq<char> {
    let s = line(s, "[decimal_conversion]"@);
    let s = line(s, "# Algorithmic crossover, unchanged with hardware."@);
    let s = line(s, "to_string_dc_threshold = 32"@);
    let s = s + "\n"@;
    let s = s + "# D&C base-conversion parallelism crossover.  Picked "@ + text::numeral(k.parallel_to_string_threshold as int, 10) + "\n"@;
    let s = s + "# for "@ + text::numeral(hw.logical_cores as int, 10) + " cores."@ + "\n"@;
    let s = s + "parallel_to_string_threshold = "@ + text::numeral(k.parallel_to_string_threshold as int, 10) + "\n"@;
    let s = s + "\n"@;
    s
}

fn push_decimal_section(s: &mut String, k: &Knobs, hw: &HardwareProfile)
    ensures
        final(s)@ == decimal_text(old(s)@, *k, *hw),
{
    push_line(s, "[decimal_conversion]");
    push_line(s, "# Algorithmic crossover, unchanged with hardware.");
    push_line(s, "to_string_dc_threshold = 32");
    s.append("\n");
    s.append("# D&C base-conversion parallelism crossover.  Picked ");
    push_decimal(s, k.parallel_to_string_threshold as u64);
    s.append("\n");
    s.append("# for ");
    push_decimal(s, hw.logical_cores as u64);
    s.append(" cores.");
    s.append("\n");
    s.append("parallel_to_string_threshold = ");
    push_decimal(s, k.parallel_to_string_threshold as u64);
    s.append("\n");
    s.append("\n");
}

/// Section `perf`.
pub open spec fn perf_text(s: Seq<char>, digits: u64, k: Knobs) -> Seq<char> {
    let s = line(s, "[perf]"@);
    let s = s + "# Default `--performance-sample-ms`.  Picked "@ + text::numeral(k.default_sample_ms as int, 10) + " ms for a"@ + "\n"@;
    let s = s + "# "@ + display::thousands(digits as nat) + "-digit run — coarser samples for longer runs keep the JSONL small."@ + "\n"@;
    let s = s + "default_sample_ms = "@ + text::numeral(k.default_sample_ms as int, 10) + "\n"@;
    s
}

fn push_perf(s: &mut String, digits: u64, k: &Knobs)
    ensures
        final(s)@ == perf_text(old(s)@, digits, *k),
{
    push_line(s, "[perf]");
    s.append("# Default `--performance-sample-ms`.  Picked ");
    push_decimal(s, k.default_sample_ms);
    s.append(" ms for a");
    s.append("\n");
    s.append("# ");
    push_thousands(s, digits);
    s.append("-digit run — coarser samples for longer runs keep the JSONL small.");
    s.append("\n");
    s.append("default_sample_ms = ");
    push_decimal(s, k.default_sample_ms);
    s.append("\n");
}

/// The file for a host and a number of digits.
pub open spec fn config_text(digits: u64, hw: HardwareProfile, k: Knobs) -> Seq<char> {
    let s = header_text(Seq::empty(), digits, hw, k);
    let s = rationale_text(s, k);
    let s = runtime_text(s, hw);
    let s = bignum_text(s, k, hw);
    let s = disk_text(s, k);
    let s = ntt_text(s, k, hw);
    let s = chudnovsky_text(s, k, hw);
    let s = decimal_text(s, k, hw);
    perf_text(s, digits, k)
}

/// Write the file for a host and a number of digits.
pub fn generate(digits: u64, hw: &HardwareProfile) -> (r: String)
    ensures
        r@ == config_text(digits, *hw, knobs_for(digits, *hw)),
{
    let k: Knobs = pick_knobs(digits, hw);
    let mut s: String = String::new();
    push_header(&mut s, digits, hw, &k);
    push_rationale(&mut s, &k);
    push_runtime(&mut s, hw);
    push_bignum(&mut s, &k, hw);
    push_disk(&mut s, &k);
    push_ntt(&mut s, &k, hw);
    push_chudnovsky(&mut s, &k, hw);
    push_decimal_section(&mut s, &k, hw);
    push_perf(&mut s, digits, &k);
    s
}

/// The unit of double precision.
proof fn lemma_unit()
    ensures
        reals::rpow2(-53) * 9_007_199_254_740_992real == 1real,
        0real < reals::rpow2(-53) <= 1real / 10000real,
        reals::rpow2(0) == 1real,
        reals::rpow2(-49) * 562_949_953_421_312real == 1real,
        reals::rpow2(-52) * 4_503_599_627_370_496real == 1real,
        reals::rpow2(-30) * 1_073_741_824real == 1real,
        reals::rpow2(-1) * 2real == 1real,
{
    lemma2_to64();
    lemma2_to64_rest();
    reals::lemma_rpow2_step(-53);
    reals::lemma_rpow2_step(0);
    reals::lemma_rpow2_nat(53);
    reals::lemma_rpow2_nat(52);
    reals::lemma_rpow2_nat(49);
    reals::lemma_rpow2_nat(30);
    reals::lemma_rpow2_nat(1);
    reals::lemma_rpow2_add(-53, 53);
    reals::lemma_rpow2_add(-52, 52);
    reals::lemma_rpow2_add(-49, 49);
    reals::lemma_rpow2_add(-30, 30);
    reals::lemma_rpow2_add(-1, 1);
    let u = reals::rpow2(-53);
    assert(u <= 1real / 10000real) by (nonlinear_arith)
        requires
            u * 9_007_199_254_740_992real == 1real,
    ;
}

/// A number of 64 bits in double precision.
proof fn lemma_whole(n: u64)
    requires
        n > 0,
    ensures
        Double::of(n as int, 0).wf(),
        Double::of(n as int, 0).mant > 0,
        0 <= Double::of(n as int, 0).exp <= 11,
        accuracy::within(Double::of(n as int, 0).value(), n as real, 1real, reals::rpow2(-53)),
{
    lemma_unit();
    lemma2_to64();
    bitlen::lemma_bit_len_at_most(n as int, 64);
    double::lemma_of_value(n as int, 0);
    let x = n as real;
    assert(x * 1real == x) by (nonlinear_arith);
}

/// The estimated peak is 5.4 gigabytes for each hundred million digits, but for the
/// rounding of double precision.
pub proof fn law_peak_estimate(digits: u64)
    requires
        digits > 0,
    ensures
        peak_estimate(digits).wf(),
        peak_estimate(digits).mant > 0,
        -0x200 <= peak_estimate(digits).exp <= 0x200,
        accuracy::within(
            peak_estimate(digits).value(),
            (54real / 1_000_000_000real) * (digits as real),
            9real,
            reals::rpow2(-53),
        ),
{
    lemma_unit();
    lemma_whole(digits);
    let u = reals::rpow2(-53);
    let rate = Double { mant: 3_039_929_748_475_085, exp: (-49int) as i32 };
    let d = Double::of(digits as int, 0);
    let p = Double::product(rate, d);
    let c = Double { mant: 100_000_000, exp: 0 };
    let w = reals::rpow2(-49);
    let five = 54real / 10real;
    assert(1real * u == u) by (nonlinear_arith);
    assert(accuracy::within(rate.value(), five, 1real, u)) by {
        assert(five - five * u <= 3_039_929_748_475_085real * w <= five + five * u)
            by (nonlinear_arith)
            requires
                w * 562_949_953_421_312real == 1real,
                u * 9_007_199_254_740_992real == 1real,
                five == 54real / 10real,
        ;
    }
    double::law_double_product(rate, d);
    double::law_double_quotient(p, c);
    let n = digits as real;
    accuracy::lemma_within_product(rate.value(), five, 1real, d.value(), n, 1real, u);
    accuracy::lemma_within_chain(p.value(), rate.value() * d.value(), five * n, 1real, 3real, u);
    let k = 100_000_000real;
    assert(c.value() == k) by {
        assert(k * 1real == k) by (nonlinear_arith);
    }
    let i = 1real / k;
    accuracy::lemma_within_scale(p.value(), five * n, 5real, u, i);
    let pv = p.value();
    assert(pv / k == pv * i) by (nonlinear_arith)
        requires
            i == 1real / k,
            k == 100_000_000real,
    ;
    let q = Double::quotient(p, c);
    let y = (54real / 1_000_000_000real) * n;
    assert((five * n) * i == y) by (nonlinear_arith)
        requires
            i == 1real / 100_000_000real,
            five == 54real / 10real,
            y == (54real / 1_000_000_000real) * n,
    ;
    accuracy::lemma_within_chain(q.value(), pv / k, y, 3real, 5real, u);
}

/// The memory in gigabytes is its bytes over `2^30`, but for the rounding of double
/// precision.
pub proof fn law_gigabytes(ram_bytes: u64)
    ensures
        ram_bytes == 0 ==> gigabytes(ram_bytes).mant == 0,
        ram_bytes > 0 ==> {
            let g = gigabytes(ram_bytes);
            &&& g.wf()
            &&& g.mant > 0
            &&& -30 <= g.exp <= -19
            &&& accuracy::within(
                g.value(),
                (ram_bytes as real) / 1_073_741_824real,
                1real,
                reals::rpow2(-53),
            )
        },
{
    lemma_unit();
    if ram_bytes == 0 {
        double::law_round_even(0, 0);
        double::law_double_drop(0);
    } else {
        lemma_whole(ram_bytes);
        let u = reals::rpow2(-53);
        let d = Double::of(ram_bytes as int, 0);
        let g = gigabytes(ram_bytes);
        let n = ram_bytes as real;
        reals::lemma_rpow2_add(d.exp as int, -30);
        let (m, v, w) = (d.mant as real, reals::rpow2(d.exp as int), reals::rpow2(-30));
        assert(m * (v * w) == (m * v) * w) by (nonlinear_arith);
        reals::lemma_rpow2_step(-30);
        accuracy::lemma_within_scale(d.value(), n, 1real, u, w);
        assert(n * w == n / 1_073_741_824real) by (nonlinear_arith)
            requires
                w * 1_073_741_824real == 1real,
        ;
    }
}

/// A part of the memory: the product with a factor near `s`.
proof fn lemma_share(ram: Double, factor: Double, y: real, s: real)
    requires
        ram.wf() && ram.mant > 0 && -30 <= ram.exp <= -19,
        factor.wf() && factor.mant > 0 && -60 <= factor.exp <= 0,
        accuracy::within(ram.value(), y, 1real, reals::rpow2(-53)),
        accuracy::within(factor.value(), s, 1real, reals::rpow2(-53)),
    ensures
        accuracy::within(
            Double::product(ram, factor).value(),
            y * s,
            5real,
            reals::rpow2(-53),
        ),
{
    lemma_unit();
    let u = reals::rpow2(-53);
    double::law_double_product(ram, factor);
    accuracy::lemma_within_product(ram.value(), y, 1real, factor.value(), s, 1real, u);
    accuracy::lemma_within_chain(
        Double::product(ram, factor).value(),
        ram.value() * factor.value(),
        y * s,
        1real,
        3real,
        u,
    );
}

/// The factors of the parts are a half, four fifths and seven tenths.
proof fn lemma_factors()
    ensures
        accuracy::within(
            (Double { mant: 1, exp: (-1int) as i32 }).value(),
            1real / 2real,
            1real,
            reals::rpow2(-53),
        ),
        accuracy::within(
            (Double { mant: 3_602_879_701_896_397, exp: (-52int) as i32 }).value(),
            4real / 5real,
            1real,
            reals::rpow2(-53),
        ),
        accuracy::within(
            (Double { mant: 3_152_519_739_159_347, exp: (-52int) as i32 }).value(),
            7real / 10real,
            1real,
            reals::rpow2(-53),
        ),
{
    lemma_unit();
    let u = reals::rpow2(-53);
    let w = reals::rpow2(-52);
    let h = reals::rpow2(-1);
    assert(1real * u == u) by (nonlinear_arith);
    let (a, b, c) = (1real / 2real, 4real / 5real, 7real / 10real);
    assert(a - a * u <= 1real * h <= a + a * u) by (nonlinear_arith)
        requires
            h * 2real == 1real,
            a == 1real / 2real,
            u > 0real,
    ;
    assert(b - b * u <= 3_602_879_701_896_397real * w <= b + b * u) by (nonlinear_arith)
        requires
            w * 4_503_599_627_370_496real == 1real,
            u * 9_007_199_254_740_992real == 1real,
            b == 4real / 5real,
    ;
    assert(c - c * u <= 3_152_519_739_159_347real * w <= c + c * u) by (nonlinear_arith)
        requires
            w * 4_503_599_627_370_496real == 1real,
            u * 9_007_199_254_740_992real == 1real,
            c == 7real / 10real,
    ;
}

/// Numbers that are clearly apart are compared right, whatever their rounding.
proof fn lemma_compared(a: Double, x: real, b: Double, y: real)
    requires
        accuracy::within(a.value(), x, 9real, reals::rpow2(-53)),
        accuracy::within(b.value(), y, 5real, reals::rpow2(-53)),
    ensures
        x + x / 10_000_000_000_000real <= y ==> a.below(b),
        y + y / 10_000_000_000_000real <= x ==> !a.below(b),
{
    lemma_unit();
    double::law_below(a, b);
    let u = reals::rpow2(-53);
    let (av, bv) = (a.value(), b.value());
    let t = 1real / 900_000_000_000_000real;
    assert(x * (9real * u) <= x * t && y * (5real * u) <= y * t) by (nonlinear_arith)
        requires
            u * 9_007_199_254_740_992real == 1real,
            t == 1real / 900_000_000_000_000real,
            x > 0real,
            y > 0real,
    ;
    let xt = x * t;
    let yt = y * t;
    assert(900_000_000_000_000real * xt == x) by (nonlinear_arith)
        requires
            xt == x * t,
            t == 1real / 900_000_000_000_000real,
    ;
    assert(900_000_000_000_000real * yt == y) by (nonlinear_arith)
        requires
            yt == y * t,
            t == 1real / 900_000_000_000_000real,
    ;
}

/// A part of the memory against the peak, over the reals and in whole numbers.
proof fn lemma_apart(e: int, r: int, x: real, y: real, p: int, q: int)
    requires
        0 < p <= 10,
        0 < q <= 10,
        e > 0,
        r > 0,
        x == (e as real) / 1_073_741_824_000_000_000real,
        y == ((r as real) / 1_073_741_824_000_000_000real) * ((p as real) / (q as real)),
    ensures
        q * e * 10_000_000_000_001 <= p * r * 10_000_000_000_000 ==> x + x / 10_000_000_000_000real
            <= y,
        p * r * 10_000_000_000_001 <= q * e * 10_000_000_000_000 ==> y + y / 10_000_000_000_000real
            <= x,
{
    let k = 1_073_741_824_000_000_000real;
    let (er, rr, pr, qr) = (e as real, r as real, p as real, q as real);
    reals::lemma_int_product(q, e);
    reals::lemma_int_product(p, r);
    let f = pr / qr;
    assert(f * qr == pr) by (nonlinear_arith)
        requires
            f == pr / qr,
            qr > 0real,
    ;
    let xk = x * k;
    let yk = y * k;
    assert(xk == er) by (nonlinear_arith)
        requires
            xk == x * k,
            x == er / k,
            k == 1_073_741_824_000_000_000real,
    ;
    assert(yk * qr == pr * rr) by (nonlinear_arith)
        requires
            yk == y * k,
            y == (rr / k) * f,
            k == 1_073_741_824_000_000_000real,
            f * qr == pr,
    ;
    let a = qr * er;
    let b = pr * rr;
    assert((q * e) as real == a && (p * r) as real == b);
    let qk = qr * k;
    assert(qk > 0real) by (nonlinear_arith)
        requires
            qk == qr * k,
            qr > 0real,
            k == 1_073_741_824_000_000_000real,
    ;
    assert(x * qk == a && y * qk == b) by (nonlinear_arith)
        requires
            qk == qr * k,
            x * k == er,
            (y * k) * qr == b,
            a == qr * er,
    ;
    if q * e * 10_000_000_000_001 <= p * r * 10_000_000_000_000 {
        assert(a + a / 10_000_000_000_000real <= b);
        let s = x + x / 10_000_000_000_000real;
        assert(s * qk == a + a / 10_000_000_000_000real) by (nonlinear_arith)
            requires
                x * qk == a,
                s == x + x / 10_000_000_000_000real,
        ;
        assert(s <= y) by (nonlinear_arith)
            requires
                s * qk <= y * qk,
                qk > 0real,
        ;
    }
    if p * r * 10_000_000_000_001 <= q * e * 10_000_000_000_000 {
        assert(b + b / 10_000_000_000_000real <= a);
        let s = y + y / 10_000_000_000_000real;
        assert(s * qk == b + b / 10_000_000_000_000real) by (nonlinear_arith)
            requires
                y * qk == b,
                s == y + y / 10_000_000_000_000real,
        ;
        assert(s <= x) by (nonlinear_arith)
            requires
                s * qk <= x * qk,
                qk > 0real,
        ;
    }
}

/// The memory mode in whole numbers.  The peak is 5.4 gigabytes for each hundred
/// million digits: where it is under half of the memory, speed is chosen; from half
/// to four fifths, a moderate use; and above, or where the memory is not known, a
/// conservative one.  Below seven tenths nothing goes to disk, and above, buffers do
/// from a two hundredth of the digits on, but not below 50000 limbs and from
/// 10000000 in any case.  Double precision decides within one part in ten million
/// millions of a bound.
pub proof fn law_memory(digits: u64, ram_bytes: u64)
    requires
        digits > 0,
    ensures
        ({
            let e = 54 * digits * 1_073_741_824;
            let r = ram_bytes * 1_000_000_000;
            let (above, below) = (10_000_000_000_001int, 10_000_000_000_000int);
            let est = peak_estimate(digits);
            let ram = gigabytes(ram_bytes);
            let mode = memory_mode(est, ram);
            let disk = disk_threshold(digits, est, ram);
            &&& ram_bytes == 0 ==> mode == MemoryMode::Conservative && disk == usize::MAX
            &&& ram_bytes > 0 ==> {
                &&& 2 * e * above <= 1 * r * below ==> mode == MemoryMode::Speed
                &&& 1 * r * above <= 2 * e * below && 5 * e * above <= 4 * r * below ==> mode
                    == MemoryMode::Moderate
                &&& 4 * r * above <= 5 * e * below ==> mode == MemoryMode::Conservative
                &&& 10 * e * above <= 7 * r * below ==> disk == usize::MAX
                &&& 7 * r * above <= 10 * e * below ==> {
                    &&& 50_000 <= disk <= 10_000_000
                    &&& 10_000_000 <= digits <= 2_000_000_000 ==> 200 * disk <= digits < 200 * (disk
                        + 1)
                    &&& digits < 10_000_000 ==> disk == 50_000
                    &&& digits > 2_000_000_199 ==> disk == 10_000_000
                }
            }
        }),
{
    law_peak_estimate(digits);
    law_gigabytes(ram_bytes);
    if ram_bytes > 0 {
        lemma_factors();
        let e = 54 * digits * 1_073_741_824;
        let r = ram_bytes * 1_000_000_000;
        let est = peak_estimate(digits);
        let ram = gigabytes(ram_bytes);
        let k = 1_073_741_824_000_000_000real;
        let x = (54real / 1_000_000_000real) * (digits as real);
        let y = (ram_bytes as real) / 1_073_741_824real;
        assert((e as real) == 54real * (digits as real) * 1_073_741_824real);
        assert(x == (e as real) / k);
        assert(y == (r as real) / k);
        lemma_share(ram, Double { mant: 1, exp: (-1int) as i32 }, y, 1real / 2real);
        lemma_share(
            ram,
            Double { mant: 3_602_879_701_896_397, exp: (-52int) as i32 },
            y,
            4real / 5real,
        );
        lemma_share(
            ram,
            Double { mant: 3_152_519_739_159_347, exp: (-52int) as i32 },
            y,
            7real / 10real,
        );
        lemma_compared(est, x, half_of(ram), y * (1real / 2real));
        lemma_compared(est, x, four_fifths_of(ram), y * (4real / 5real));
        lemma_compared(est, x, seven_tenths_of(ram), y * (7real / 10real));
        lemma_apart(e, r, x, y * (1real / 2real), 1, 2);
        lemma_apart(e, r, x, y * (4real / 5real), 4, 5);
        lemma_apart(e, r, x, y * (7real / 10real), 7, 10);
        assert(2 * e * 10_000_000_000_001 <= 1 * r * 10_000_000_000_000 ==> 5 * e
            * 10_000_000_000_001 <= 4 * r * 10_000_000_000_000);
        assert(4 * r * 10_000_000_000_001 <= 5 * e * 10_000_000_000_000 ==> 1 * r
            * 10_000_000_000_001 <= 2 * e * 10_000_000_000_000);
    }
}

/// The values that go by the number of cores: the more of them, the finer the work
/// is split.
pub proof fn law_cores(digits: u64, hw: HardwareProfile)
    ensures
        ({
            let k = knobs_for(digits, hw);
            let n = hw.logical_cores;
            &&& n <= 12 ==> k.parallel_karatsuba_threshold == 512 && k.ntt_target_task_size == 65_536
                && k.parallel_split_threshold == 64 && k.parallel_to_string_threshold == 256
            &&& 12 < n <= 32 ==> k.parallel_karatsuba_threshold == 256 && k.ntt_target_task_size
                == 32_768 && k.parallel_split_threshold == 32 && k.parallel_to_string_threshold
                == 128
            &&& 32 < n <= 64 ==> k.parallel_karatsuba_threshold == 192
            &&& n > 64 ==> k.parallel_karatsuba_threshold == 128
            &&& n > 32 ==> k.ntt_target_task_size == 16_384 && k.parallel_split_threshold == 16
                && k.parallel_to_string_threshold == 64
        }),
{
}

/// The values that go by the mode and by the digits: terms are summed one after the
/// other only where memory is short, from a thousandth of the digits on, or from a
/// thirtieth where buffers live on disk; the assembly runs side by side where memory
/// is plenty or buffers live on disk; and longer runs are sampled less often.
pub proof fn law_knobs(digits: u64, hw: HardwareProfile)
    ensures
        ({
            let k = knobs_for(digits, hw);
            let on_disk = k.disk_limb_threshold != usize::MAX;
            &&& k.est == peak_estimate(digits)
            &&& k.ram == gigabytes(hw.ram_bytes)
            &&& k.mode == memory_mode(k.est, k.ram)
            &&& k.disk_limb_threshold == disk_threshold(digits, k.est, k.ram)
            &&& k.mode != MemoryMode::Conservative ==> k.sequential_top_threshold == 0
            &&& k.mode == MemoryMode::Conservative && on_disk ==> 30 * k.sequential_top_threshold
                <= digits < 30 * (k.sequential_top_threshold + 1)
            &&& k.mode == MemoryMode::Conservative && !on_disk ==> 1000
                * k.sequential_top_threshold <= digits < 1000 * (k.sequential_top_threshold + 1)
            &&& k.parallel_final_assembly <==> k.mode == MemoryMode::Speed || on_disk
            &&& digits <= 10_000_000 ==> k.default_sample_ms == 250
            &&& 10_000_000 < digits <= 200_000_000 ==> k.default_sample_ms == 500
            &&& 200_000_000 < digits <= 5_000_000_000 ==> k.default_sample_ms == 1000
            &&& digits > 5_000_000_000 ==> k.default_sample_ms == 2000
        }),
{
}

/// The peak in percent of the memory, but for the rounding of double precision.
pub proof fn law_percentage(digits: u64, hw: HardwareProfile)
    requires
        digits > 0,
    ensures
        hw.ram_bytes == 0 ==> knobs_for(digits, hw).percent.mant == 0,
        hw.ram_bytes > 0 ==> {
            let k = knobs_for(digits, hw);
            accuracy::within(
                k.percent.value(),
                100real * (k.est.value() / k.ram.value()),
                5real,
                reals::rpow2(-53),
            )
        },
{
    law_peak_estimate(digits);
    law_gigabytes(hw.ram_bytes);
    if hw.ram_bytes > 0 {
        lemma_unit();
        let u = reals::rpow2(-53);
        let est = peak_estimate(digits);
        let ram = gigabytes(hw.ram_bytes);
        let q = Double::quotient(est, ram);
        let c = Double { mant: 100, exp: 0 };
        double::law_double_quotient(est, ram);
        double::law_double_product(q, c);
        let v = est.value() / ram.value();
        let h = 100real;
        assert(c.value() == h) by {
            assert(h * 1real == h) by (nonlinear_arith);
        }
        accuracy::lemma_within_scale(q.value(), v, 3real, u, h);
        accuracy::lemma_within_chain(
            Double::product(q, c).value(),
            q.value() * h,
            v * h,
            1real,
            3real,
            u,
        );
        reals::lemma_real_comm(v, h);
    }
}

/// The memory in words: gigabytes to one decimal place, or that it is unknown.
pub proof fn law_ram_words(ram_bytes: u64, ram: Double)
    ensures
        ram_bytes > 0 ==> ram_words(ram_bytes, ram) == double::fixed_text(ram, 1) + " GB"@,
        ram_bytes == 0 ==> ram_words(ram_bytes, ram) == "unknown"@,
{
}

/// The head of a generated file: the command that makes it, the host, the digits,
/// the estimated peak and the memory mode.
pub proof fn law_header(digits: u64, hw: HardwareProfile, k: Knobs)
    ensures
        header_text(Seq::empty(), digits, hw, k) == Seq::<char>::empty()
            + "# ============================================================================="@
            + "\n"@ + "# Generated by `pi --generate-config "@ + text::numeral(digits as int, 10)
            + "`"@ + "\n"@ + "# Host: "@ + text::numeral(hw.logical_cores as int, 10)
            + " cores logical ("@ + text::numeral(hw.physical_cores as int, 10) + " physical), "@
            + ram_words(hw.ram_bytes, k.ram) + " RAM, "@ + hw.os@ + "/"@ + hw.arch@ + "\n"@
            + "# Target: "@ + display::thousands(digits as nat) + " digits"@ + "\n"@
            + "# Estimated peak RSS at full parallelism: "@ + double::fixed_text(k.est, 1)
            + " GB"@ + "\n"@
            + "#   (linear extrapolation from a measured 5.4 GB at 100M; peak is set by"@ + "\n"@
            + "#    top-of-tree integers + NTT scratch, which do not scale with core count)"@
            + "\n"@ + "# Memory mode: "@ + (match k.mode {
            MemoryMode::Speed => "Speed"@,
            MemoryMode::Moderate => "Moderate"@,
            MemoryMode::Conservative => "Conservative"@,
        }) + "\n"@,
{
}

} // verus!
