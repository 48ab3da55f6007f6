//! Parameters: defaults, settings in force, files and the file for a host.
use pi_digits::bignum_config;
use pi_digits::bignum_config::{
    disk_limb_threshold, karatsuba_threshold, newton_div_threshold, ntt_parallel_pack_threshold,
    ntt_parallel_pointwise_threshold, ntt_target_task_size, ntt_threshold,
    parallel_karatsuba_threshold, parallel_to_string_threshold, to_string_dc_threshold, Tuning,
};
use pi_digits::config_gen::{generate, pick_knobs, MemoryMode};
use pi_digits::file_config::{apply_file_config, FileConfig};
use pi_digits::hardware::{physical_cores, ram_bytes, HardwareProfile};
use pi_digits::pi_config;
use pi_digits::pi_config::{
    chudnovsky_parallel_final_assembly, chudnovsky_parallel_split_threshold,
    chudnovsky_sequential_top_threshold, perf_default_sample_ms, Settings,
};

#[test]
fn defaults_match_atomics_at_startup() {
    let d = bignum_config::Config::default();
    let t = Tuning::default();
    assert_eq!(d.karatsuba_threshold, karatsuba_threshold(&t));
    assert_eq!(d.ntt_threshold, ntt_threshold(&t));
    assert_eq!(d.ntt.target_task_size, ntt_target_task_size(&t));
    assert_eq!(parallel_karatsuba_threshold(&t), 512);
    assert_eq!(newton_div_threshold(&t), 64);
    assert_eq!(to_string_dc_threshold(&t), 32);
    assert_eq!(parallel_to_string_threshold(&t), 256);
    assert_eq!(disk_limb_threshold(&t), usize::MAX);
    assert_eq!(ntt_parallel_pack_threshold(&t), 1024);
    assert_eq!(ntt_parallel_pointwise_threshold(&t), 1024);
}

#[test]
fn config_apply_round_trips() {
    let mut t = Tuning::default();
    let mut c = bignum_config::Config::default();
    c.ntt_threshold = 9999;
    c.ntt.target_task_size = 32_768;
    bignum_config::apply(&mut t, &c);
    assert_eq!(ntt_threshold(&t), 9999);
    assert_eq!(ntt_target_task_size(&t), 32_768);
    assert_eq!(bignum_config::Config::current(&t), c);
    bignum_config::apply(&mut t, &bignum_config::Config::default());
    assert_eq!(ntt_threshold(&t), 8192);
}

#[test]
fn apply_round_trips() {
    let mut s = Settings::default();
    let mut c = pi_config::Config::default();
    c.chudnovsky.parallel_split_threshold = 128;
    c.perf.default_sample_ms = 250;
    pi_config::apply(&mut s, &c);
    assert_eq!(chudnovsky_parallel_split_threshold(&s), 128);
    assert_eq!(perf_default_sample_ms(&s), 250);
    pi_config::apply(&mut s, &pi_config::Config::default());
    assert_eq!(chudnovsky_parallel_split_threshold(&s), 64);
    assert_eq!(chudnovsky_sequential_top_threshold(&s), 0);
    assert!(chudnovsky_parallel_final_assembly(&s));
    assert_eq!(pi_config::Config::current(&s).perf.default_sample_ms, 500);
}

#[test]
fn a_silent_file_leaves_the_defaults() {
    let mut t = Tuning::default();
    let mut s = Settings::default();
    let mut c = bignum_config::Config::default();
    c.ntt_threshold = 1;
    bignum_config::apply(&mut t, &c);
    let threads = apply_file_config(&FileConfig::default(), &mut t, &mut s);
    assert_eq!(threads, None);
    assert_eq!(t.active, bignum_config::Config::default());
    assert_eq!(s.active.chudnovsky.parallel_split_threshold, 64);
}

#[test]
fn a_file_overrides_what_it_names() {
    let mut f = FileConfig::default();
    f.runtime.threads = 3;
    f.bignum.karatsuba_threshold = Some(40);
    f.bignum.disk_limb_threshold = Some(1_000);
    f.bignum.ntt.parallel_pack_threshold = Some(7);
    f.decimal_conversion.parallel_to_string_threshold = Some(99);
    f.chudnovsky.parallel_final_assembly = Some(false);
    f.perf.default_sample_ms = Some(20);
    let mut t = Tuning::default();
    let mut s = Settings::default();
    assert_eq!(apply_file_config(&f, &mut t, &mut s), Some(3));
    assert_eq!(t.active.karatsuba_threshold, 40);
    assert_eq!(t.active.disk_limb_threshold, 1_000);
    assert_eq!(t.active.ntt.parallel_pack_threshold, 7);
    assert_eq!(t.active.parallel_to_string_threshold, 99);
    assert_eq!(t.active.ntt_threshold, 8192);
    assert!(!s.active.chudnovsky.parallel_final_assembly);
    assert_eq!(s.active.chudnovsky.sequential_top_threshold, 0);
    assert_eq!(s.active.perf.default_sample_ms, 20);
}

fn host(cores: usize, ram_bytes: u64) -> HardwareProfile {
    HardwareProfile {
        logical_cores: cores,
        physical_cores: cores / 2,
        ram_bytes,
        os: "linux",
        arch: "x86_64",
    }
}

const GIB: u64 = 1 << 30;

#[test]
fn knobs_follow_the_cores() {
    for (cores, karatsuba, task, split, text) in [
        (1_usize, 512_usize, 65_536_usize, 64_u64, 256_usize),
        (12, 512, 65_536, 64, 256),
        (13, 256, 32_768, 32, 128),
        (32, 256, 32_768, 32, 128),
        (33, 192, 16_384, 16, 64),
        (64, 192, 16_384, 16, 64),
        (65, 128, 16_384, 16, 64),
    ] {
        let k = pick_knobs(1_000_000, &host(cores, 64 * GIB));
        assert_eq!(k.parallel_karatsuba_threshold, karatsuba);
        assert_eq!(k.ntt_target_task_size, task);
        assert_eq!(k.parallel_split_threshold, split);
        assert_eq!(k.parallel_to_string_threshold, text);
    }
}

/// The same decisions in the machine's own double precision.
fn expected_mode(digits: u64, ram: u64) -> (MemoryMode, usize) {
    let ram_gb = ram as f64 / 1024.0_f64.powi(3);
    let est = 5.4 * (digits as f64) / 1.0e8;
    let mode = if ram == 0 {
        MemoryMode::Conservative
    } else if est < ram_gb * 0.5 {
        MemoryMode::Speed
    } else if est < ram_gb * 0.8 {
        MemoryMode::Moderate
    } else {
        MemoryMode::Conservative
    };
    let disk = if ram_gb <= 0.0 || est < ram_gb * 0.7 {
        usize::MAX
    } else {
        ((digits / 200) as usize).clamp(50_000, 10_000_000)
    };
    (mode, disk)
}

#[test]
fn memory_modes_follow_double_arithmetic() {
    for digits in [0_u64, 1, 1_000_000, 92_592_592, 100_000_000, 1_000_000_000, 77_777_777_777] {
        for ram in [0_u64, 1, GIB, 5 * GIB, 8 * GIB, 10_800_000_000, 64 * GIB, u64::MAX] {
            let k = pick_knobs(digits, &host(8, ram));
            let (mode, disk) = expected_mode(digits, ram);
            assert_eq!(k.mode, mode, "{digits} digits, {ram} bytes");
            assert_eq!(k.disk_limb_threshold, disk, "{digits} digits, {ram} bytes");
            let engaged = disk != usize::MAX;
            let conservative = mode == MemoryMode::Conservative;
            assert_eq!(k.parallel_final_assembly, mode == MemoryMode::Speed || engaged);
            let top = if !conservative {
                0
            } else if engaged {
                digits / 30
            } else {
                digits / 1000
            };
            assert_eq!(k.sequential_top_threshold, top);
        }
    }
}

fn line_with<'a>(text: &'a str, start: &str) -> &'a str {
    text.lines().find(|l| l.starts_with(start)).unwrap()
}

#[test]
fn the_head_of_a_file_shows_the_host() {
    let text = generate(1_000_000_000, &host(16, 32 * GIB));
    assert_eq!(
        line_with(&text, "# Host:"),
        "# Host: 16 cores logical (8 physical), 32.0 GB RAM, linux/x86_64"
    );
    assert_eq!(line_with(&text, "# Target:"), "# Target: 1,000,000,000 digits");
    assert_eq!(
        line_with(&text, "# Estimated peak RSS"),
        "# Estimated peak RSS at full parallelism: 54.0 GB"
    );
    assert_eq!(line_with(&text, "# Memory mode"), "# Memory mode: Conservative");
    assert!(text.contains("# MEMORY-CONSERVATIVE: Integer limb buffers ≥ 5,000,000 limbs\n"));
    assert!(text.contains("# (~38 MB each) are allocated via `mmap`-backed scratch\n"));
    assert!(text.contains("sequential_top_threshold = 33333333\n"));
    assert!(text.ends_with("default_sample_ms = 1000\n"));
}

#[test]
fn tight_memory_assembles_sequentially() {
    let text = generate(1_000_000_000, &host(16, 96 * GIB));
    assert_eq!(line_with(&text, "# Memory mode"), "# Memory mode: Moderate");
    assert!(text.lines().any(|l| l == "sequential_top_threshold = 0"));
    assert!(text.lines().any(|l| l == "parallel_final_assembly = false"));
    assert!(!text.lines().any(|l| l.starts_with("disk_limb_threshold = ")));
}

#[test]
fn unknown_memory_is_said_to_be_unknown() {
    let text = generate(5_000_000, &host(4, 0));
    assert!(text.contains("(2 physical), unknown RAM, linux/x86_64\n"));
    assert!(text.contains("# (RAM unknown — defaulting to Conservative mode.)\n"));
    assert!(text.contains("parallel_final_assembly = false\n"));
    assert!(text.contains("sequential_top_threshold = 5000\n"));
}

#[test]
fn percentages_are_printed_as_doubles_are() {
    for (digits, ram) in [(50_000_000_u64, 16 * GIB), (123_456_789, 12 * GIB), (1, 3 * GIB)] {
        let text = generate(digits, &host(8, ram));
        let ram_gb = ram as f64 / 1024.0_f64.powi(3);
        let est = 5.4 * (digits as f64) / 1.0e8;
        let pct = (est / ram_gb) * 100.0;
        let expected = format!("#   Estimated peak {est:.1} GB is {pct:.0}% of RAM");
        assert!(text.contains(&expected), "{expected}");
    }
}

/// The entries of a generated file, as a parser of the format reads them.
fn loaded(text: &str) -> FileConfig {
    let table: toml::Table = text.parse().unwrap();
    let get = |section: &str, key: &str| -> Option<i64> {
        table[section].as_table().unwrap().get(key).and_then(|v| v.as_integer())
    };
    let ntt = |key: &str| -> Option<usize> {
        table["bignum"]["ntt"].as_table().unwrap().get(key).and_then(|v| v.as_integer()).map(|v| v as usize)
    };
    let size = |section: &str, key: &str| get(section, key).map(|v| v as usize);
    let count = |section: &str, key: &str| get(section, key).map(|v| v as u64);
    let mut f = FileConfig::default();
    f.runtime.threads = size("runtime", "threads").unwrap();
    f.bignum.karatsuba_threshold = size("bignum", "karatsuba_threshold");
    f.bignum.parallel_karatsuba_threshold = size("bignum", "parallel_karatsuba_threshold");
    f.bignum.ntt_threshold = size("bignum", "ntt_threshold");
    f.bignum.newton_div_threshold = size("bignum", "newton_div_threshold");
    f.bignum.disk_limb_threshold = size("bignum", "disk_limb_threshold");
    f.bignum.ntt.target_task_size = ntt("target_task_size");
    f.bignum.ntt.parallel_pack_threshold = ntt("parallel_pack_threshold");
    f.bignum.ntt.parallel_pointwise_threshold = ntt("parallel_pointwise_threshold");
    f.chudnovsky.parallel_split_threshold = count("chudnovsky", "parallel_split_threshold");
    f.chudnovsky.sequential_top_threshold = count("chudnovsky", "sequential_top_threshold");
    f.chudnovsky.parallel_final_assembly =
        table["chudnovsky"]["parallel_final_assembly"].as_bool();
    f.decimal_conversion.to_string_dc_threshold =
        size("decimal_conversion", "to_string_dc_threshold");
    f.decimal_conversion.parallel_to_string_threshold =
        size("decimal_conversion", "parallel_to_string_threshold");
    f.perf.default_sample_ms = count("perf", "default_sample_ms");
    f
}

#[test]
fn generated_files_load_back() {
    for (digits, hw) in [
        (1_000_000_u64, host(8, 16 * GIB)),
        (1_000_000_000, host(64, 32 * GIB)),
        (300_000_000, host(24, 24 * GIB)),
        (20_000_000, host(1, 0)),
    ] {
        let k = pick_knobs(digits, &hw);
        let f = loaded(&generate(digits, &hw));
        let mut t = Tuning::default();
        let mut s = Settings::default();
        assert_eq!(apply_file_config(&f, &mut t, &mut s), None);
        assert_eq!(t.active.parallel_karatsuba_threshold, k.parallel_karatsuba_threshold);
        assert_eq!(t.active.parallel_to_string_threshold, k.parallel_to_string_threshold);
        assert_eq!(t.active.ntt.target_task_size, k.ntt_target_task_size);
        assert_eq!(t.active.disk_limb_threshold, k.disk_limb_threshold);
        assert_eq!(t.active.karatsuba_threshold, 32);
        assert_eq!(t.active.ntt_threshold, 8192);
        assert_eq!(s.active.chudnovsky.parallel_split_threshold, k.parallel_split_threshold);
        assert_eq!(s.active.chudnovsky.sequential_top_threshold, k.sequential_top_threshold);
        assert_eq!(s.active.chudnovsky.parallel_final_assembly, k.parallel_final_assembly);
        assert_eq!(s.active.perf.default_sample_ms, k.default_sample_ms);
    }
}

#[test]
fn cores_are_counted_once() {
    let table = "processor\t: 0\nphysical id\t: 0\ncore id\t\t: 0\n\n\
                 processor\t: 1\nphysical id\t: 0\ncore id\t\t: 1\n\n\
                 processor\t: 2\nphysical id\t: 0\ncore id\t\t: 0\n\n\
                 processor\t: 3\r\nphysical id\t: 1\r\ncore id\t\t: 0\r\n\r\n";
    assert_eq!(physical_cores(table.as_bytes(), 8), 3);
    // Without an empty line behind it the last entry does not count.
    assert_eq!(physical_cores(b"physical id : 0\ncore id : 0\n", 8), 8);
    assert_eq!(physical_cores(b"", 5), 5);
    assert_eq!(physical_cores(b"processor : 0\n\n", 5), 5);
    // An entry without a core leaves nothing for the next.
    assert_eq!(physical_cores(b"physical id : 0\n\ncore id : 1\n\n", 7), 7);
}

#[test]
fn memory_is_read_in_kibibytes() {
    assert_eq!(ram_bytes(b"MemTotal:       16384 kB\nMemFree: 5 kB\n"), 16_777_216);
    assert_eq!(ram_bytes(b"MemFree: 5 kB\nMemTotal:\t+7\n"), 7 * 1024);
    assert_eq!(ram_bytes(b"MemTotal: many\nMemTotal: 2 kB"), 2048);
    assert_eq!(ram_bytes(b"MemTotal:\n"), 0);
    assert_eq!(ram_bytes(b""), 0);
    assert_eq!(ram_bytes(b"MemTotal: 18446744073709551615 kB\n"), u64::MAX);
    assert_eq!(ram_bytes(b"MemTotal: 18446744073709551616 kB\n"), 0);
}
