//! Tunable parameters of the computations.
use vstd::prelude::*;

verus! {

/// Parameters of the Chudnovsky computation.
#[derive(Debug, Clone, Copy)]
pub struct ChudnovskyConfig {
    /// Ranges of fewer terms are split on one thread.
    pub parallel_split_threshold: u64,
    /// Ranges of at least this many terms are split on one thread at the top
    /// of the tree; zero switches this off.
    pub sequential_top_threshold: u64,
    /// Whether numerator and reciprocal are computed side by side.
    pub parallel_final_assembly: bool,
}

impl Default for ChudnovskyConfig {
    fn default() -> (c: ChudnovskyConfig)
        ensures
            c.parallel_split_threshold == 64,
            c.sequential_top_threshold == 0,
            c.parallel_final_assembly,
    {
        ChudnovskyConfig {
            parallel_split_threshold: 64,
            sequential_top_threshold: 0,
            parallel_final_assembly: true,
        }
    }
}

/// Parameters of performance recording.
#[derive(Debug, Clone, Copy)]
pub struct PerfDefaults {
    /// Milliseconds between samples unless the caller asks for others.
    pub default_sample_ms: u64,
}

impl Default for PerfDefaults {
    fn default() -> (c: PerfDefaults)
        ensures
            c.default_sample_ms == 500,
    {
        PerfDefaults { default_sample_ms: 500 }
    }
}

/// All parameters of the computations.
#[derive(Debug, Clone, Copy)]
pub struct Config {
    pub chudnovsky: ChudnovskyConfig,
    pub perf: PerfDefaults,
}

impl Default for Config {
    fn default() -> (c: Config)
        ensures
            c.chudnovsky.parallel_split_threshold == 64,
            c.chudnovsky.sequential_top_threshold == 0,
            c.chudnovsky.parallel_final_assembly,
            c.perf.default_sample_ms == 500,
    {
        Config { chudnovsky: ChudnovskyConfig::default(), perf: PerfDefaults::default() }
    }
}

/// The parameters in force.
#[derive(Debug, Clone, Copy)]
pub struct Settings {
    pub active: Config,
}

impl Default for Settings {
    /// The defaults are in force.
    fn default() -> (s: Settings)
        ensures
            s.active.chudnovsky.parallel_split_threshold == 64,
            s.active.chudnovsky.sequential_top_threshold == 0,
            s.active.chudnovsky.parallel_final_assembly,
            s.active.perf.default_sample_ms == 500,
    {
        Settings { active: Config::default() }
    }
}

/// Put other parameters in force.
pub fn apply(settings: &mut Settings, c: &Config)
    ensures
        final(settings).active == *c,
{
    settings.active = *c;
}

impl Config {
    /// The parameters in force.
    pub fn current(settings: &Settings) -> (c: Config)
        ensures
            c == settings.active,
    {
        settings.active
    }
}

/// Ranges of fewer terms are split on one thread.
pub fn chudnovsky_parallel_split_threshold(settings: &Settings) -> (r: u64)
    ensures
        r == settings.active.chudnovsky.parallel_split_threshold,
{
    settings.active.chudnovsky.parallel_split_threshold
}

/// Ranges of at least this many terms are split on one thread.
pub fn chudnovsky_sequential_top_threshold(settings: &Settings) -> (r: u64)
    ensures
        r == settings.active.chudnovsky.sequential_top_threshold,
{
    settings.active.chudnovsky.sequential_top_threshold
}

/// Whether numerator and reciprocal are computed side by side.
pub fn chudnovsky_parallel_final_assembly(settings: &Settings) -> (r: bool)
    ensures
        r == settings.active.chudnovsky.parallel_final_assembly,
{
    settings.active.chudnovsky.parallel_final_assembly
}

/// Milliseconds between samples unless the caller asks for others.
pub fn perf_default_sample_ms(settings: &Settings) -> (r: u64)
    ensures
        r == settings.active.perf.default_sample_ms,
{
    settings.active.perf.default_sample_ms
}

} // verus!
