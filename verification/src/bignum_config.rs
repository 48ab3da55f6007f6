//! Tunable parameters of the arithmetic.
//!
//! They decide which method a size of operand takes, never what comes out.  The
//! arithmetic of this crate goes by the default values, which stand as constants
//! next to the methods; the values here are kept for callers that choose between
//! methods themselves.
use vstd::prelude::*;

verus! {

/// Parameters of the number-theoretic transform.  The transform itself goes by
/// the default values: another value of these three has no effect on it.
#[derive(Debug, Clone, Copy, PartialEq, Eq, Structural)]
pub struct NttConfig {
    /// Elements that one task of a butterfly pass handles.
    pub target_task_size: usize,
    /// Numbers of at least this many limbs are packed side by side.
    pub parallel_pack_threshold: usize,
    /// Pointwise products of at least this many elements run side by side.
    pub parallel_pointwise_threshold: usize,
}

/// Parameters of the arithmetic.
#[derive(Debug, Clone, Copy, PartialEq, Eq, Structural)]
pub struct Config {
    /// Products of fewer limbs are computed by the schoolbook method.
    pub karatsuba_threshold: usize,
    /// Karatsuba splits of at least this many limbs run side by side.
    pub parallel_karatsuba_threshold: usize,
    /// Products of at least this many limbs go through the number-theoretic transform.
    pub ntt_threshold: usize,
    /// Divisions by at least this many limbs go through a Newton reciprocal.
    pub newton_div_threshold: usize,
    /// Numbers of fewer limbs are converted to decimal digit group by digit group.
    pub to_string_dc_threshold: usize,
    /// Conversions of at least this many limbs run side by side.
    pub parallel_to_string_threshold: usize,
    /// Buffers of at least this many limbs live in scratch files.
    pub disk_limb_threshold: usize,
    pub ntt: NttConfig,
}

impl NttConfig {
    /// The values for a laptop.
    pub open spec fn defaults() -> NttConfig {
        NttConfig {
            target_task_size: 65536,
            parallel_pack_threshold: 1024,
            parallel_pointwise_threshold: 1024,
        }
    }
}

impl Config {
    /// The values for a laptop.
    pub open spec fn defaults() -> Config {
        Config {
            karatsuba_threshold: 32,
            parallel_karatsuba_threshold: 512,
            ntt_threshold: 8192,
            newton_div_threshold: 64,
            to_string_dc_threshold: 32,
            parallel_to_string_threshold: 256,
            disk_limb_threshold: usize::MAX,
            ntt: NttConfig::defaults(),
        }
    }
}

impl Default for NttConfig {
    fn default() -> (c: NttConfig)
        ensures
            c == NttConfig::defaults(),
    {
        NttConfig {
            target_task_size: 65536,
            parallel_pack_threshold: 1024,
            parallel_pointwise_threshold: 1024,
        }
    }
}

impl Default for Config {
    fn default() -> (c: Config)
        ensures
            c == Config::defaults(),
    {
        Config {
            karatsuba_threshold: 32,
            parallel_karatsuba_threshold: 512,
            ntt_threshold: 8192,
            newton_div_threshold: 64,
            to_string_dc_threshold: 32,
            parallel_to_string_threshold: 256,
            disk_limb_threshold: usize::MAX,
            ntt: NttConfig::default(),
        }
    }
}

/// The parameters in force.
#[derive(Debug, Clone, Copy)]
pub struct Tuning {
    pub active: Config,
}

impl Default for Tuning {
    /// The defaults are in force.
    fn default() -> (t: Tuning)
        ensures
            t.active == Config::defaults(),
    {
        Tuning { active: Config::default() }
    }
}

/// Put other parameters in force.
pub fn apply(tuning: &mut Tuning, c: &Config)
    ensures
        final(tuning).active == *c,
{
    tuning.active = *c;
}

impl Config {
    /// The parameters in force.
    pub fn current(tuning: &Tuning) -> (c: Config)
        ensures
            c == tuning.active,
    {
        tuning.active
    }
}

/// Products of fewer limbs are computed by the schoolbook method.
pub fn karatsuba_threshold(tuning: &Tuning) -> (r: usize)
    ensures
        r == tuning.active.karatsuba_threshold,
{
    tuning.active.karatsuba_threshold
}

/// Karatsuba splits of at least this many limbs run side by side.
pub fn parallel_karatsuba_threshold(tuning: &Tuning) -> (r: usize)
    ensures
        r == tuning.active.parallel_karatsuba_threshold,
{
    tuning.active.parallel_karatsuba_threshold
}

/// Products of at least this many limbs go through the number-theoretic transform.
pub fn ntt_threshold(tuning: &Tuning) -> (r: usize)
    ensures
        r == tuning.active.ntt_threshold,
{
    tuning.active.ntt_threshold
}

/// Divisions by at least this many limbs go through a Newton reciprocal.
pub fn newton_div_threshold(tuning: &Tuning) -> (r: usize)
    ensures
        r == tuning.active.newton_div_threshold,
{
    tuning.active.newton_div_threshold
}

/// Numbers of fewer limbs are converted to decimal digit group by digit group.
pub fn to_string_dc_threshold(tuning: &Tuning) -> (r: usize)
    ensures
        r == tuning.active.to_string_dc_threshold,
{
    tuning.active.to_string_dc_threshold
}

/// Conversions of at least this many limbs run side by side.
pub fn parallel_to_string_threshold(tuning: &Tuning) -> (r: usize)
    ensures
        r == tuning.active.parallel_to_string_threshold,
{
    tuning.active.parallel_to_string_threshold
}

/// Buffers of at least this many limbs live in scratch files.
pub fn disk_limb_threshold(tuning: &Tuning) -> (r: usize)
    ensures
        r == tuning.active.disk_limb_threshold,
{
    tuning.active.disk_limb_threshold
}

/// Elements that one task of a butterfly pass handles.
pub fn ntt_target_task_size(tuning: &Tuning) -> (r: usize)
    ensures
        r == tuning.active.ntt.target_task_size,
{
    tuning.active.ntt.target_task_size
}

/// Numbers of at least this many limbs are packed side by side.
pub fn ntt_parallel_pack_threshold(tuning: &Tuning) -> (r: usize)
    ensures
        r == tuning.active.ntt.parallel_pack_threshold,
{
    tuning.active.ntt.parallel_pack_threshold
}

/// Pointwise products of at least this many elements run side by side.
pub fn ntt_parallel_pointwise_threshold(tuning: &Tuning) -> (r: usize)
    ensures
        r == tuning.active.ntt.parallel_pointwise_threshold,
{
    tuning.active.ntt.parallel_pointwise_threshold
}

} // verus!
