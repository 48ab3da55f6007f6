//! Digits of pi, computed with arithmetic that is proved correct.
//!
//! The crate is built in layers:
//!
//! * [`limbs`], [`magnitude`], [`multiply`], [`divide`] and [`integer`] are
//!   arbitrary-precision integers; [`field`] to [`four_step`] multiply large ones
//!   through a number-theoretic transform; [`numerals`] reads and writes them.
//! * [`float`] to [`float_from`] are floating-point numbers of any precision.
//! * [`chudnovsky`], [`agm`], [`gauss_legendre`] and [`bbp`] are the series and
//!   iterations, [`algorithm`] drives them, and [`digits`] hands the digits to a
//!   sink.
//! * [`verify`], [`hex_convert`], [`verify_hex`] and [`intervals`] check files of
//!   digits; [`perf`], [`storage`], [`hardware`] and [`config_gen`] serve the
//!   command line.
pub mod limbs;
pub mod magnitude;
pub mod multiply;
pub mod parallel;
pub mod divide;
pub mod integer;
pub mod operators;
pub mod text;
pub mod bitlen;
pub mod numerals;
pub mod reals;
pub mod rounding;
pub mod float;
pub mod newton;
pub mod sqrt;
pub mod float_ops;
pub mod float_arith;
pub mod float_from;
pub mod newton_div;
pub mod field;
pub mod group;
pub mod fourier;
pub mod twiddles;
pub mod ntt;
pub mod ntt_pack;
pub mod scratch;
pub mod ntt_mul;
pub mod four_step;
pub mod double;
pub mod precision;
pub mod progress;
pub mod output;
pub mod digits;
pub mod pi_config;
pub mod chudnovsky;
pub mod accuracy;
pub mod chudnovsky_assembly;
pub mod agm;
pub mod agm_error;
pub mod gauss_legendre;
pub mod algorithm;
pub mod terms;
pub mod bbp;
pub mod bignum_config;
pub mod file_config;
pub mod scan;
pub mod display;
pub mod hardware;
pub mod config_gen;
pub mod config_lines;
pub mod config_settings;
pub mod storage;
pub mod perf;
pub mod verify;
pub mod hex_convert;
pub mod verify_hex;
pub mod intervals;
