//! A Montgomery prime field over little-endian `u64` limbs, together with the
//! small combinatorial helpers used by the proof systems built on top of it.

pub mod limbs;
pub mod mont;
pub mod modular;
pub mod bits;
pub mod field_math;
pub mod ff;
pub mod poly;
pub mod helpers;
pub mod r1cs;
pub mod uni_poly;
pub mod mle;
pub mod bytes;
pub mod fp_codec;
pub mod transcript;
pub mod sumcheck;
pub mod sumcheck_complete;
pub mod mv_poly;
pub mod mv_poly_ops;
pub mod entries;
pub mod matrix;
pub mod curve;
pub mod pedersen;
pub mod sigma;
pub mod ipa;
pub mod hyrax;
pub mod spartan_r1cs;
pub mod spartan_nark;
pub mod zk_sumcheck;
pub mod spartan_nizk;
