//! Groth16 over BN254: the fields and curves, the key and witness formats, the
//! prover, and the same proof on devices.
//!
//! - Arithmetic: [`field`], [`fp2`], [`ec`], [`ntt`], [`msm`], on [`limbs`] and
//!   [`consts`], specified with the mathematics of [`math`].
//! - Formats: [`zkey`], [`artifacts`], [`json`], [`pack`]; [`reading`] says what a
//!   reader gets from a text.
//! - The proof: [`prover`] computes it, and [`equation`] shows that it verifies.
//! - Devices: [`kernels`] are the bodies, [`schedule`] and [`plan`] say what is
//!   launched, [`pipeline`], [`device`] and [`session`] make a proof of it,
//!   [`check`] and [`judge`] hold a device to the bodies, [`budget`] and
//!   [`resident`] decide what stays in its memory.
//! - The boundary: [`backend`] selects an implementation, [`answer`] is what it
//!   answers with, [`harness`] compares implementations.

pub mod abi;
pub mod answer;
pub mod arguments;
pub mod artifacts;
pub mod backend;
pub mod bench;
pub mod budget;
pub mod bytes;
pub mod check;
pub mod coeff;
pub mod consts;
pub mod device;
pub mod ec;
pub mod equation;
pub mod field;
pub mod files;
pub mod fp2;
pub mod generators;
pub mod harness;
pub mod json;
pub mod judge;
pub mod kernels;
pub mod launch;
pub mod limbs;
pub mod math;
pub mod module;
pub mod msm;
pub mod ntt;
pub mod pack;
pub mod pipeline;
pub mod plan;
pub mod prover;
pub mod random;
pub mod reading;
pub mod resident;
pub mod scalar;
pub mod schedule;
pub mod session;
pub mod show;
pub mod text;
pub mod zkey;
