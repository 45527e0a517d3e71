//! The mathematics the executable modules are specified with.

pub mod certificates;
pub mod curve;
pub mod dft;
pub mod group;
pub mod identities;
pub mod identity;
pub mod jacobian;
pub mod montgomery;
pub mod poly;
pub mod primes;
pub mod ring;
pub mod sums;
