//! The constants of BN254: field moduli with their Montgomery constants, roots
//! of unity and curve coefficients, as little-endian limbs.

use vstd::prelude::*;

verus! {

/// The base-field modulus `q`.
pub const FP_MODULUS: [u64; 4] = [0x3c208c16d87cfd47, 0x97816a916871ca8d, 0xb85045b68181585d, 0x30644e72e131a029];

/// `2^256 mod q`.
pub const FP_R: [u64; 4] = [0xd35d438dc58f0d9d, 0x0a78eb28f5c70b3d, 0x666ea36f7879462c, 0x0e0a77c19a07df2f];

/// `2^512 mod q`.
pub const FP_R2: [u64; 4] = [0xf32cfc5b538afa89, 0xb5e71911d44501fb, 0x47ab1eff0a417ff6, 0x06d89f71cab8351f];

/// `-q^-1 mod 2^64`.
pub const FP_INV: u64 = 0x87d20782e4866389;

/// `q - 2`.
pub const FP_MODULUS_MINUS_2: [u64; 4] = [0x3c208c16d87cfd45, 0x97816a916871ca8d, 0xb85045b68181585d, 0x30644e72e131a029];

/// The scalar-field modulus `r`.
pub const FR_MODULUS: [u64; 4] = [0x43e1f593f0000001, 0x2833e84879b97091, 0xb85045b68181585d, 0x30644e72e131a029];

/// `2^256 mod r`.
pub const FR_R: [u64; 4] = [0xac96341c4ffffffb, 0x36fc76959f60cd29, 0x666ea36f7879462e, 0x0e0a77c19a07df2f];

/// `2^512 mod r`.
pub const FR_R2: [u64; 4] = [0x1bb8e645ae216da7, 0x53fe3ab1e35c59e3, 0x8c49833d53bb8085, 0x0216d0b17f4e44a5];

/// `-r^-1 mod 2^64`.
pub const FR_INV: u64 = 0xc2e1f593efffffff;

/// `r - 2`.
pub const FR_MODULUS_MINUS_2: [u64; 4] = [0x43e1f593efffffff, 0x2833e84879b97091, 0xb85045b68181585d, 0x30644e72e131a029];

/// The largest `k` such that `2^k` divides `r - 1`.
pub const FR_TWO_ADICITY: u32 = 28;

/// A primitive `2^28`-th root of unity modulo `r`, canonical.
pub const FR_TWO_ADIC_ROOT_CANONICAL: [u64; 4] = [0x9bd61b6e725b19f0, 0x402d111e41112ed4, 0x00e0a7eb8ef62abc, 0x2a3c09f0a58a7e85];

/// A generator of the multiplicative group modulo `r`, canonical.
pub const FR_GENERATOR_CANONICAL: [u64; 4] = [0x0000000000000005, 0x0000000000000000, 0x0000000000000000, 0x0000000000000000];

/// The G1 curve constant `b = 3`, canonical.
pub const G1_B_CANONICAL: [u64; 4] = [0x0000000000000003, 0x0000000000000000, 0x0000000000000000, 0x0000000000000000];

/// The real part of the G2 twist constant `b' = 3/(9+u)`, canonical.
pub const G2_B_C0_CANONICAL: [u64; 4] = [0x3267e6dc24a138e5, 0xb5b4c5e559dbefa3, 0x81be18991be06ac3, 0x2b149d40ceb8aaae];

/// The coefficient of `u` in the G2 twist constant, canonical.
pub const G2_B_C1_CANONICAL: [u64; 4] = [0xe4a2bd0685c315d2, 0xa74fa084e52d1852, 0xcd2cafadeed8fdf4, 0x009713b03af0fed4];

} // verus!
