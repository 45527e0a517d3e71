//! The contract between the two halves of a device pipeline: the device module
//! (one kernel per body in [`crate::kernels`]) and the host that loads it and
//! launches by name.
//!
//! - **Parameters.** Every kernel takes its output first (`out`, `n`), then
//!   its inputs in the order of the body's arguments, where a slice is a
//!   `(ptr, len: u32)` pair and a scalar is passed by value. Sizes that the
//!   bodies take as `usize` cross the boundary as `u32`.
//! - **Geometry.** One thread per output index, [`BLOCK`] threads per block,
//!   `ceil(n / BLOCK)` blocks; a thread with index `>= n` returns.
//! - **Names.** [`KERNELS`] is the complete list; the host loads every one at
//!   start-up so a module missing a kernel fails before any proof.

use vstd::prelude::*;

pub use crate::coeff::GroupedCoeff;

verus! {

/// Threads per block for every kernel.
pub const BLOCK: u32 = 256;

/// `out[g] = Σ witness[c.signal]·c.value` over group `g` of `coeffs`
/// (`starts[g]..starts[g+1]`). Params: `out, n, coeffs, coeffs_len, starts,
/// starts_len, witness, witness_len`.
pub const SCATTER_GROUP: &'static str = "scatter_group";

/// `out[i] = a[i]·b[i]`. Params: `out, n, a, a_len, b, b_len`.
pub const POINTWISE_MUL: &'static str = "pointwise_mul";

/// `out[i] = a[i]·b[i] − c[i]`. Params: `out, n, a, a_len, b, b_len, c, c_len`.
pub const POINTWISE_MUL_SUB: &'static str = "pointwise_mul_sub";

/// `out[i] = a[i]·k[i]·n_inv` (the coset shift and the inverse NTT's `1/n` in
/// one pass). Params: `out, n, a, a_len, k, k_len, n_inv: Fr`.
pub const POINTWISE_SCALE: &'static str = "pointwise_scale";

/// `out[i] = a[rev_lg(i)]`. Params: `out, n, a, a_len, lg_n: u32`.
pub const BIT_REVERSE: &'static str = "bit_reverse";

/// One radix-2 stage of length `len` with twiddle stride `stride`.
/// Params: `out, n, a, a_len, len: u32, twiddles, twiddles_len, stride: u32`.
pub const NTT_STAGE: &'static str = "ntt_stage";

/// `out[i] = digit(scalars[i], window, w)`. Params: `out, n, scalars,
/// scalars_len, window: u32, w: u32`; `scalars` are canonical `[u64; 4]`.
pub const DIGITS: &'static str = "digits";

/// `out[i] = digit(scalars[i % n], i / n, w)` for `i < windows · n`: every
/// window in one launch. Params: `out, n_total, scalars, scalars_len, w: u32`.
pub const DIGITS_ALL: &'static str = "digits_all";

/// `out[b] = Σ points[order[j]]` for `j` in `starts[b]..starts[b+1]`, G1.
/// Params: `out, n, points, points_len, order, order_len, starts, starts_len`.
pub const BUCKET_SUM_G1: &'static str = "bucket_sum_g1";

/// The same over G2 (`Affine<Fp2>` in, `Jacobian<Fp2>` out).
pub const BUCKET_SUM_G2: &'static str = "bucket_sum_g2";

/// Every kernel the device module must export, by name.
pub const KERNELS: [&'static str; 10] = [
    SCATTER_GROUP,
    POINTWISE_MUL,
    POINTWISE_MUL_SUB,
    POINTWISE_SCALE,
    BIT_REVERSE,
    NTT_STAGE,
    DIGITS,
    DIGITS_ALL,
    BUCKET_SUM_G1,
    BUCKET_SUM_G2,
];

/// Blocks for `n` outputs.
#[inline]
pub fn blocks(n: u32) -> (r: u32)
    ensures
        r == (n + BLOCK - 1) / (BLOCK as int),
        r * BLOCK >= n,
        n > 0 ==> (r - 1) * BLOCK < n,
{
    n / BLOCK + if n % BLOCK == 0 {
        0
    } else {
        1
    }
}

} // verus!
