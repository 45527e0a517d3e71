//! The device memory budget of a Groth16 proof, as a closed-form function of
//! the circuit's dimensions, so that resident or streaming is a computed
//! decision against the device's free memory and not a flag set by hand.
//!
//! Every figure is derived from the element sizes of the device records and
//! the buffers that a resident key holds. **Persistent** buffers are uploaded
//! once and live the whole proof, **ephemeral** ones are one phase's working
//! buffers, and the per-proof **scratch** peak comes on top.

use vstd::prelude::*;

use crate::prover;
use crate::prover::{CoefficientGroups, Tables};
use crate::zkey::{Coefficient, Zkey};

verus! {

/// Bytes of a scalar-field element.
pub const FR: usize = 32;

/// Bytes of an affine G1 point.
pub const G1: usize = 72;

/// Bytes of an affine G2 point.
pub const G2: usize = 136;

/// Bytes of a Jacobian G1 point.
pub const JAC_G1: usize = 96;

/// Bytes of a Jacobian G2 point.
pub const JAC_G2: usize = 192;

/// Bytes of a grouped coefficient.
pub const COEFF: usize = 40;

/// Bytes of an index.
pub const U32: usize = 4;

/// MSM windows of a 256-bit scalar.
pub const WINDOWS: usize = 22;

/// Buckets of one window.
pub const BUCKETS: usize = 4095;

/// The residency class of a buffer.
#[derive(Clone, Copy, Debug, PartialEq, Eq, Structural)]
pub enum Residency {
    /// Uploaded once, lives the whole proof (the resident zkey).
    Persistent,
    /// One phase's working buffers, freed before the next.
    Ephemeral,
    /// Kernel-local scratch within a phase.
    Scratch,
}

/// Which proof path fits the device.
#[derive(Clone, Copy, Debug, PartialEq, Eq, Structural)]
pub enum Mode {
    /// The zkey uploaded once per process; every later proof moves only the
    /// witness in and the proof out. The fast path on a device that holds it.
    Resident,
    /// Every phase uploads what it reads and frees it before the next; the
    /// smallest footprint, for a shared or small device.
    Streaming,
}

/// The circuit dimensions the budget is a function of.
#[derive(Clone, Copy, Debug, PartialEq, Eq, Structural)]
pub struct Dims {
    /// `num_vars`: the A/B/C witness length (G1 point-set size for a, b1, b2).
    pub num_vars: usize,
    /// Public inputs (the `c` MSM is over `num_vars - num_public - 1`).
    pub num_public: usize,
    /// The evaluation domain (a power of two; the `h` MSM and the transforms).
    pub domain: usize,
    /// The total grouped-coefficient count (the scatter input).
    pub coefficients: usize,
}

impl Dims {
    /// Read the dimensions off a parsed zkey (before any upload).
    pub fn from_zkey(zkey: &Zkey) -> (r: Self)
        ensures
            r.num_vars == zkey.num_vars,
            r.num_public == zkey.num_public,
            r.domain == zkey.domain_size,
            r.coefficients == zkey.coefficients@.len(),
    {
        Self {
            num_vars: zkey.num_vars,
            num_public: zkey.num_public,
            domain: zkey.domain_size,
            coefficients: zkey.coefficients.len(),
        }
    }

    /// Whether every byte count of the budget is a `usize`.
    pub fn is_countable(&self) -> (r: bool)
        ensures
            r == (self.resident_peak() <= usize::MAX && self.num_public < usize::MAX),
    {
        let (vars, public) = (self.num_vars as u128, self.num_public as u128);
        let (domain, coefficients) = (self.domain as u128, self.coefficients as u128);
        let private: u128 = if vars > public + 1 {
            vars - public - 1
        } else {
            0
        };
        let largest: u128 = if vars >= domain {
            vars
        } else {
            domain
        };
        let tables: u128 = (2 * (domain / 2) + domain) * 32;
        let grouped: u128 = coefficients * 40 + 2 * domain * 4;
        let points: u128 = (2 * vars + private + domain) * 72 + vars * 136;
        let transform: u128 = 4 * domain * 32;
        let msm: u128 = largest * 32 + 2 * (22 * largest * 4) + 22 * 4095 * 4 + 22 * 4095 * 192;
        let phase: u128 = if transform >= msm {
            transform
        } else {
            msm
        };
        tables + grouped + points + phase + vars * 32 <= usize::MAX as u128 && self.num_public
            < usize::MAX
    }

    /// The private inputs: the length of the C query.
    pub open spec fn private(self) -> int {
        if self.num_vars > self.num_public + 1 {
            self.num_vars - self.num_public - 1
        } else {
            0
        }
    }

    /// The largest MSM.
    pub open spec fn largest(self) -> int {
        max(self.num_vars as int, self.domain as int)
    }

    /// The twiddles and shift powers.
    pub open spec fn tables(self) -> int {
        (2 * (self.domain as int / 2) + self.domain) * 32
    }

    /// The coefficients and their group starts.
    pub open spec fn grouped(self) -> int {
        self.coefficients * 40 + 2 * self.domain * 4
    }

    /// The five point sets.
    pub open spec fn points(self) -> int {
        (2 * self.num_vars + self.private() + self.domain) * 72 + self.num_vars * 136
    }

    /// All that is resident.
    pub open spec fn resident(self) -> int {
        self.tables() + self.grouped() + self.points()
    }

    /// Four polynomials.
    pub open spec fn transform(self) -> int {
        4 * self.domain * 32
    }

    /// One MSM's buffers besides its points: scalars, digits, order, starts and bucket sums.
    pub open spec fn msm(self, g2: bool) -> int {
        self.largest() * 32 + 2 * (22 * self.largest() * 4) + 22 * 4095 * 4 + 22 * 4095 * (if g2 {
            192
        } else {
            96int
        })
    }

    /// The largest point set.
    pub open spec fn largest_set(self) -> int {
        max(self.domain * 72, self.num_vars * 136)
    }

    /// Peak bytes with a resident key.
    pub open spec fn resident_peak(self) -> int {
        self.resident() + max(self.transform(), self.msm(true)) + self.num_vars * 32
    }

    /// Peak bytes with nothing resident.
    pub open spec fn streaming_peak(self) -> int {
        max(self.transform() + self.tables(), self.largest_set() + self.msm(true))
    }

    /// The path that fits, the faster one first.
    pub open spec fn mode(self, usable: int) -> Option<Mode> {
        if self.resident_peak() <= usable {
            Some(Mode::Resident)
        } else if self.streaming_peak() <= usable {
            Some(Mode::Streaming)
        } else {
            None
        }
    }
}

/// The larger of two numbers.
pub open spec fn max(a: int, b: int) -> int {
    if a >= b {
        a
    } else {
        b
    }
}

/// A resident proof never needs less memory than a streaming one.
pub proof fn lemma_resident_needs_more(dims: Dims)
    ensures
        dims.resident_peak() >= dims.streaming_peak(),
        dims.domain > 0 ==> dims.resident_peak() > dims.streaming_peak(),
{
}

/// More memory never costs the choice: what fits keeps fitting, and resident stays resident.
pub proof fn lemma_more_memory_keeps_the_mode(dims: Dims, less: int, more: int)
    requires
        less <= more,
    ensures
        dims.mode(less) is Some ==> dims.mode(more) is Some,
        dims.mode(less) == Some(Mode::Resident) ==> dims.mode(more) == Some(Mode::Resident),
{
    lemma_resident_needs_more(dims);
}

/// The chosen path fits, the resident one wherever it does, and there is none exactly where
/// neither fits.
pub proof fn lemma_mode_fits(dims: Dims, usable: int)
    ensures
        dims.mode(usable) == Some(Mode::Resident) <==> dims.resident_peak() <= usable,
        dims.mode(usable) == Some(Mode::Streaming) <==> dims.streaming_peak() <= usable
            < dims.resident_peak(),
        dims.mode(usable) is None <==> usable < dims.streaming_peak(),
{
    lemma_resident_needs_more(dims);
}

/// The bytes of one multi-scalar sum of `n` terms besides its points: the scalars, 22 digits and
/// 22 positions a scalar, and a start and a sum in G2 for each of the 22 · 4095 buckets.
pub open spec fn sum_bytes(n: int) -> int {
    32 * n + 4 * (22 * n) + 4 * (22 * n) + (4 + 192) * (22 * 4095)
}

/// With a resident key, `usable` bytes are enough exactly where the key and the witness fit in
/// them together with the four polynomials of the transforms, and together with the buffers of
/// each of the sums, over the domain, the variables and the private inputs.
pub proof fn lemma_resident_peak_covers_every_phase(dims: Dims, usable: int)
    ensures
        dims.resident_peak() <= usable <==> {
            let held = dims.resident() + 32 * dims.num_vars;
            &&& held + 32 * (4 * dims.domain) <= usable
            &&& held + sum_bytes(dims.domain as int) <= usable
            &&& held + sum_bytes(dims.num_vars as int) <= usable
            &&& held + sum_bytes(dims.private()) <= usable
        },
{
}

/// With nothing resident, `usable` bytes are enough exactly where the tables fit in them together
/// with the four polynomials, and the points of the largest set with the buffers of each sum.
pub proof fn lemma_streaming_peak_covers_every_phase(dims: Dims, usable: int)
    ensures
        dims.streaming_peak() <= usable <==> {
            &&& dims.tables() + 32 * (4 * dims.domain) <= usable
            &&& 72 * dims.domain + sum_bytes(dims.domain as int) <= usable
            &&& 72 * dims.domain + sum_bytes(dims.num_vars as int) <= usable
            &&& 136 * dims.num_vars + sum_bytes(dims.domain as int) <= usable
            &&& 136 * dims.num_vars + sum_bytes(dims.num_vars as int) <= usable
        },
{
}

/// What is resident of a key: its tables, 32 bytes an element; its coefficients, 40 bytes each,
/// and 4 for each constraint of the domain and matrix; its points, 72 bytes in G1 and 136 in G2.
pub proof fn lemma_resident_is_the_key(
    zkey: Zkey,
    groups: CoefficientGroups,
    tables: Tables,
    dims: Dims,
)
    requires
        zkey.ic@.len() == zkey.num_public + 1,
        zkey.num_public < zkey.num_vars,
        zkey.a@.len() == zkey.num_vars,
        zkey.b1@.len() == zkey.num_vars,
        zkey.b2@.len() == zkey.num_vars,
        zkey.c@.len() == zkey.num_vars - zkey.num_public - 1,
        zkey.h@.len() == zkey.domain_size,
        groups.of_key(zkey),
        tables.of_size(zkey.domain_size as nat),
        dims.num_vars == zkey.num_vars,
        dims.num_public == zkey.num_public,
        dims.domain == zkey.domain_size,
        dims.coefficients == zkey.coefficients@.len(),
    ensures
        dims.tables() == 32 * (tables.forward@.len() + tables.inverse@.len()
            + tables.shift_powers@.len()),
        dims.grouped() == 40 * (groups.a@.len() + groups.b@.len()) + 4 * (2 * zkey.domain_size),
        dims.points() == 72 * (zkey.a@.len() + zkey.b1@.len() + zkey.c@.len() + zkey.h@.len())
            + 136 * zkey.b2@.len(),
        dims.resident() == dims.tables() + dims.grouped() + dims.points(),
        dims.private() == zkey.c@.len(),
{
    lemma_picked_count(zkey.coefficients@);
}

/// Every coefficient is of one of the two matrices.
proof fn lemma_picked_count(cs: Seq<Coefficient>)
    ensures
        prover::picked(cs, true).len() + prover::picked(cs, false).len() == cs.len(),
    decreases cs.len(),
{
    if cs.len() > 0 {
        lemma_picked_count(cs.drop_last());
    }
}

/// The device memory budget of a proof over [`Dims`].
#[derive(Clone, Copy, Debug)]
pub struct Budget {
    dims: Dims,
    windows: usize,
    buckets: usize,
}

impl Budget {
    /// The dimensions.
    pub closed spec fn dims(self) -> Dims {
        self.dims
    }

    /// The window geometry is that of 12-bit windows.
    pub closed spec fn wf(self) -> bool {
        self.windows == 22 && self.buckets == 4095
    }

    /// The budget for these dimensions.
    pub fn new(dims: Dims) -> (r: Self)
        ensures
            r.wf(),
            r.dims() == dims,
    {
        Self { dims, windows: WINDOWS, buckets: BUCKETS }
    }

    /// The NTT tables (twiddles forward + inverse over `domain/2`, shift powers
    /// over `domain`): `2 · domain · FR`. Persistent.
    pub fn tables_bytes(&self) -> (r: usize)
        requires
            self.dims().tables() <= usize::MAX,
        ensures
            r == self.dims().tables(),
    {
        (self.dims.domain / 2 + self.dims.domain / 2 + self.dims.domain) * FR
    }

    /// The grouped coefficients and their per-group starts. Persistent.
    pub fn coefficients_bytes(&self) -> (r: usize)
        requires
            self.dims().grouped() <= usize::MAX,
        ensures
            r == self.dims().grouped(),
    {
        // every coefficient once; the starts are one index per group,
        // bounded above by the domain (one group per output index)
        self.dims.coefficients * COEFF + 2 * self.dims.domain * U32
    }

    /// The five point sets (a, b1, c on G1 over `num_vars`; h on G1 over
    /// `domain`; b2 on G2 over `num_vars`). Persistent.
    pub fn points_bytes(&self) -> (r: usize)
        requires
            self.dims().points() <= usize::MAX,
            self.dims().num_public < usize::MAX,
        ensures
            r == self.dims().points(),
    {
        let c: usize = if self.dims.num_vars > self.dims.num_public + 1 {
            self.dims.num_vars - (self.dims.num_public + 1)
        } else {
            0
        };
        (self.dims.num_vars + self.dims.num_vars + c + self.dims.domain) * G1 + self.dims.num_vars
            * G2
    }

    /// The persistent resident set: tables + coefficients + point sets.
    pub fn resident_bytes(&self) -> (r: usize)
        requires
            self.dims().resident() <= usize::MAX,
            self.dims().num_public < usize::MAX,
        ensures
            r == self.dims().resident(),
    {
        self.tables_bytes() + self.coefficients_bytes() + self.points_bytes()
    }

    /// The transform phase's ephemeral working set: four polynomial buffers of
    /// `domain` field elements.
    pub fn transform_scratch_bytes(&self) -> (r: usize)
        requires
            self.dims().transform() <= usize::MAX,
        ensures
            r == self.dims().transform(),
    {
        4 * self.dims.domain * FR
    }

    /// One MSM's scratch, excluding the point set: the canonical scalars, the
    /// window-major digits, the sorted order, the flat starts, and the flat
    /// bucket sums. `g2` picks the wider Jacobian for the sums.
    pub fn msm_scratch_bytes(&self, g2: bool) -> (r: usize)
        requires
            self.wf(),
            self.dims().msm(g2) <= usize::MAX,
        ensures
            r == self.dims().msm(g2),
    {
        // the largest MSM (h over the domain)
        let n = if self.dims.num_vars >= self.dims.domain {
            self.dims.num_vars
        } else {
            self.dims.domain
        };
        let jac = if g2 {
            JAC_G2
        } else {
            JAC_G1
        };
        n * FR + self.windows * n * U32 + self.windows * n * U32 + self.windows * self.buckets * U32
            + self.windows * self.buckets * jac
    }

    /// The largest single point set, uploaded per MSM on the streaming path
    /// (h on G1 over the domain, or b2 on G2 over `num_vars`).
    pub fn largest_point_set_bytes(&self) -> (r: usize)
        requires
            self.dims().largest_set() <= usize::MAX,
        ensures
            r == self.dims().largest_set(),
    {
        let h = self.dims.domain * G1;
        let b2 = self.dims.num_vars * G2;
        if h >= b2 {
            h
        } else {
            b2
        }
    }

    /// Peak device bytes on the RESIDENT path: the persistent set plus the
    /// largest per-proof phase scratch (the point sets are already resident).
    pub fn resident_peak_bytes(&self) -> (r: usize)
        requires
            self.wf(),
            self.dims().resident_peak() <= usize::MAX,
            self.dims().num_public < usize::MAX,
        ensures
            r == self.dims().resident_peak(),
    {
        let transform = self.transform_scratch_bytes();
        let msm = self.msm_scratch_bytes(true);
        let phase = if transform >= msm {
            transform
        } else {
            msm
        };
        self.resident_bytes() + (phase + self.dims.num_vars * FR)
    }

    /// Peak device bytes on the STREAMING path: nothing persistent; the peak is
    /// the largest phase's own uploads (the tables plus either the four-buffer
    /// transform, or one point set with its MSM scratch).
    pub fn streaming_peak_bytes(&self) -> (r: usize)
        requires
            self.wf(),
            self.dims().streaming_peak() <= usize::MAX,
        ensures
            r == self.dims().streaming_peak(),
    {
        let transform = self.transform_scratch_bytes() + self.tables_bytes();
        let msm = self.largest_point_set_bytes() + self.msm_scratch_bytes(true);
        if transform >= msm {
            transform
        } else {
            msm
        }
    }

    /// Choose the path that fits `usable` bytes (the device's free memory less
    /// the headroom for the allocator and a co-tenant): [`Mode::Resident`] if
    /// its peak fits, else [`Mode::Streaming`] if it fits, else `None` (the
    /// proof does not fit this device even streaming).
    pub fn choose_mode(&self, usable: usize) -> (r: Option<Mode>)
        requires
            self.wf(),
            self.dims().resident_peak() <= usize::MAX,
            self.dims().num_public < usize::MAX,
        ensures
            r == self.dims().mode(usable as int),
            r == Some(Mode::Resident) <==> self.dims().resident_peak() <= usable,
            r == Some(Mode::Streaming) <==> self.dims().streaming_peak() <= usable
                < self.dims().resident_peak(),
            r is None <==> usable < self.dims().streaming_peak(),
    {
        proof {
            lemma_resident_needs_more(self.dims);
        }
        if self.resident_peak_bytes() <= usable {
            Some(Mode::Resident)
        } else if self.streaming_peak_bytes() <= usable {
            Some(Mode::Streaming)
        } else {
            None
        }
    }
}

} // verus!
