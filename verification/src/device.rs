//! The pipeline over a device's kernels: the kernel sequence dispatched by
//! name over byte buffers, with the sort, reduction and assembly on the host.
//! It is generic over a [`Backend`], where the kernels run; [`HostBackend`]
//! runs them one thread index at a time on the CPU. One orchestration for
//! every executor: a divergence between two of them is a difference in the
//! backend, never in the pipeline.

use vstd::arithmetic::div_mod::*;
use vstd::arithmetic::mul::*;
use vstd::arithmetic::power2::*;
use vstd::prelude::*;

use crate::check;
use crate::check::{Cases, Fixture, KernelCheck, WINDOWS};
use crate::coeff::GroupedCoeff;
use crate::ec;
use crate::ec::{Affine, Jacobian};
use crate::field::{Field, Fp, Fr};
use crate::fp2::Fp2;
use crate::judge;
use crate::judge::{NoProof, Outputs};
use crate::kernels;
use crate::limbs;
use crate::math::curve::Pt;
use crate::math::dft;
use crate::math::group;
use crate::math::ring::{FieldLaws, Ring};
use crate::msm as reference;
use crate::ntt;
use crate::pack;
use crate::pipeline;
use crate::pipeline::{
    plan_ranges, reduce_all_windows, sort_all_windows, CoefficientGroups, Tables, CHUNK,
    WINDOW_BITS,
};
use crate::plan;
use crate::prover;
use crate::prover::{assemble, horner, Msms, Proof, ProveError};
use crate::scalar;
use crate::schedule;
use crate::schedule::{Buf, Step, Twiddles};
use crate::text;
use crate::zkey::{VerifyingKey, Zkey};

verus! {

// ---- launches ----------------------------------------------------------------------------------

/// A buffer that kernels read and write.
pub trait Buffer: Sized {
    /// The bytes that the buffer was made for.
    open spec fn contents(&self) -> Seq<u8> {
        arbitrary()
    }

    /// The bytes that it occupies.
    open spec fn size(&self) -> nat {
        arbitrary()
    }
}

/// One kernel with its arguments: buffers, and small constants by value. The
/// last argument of every kernel, the buffer that it writes, stands beside it.
pub enum Call<'a, T> {
    /// The value of every coefficient group.
    ScatterGroup {
        /// The grouped coefficients.
        coeffs: &'a T,
        /// Where the groups begin and end.
        starts: &'a T,
        /// The witness.
        witness: &'a T,
    },
    /// `a[i]·b[i]`.
    PointwiseMul {
        /// First factor.
        a: &'a T,
        /// Second factor.
        b: &'a T,
    },
    /// `a[i]·b[i] − c[i]`.
    PointwiseMulSub {
        /// First factor.
        a: &'a T,
        /// Second factor.
        b: &'a T,
        /// What is subtracted.
        c: &'a T,
    },
    /// `a[i]·k[i]·factor`.
    PointwiseScale {
        /// The elements.
        a: &'a T,
        /// A factor per index.
        k: &'a T,
        /// A factor for every index.
        factor: Fr,
    },
    /// The bit-reversal permutation.
    BitReverse {
        /// The elements.
        a: &'a T,
        /// The number of bits.
        lg_n: u32,
    },
    /// One stage of a transform.
    NttStage {
        /// The elements.
        a: &'a T,
        /// The stage's length.
        len: u32,
        /// The table of roots.
        twiddles: &'a T,
        /// The step through the table.
        stride: u32,
    },
    /// The digits of one window.
    Digits {
        /// Canonical scalars.
        scalars: &'a T,
        /// The window.
        window: u32,
        /// Its width.
        w: u32,
    },
    /// The digits of all windows.
    DigitsAll {
        /// Canonical scalars.
        scalars: &'a T,
        /// Their number.
        count: u32,
        /// A window's width.
        w: u32,
    },
    /// Bucket sums in G1.
    BucketSumG1 {
        /// The points.
        points: &'a T,
        /// The order of the points in the buckets.
        order: &'a T,
        /// Where the buckets begin and end.
        starts: &'a T,
    },
    /// Bucket sums in G2.
    BucketSumG2 {
        /// The points.
        points: &'a T,
        /// The order of the points in the buckets.
        order: &'a T,
        /// Where the buckets begin and end.
        starts: &'a T,
    },
    /// Sums of ranges of Jacobian points in G1.
    JacobianSumG1 {
        /// The points.
        sums: &'a T,
        /// Where the ranges begin and end.
        starts: &'a T,
    },
    /// Sums of ranges of Jacobian points in G2.
    JacobianSumG2 {
        /// The points.
        sums: &'a T,
        /// Where the ranges begin and end.
        starts: &'a T,
    },
}

/// Every kernel, by name.
pub const KERNELS: [&'static str; 12] = [
    "scatter_group",
    "pointwise_mul",
    "pointwise_mul_sub",
    "pointwise_scale",
    "bit_reverse",
    "ntt_stage",
    "digits",
    "digits_all",
    "bucket_sum_g1",
    "bucket_sum_g2",
    "jacobian_sum_g1",
    "jacobian_sum_g2",
];

impl<'a, T> Call<'a, T> {
    /// The place of the kernel in [`KERNELS`].
    pub open spec fn place(self) -> int {
        match self {
            Call::ScatterGroup { .. } => 0,
            Call::PointwiseMul { .. } => 1,
            Call::PointwiseMulSub { .. } => 2,
            Call::PointwiseScale { .. } => 3,
            Call::BitReverse { .. } => 4,
            Call::NttStage { .. } => 5,
            Call::Digits { .. } => 6,
            Call::DigitsAll { .. } => 7,
            Call::BucketSumG1 { .. } => 8,
            Call::BucketSumG2 { .. } => 9,
            Call::JacobianSumG1 { .. } => 10,
            Call::JacobianSumG2 { .. } => 11,
        }
    }

    /// The kernel's name.
    pub fn name(&self) -> (r: &'static str)
        ensures
            r == KERNELS[self.place()],
    {
        match self {
            Call::ScatterGroup { .. } => KERNELS[0],
            Call::PointwiseMul { .. } => KERNELS[1],
            Call::PointwiseMulSub { .. } => KERNELS[2],
            Call::PointwiseScale { .. } => KERNELS[3],
            Call::BitReverse { .. } => KERNELS[4],
            Call::NttStage { .. } => KERNELS[5],
            Call::Digits { .. } => KERNELS[6],
            Call::DigitsAll { .. } => KERNELS[7],
            Call::BucketSumG1 { .. } => KERNELS[8],
            Call::BucketSumG2 { .. } => KERNELS[9],
            Call::JacobianSumG1 { .. } => KERNELS[10],
            Call::JacobianSumG2 { .. } => KERNELS[11],
        }
    }
}

/// The field elements of a buffer.
pub open spec fn elements<T: Buffer>(b: T) -> Seq<Fr> {
    pack::unpacked_fr(b.contents())
}

/// The words of a buffer.
pub open spec fn words<T: Buffer>(b: T) -> Seq<u32> {
    pack::unpacked_u32(b.contents())
}

/// The canonical scalars of a buffer.
pub open spec fn scalars<T: Buffer>(b: T) -> Seq<[u64; 4]> {
    pack::unpacked_canonical(b.contents())
}

/// The first `n` ranges are ranges of a sequence of the given length.
pub open spec fn ranges_fit(starts: Seq<u32>, n: int, len: int) -> bool {
    forall|b: int| 0 <= b < n ==> #[trigger] kernels::range_fits(starts, b, len)
}

/// Every index is below a length.
pub open spec fn indices_fit(order: Seq<u32>, len: int) -> bool {
    forall|j: int| 0 <= j < order.len() ==> #[trigger] order[j] < len
}

/// The sums of the first `n` buckets.
pub open spec fn buckets_summed<F: Field>(
    points: Seq<Affine<F>>,
    order: Seq<u32>,
    starts: Seq<u32>,
    n: int,
    sums: Seq<Jacobian<F>>,
) -> bool {
    &&& sums.len() == n
    &&& (forall|i: int| 0 <= i < points.len() ==> (#[trigger] points[i]).wf()) ==> forall|b: int|
        0 <= b < n ==> (#[trigger] sums[b]).wf() && sums[b].pt() == group::sum(
            kernels::named_points(points, order, starts[b] as int, starts[b + 1] as int),
        )
}

/// The sums of the first `n` ranges.
pub open spec fn ranges_summed<F: Field>(
    points: Seq<Jacobian<F>>,
    starts: Seq<u32>,
    n: int,
    sums: Seq<Jacobian<F>>,
) -> bool {
    &&& sums.len() == n
    &&& (forall|i: int| 0 <= i < points.len() ==> (#[trigger] points[i]).wf()) ==> forall|b: int|
        0 <= b < n ==> (#[trigger] sums[b]).wf() && sums[b].pt() == group::sum(
            reference::jacobian_pts(points).subrange(starts[b] as int, starts[b + 1] as int),
        )
}

/// A launch over `n` thread indices reads only what is there, and its results fill `out` bytes.
pub open spec fn fits<T: Buffer>(call: Call<'_, T>, n: int, out: int) -> bool {
    match call {
        Call::ScatterGroup { coeffs, starts, witness } => {
            let cs = pack::unpacked_coeffs(coeffs.contents());
            &&& out == 32 * n
            &&& ranges_fit(words(*starts), n, cs.len() as int)
            &&& forall|i: int|
                0 <= i < cs.len() ==> (#[trigger] cs[i]).signal < elements(*witness).len()
        },
        Call::PointwiseMul { a, b } => {
            &&& out == 32 * n
            &&& n <= elements(*a).len()
            &&& n <= elements(*b).len()
        },
        Call::PointwiseMulSub { a, b, c } => {
            &&& out == 32 * n
            &&& n <= elements(*a).len()
            &&& n <= elements(*b).len()
            &&& n <= elements(*c).len()
        },
        Call::PointwiseScale { a, k, .. } => {
            &&& out == 32 * n
            &&& n <= elements(*a).len()
            &&& n <= elements(*k).len()
        },
        Call::BitReverse { a, lg_n } => {
            &&& out == 32 * n
            &&& n == elements(*a).len()
            &&& n == pow2(lg_n as nat)
        },
        Call::NttStage { a, len, twiddles, stride } => {
            &&& out == 32 * n
            &&& n == elements(*a).len()
            &&& len >= 1
            &&& forall|i: int|
                0 <= i < n ==> #[trigger] kernels::stage_fits(
                    i,
                    n,
                    len as int,
                    elements(*twiddles).len() as int,
                    stride as int,
                )
        },
        Call::Digits { scalars, window, w } => {
            &&& out == 4 * n
            &&& n <= self::scalars(*scalars).len()
            &&& w <= 32
            &&& window * w <= u32::MAX
        },
        Call::DigitsAll { scalars, count, w } => {
            &&& out == 4 * n
            &&& count > 0
            &&& count == self::scalars(*scalars).len()
            &&& w <= 32
            &&& n <= 256 * count
        },
        Call::BucketSumG1 { points, order, starts } => {
            &&& out == 96 * n
            &&& ranges_fit(words(*starts), n, words(*order).len() as int)
            &&& indices_fit(words(*order), pack::unpacked_g1(points.contents()).len() as int)
        },
        Call::BucketSumG2 { points, order, starts } => {
            &&& out == 192 * n
            &&& ranges_fit(words(*starts), n, words(*order).len() as int)
            &&& indices_fit(words(*order), pack::unpacked_g2(points.contents()).len() as int)
        },
        Call::JacobianSumG1 { sums, starts } => {
            &&& out == 96 * n
            &&& ranges_fit(
                words(*starts),
                n,
                pack::unpacked_jac_g1(sums.contents()).len() as int,
            )
        },
        Call::JacobianSumG2 { sums, starts } => {
            &&& out == 192 * n
            &&& ranges_fit(
                words(*starts),
                n,
                pack::unpacked_jac_g2(sums.contents()).len() as int,
            )
        },
    }
}

/// The bytes hold what a launch over `n` thread indices writes.
pub open spec fn written<T: Buffer>(call: Call<'_, T>, n: int, out: Seq<u8>) -> bool {
    match call {
        Call::ScatterGroup { coeffs, starts, witness } => pack::unpacked_fr(out)
            == pipeline::group_values(
            pack::unpacked_coeffs(coeffs.contents()),
            words(*starts),
            elements(*witness),
            n as nat,
        ),
        Call::PointwiseMul { a, b } => pack::unpacked_fr(out) == Seq::new(
            n as nat,
            |i: int| elements(*a)[i] * elements(*b)[i],
        ),
        Call::PointwiseMulSub { a, b, c } => pack::unpacked_fr(out) == Seq::new(
            n as nat,
            |i: int| elements(*a)[i] * elements(*b)[i] - elements(*c)[i],
        ),
        Call::PointwiseScale { a, k, factor } => pack::unpacked_fr(out) == Seq::new(
            n as nat,
            |i: int| elements(*a)[i] * elements(*k)[i] * factor,
        ),
        Call::BitReverse { a, lg_n } => pack::unpacked_fr(out) == dft::bit_reversed(
            elements(*a),
            lg_n as nat,
        ),
        Call::NttStage { a, len, twiddles, stride } => pack::unpacked_fr(out) == Seq::new(
            n as nat,
            |i: int|
                kernels::table_butterfly(
                    i,
                    elements(*a),
                    len as int,
                    elements(*twiddles),
                    stride as int,
                ),
        ),
        Call::Digits { scalars, window, w } => pack::unpacked_u32(out) == Seq::new(
            n as nat,
            |i: int|
                scalar::digit_of(
                    limbs::value(self::scalars(*scalars)[i]),
                    window as nat,
                    w as nat,
                ) as u32,
        ),
        Call::DigitsAll { scalars, count, w } => pack::unpacked_u32(out) == Seq::new(
            n as nat,
            |i: int|
                scalar::digit_of(
                    limbs::value(self::scalars(*scalars)[i % (count as int)]),
                    (i / (count as int)) as nat,
                    w as nat,
                ) as u32,
        ),
        Call::BucketSumG1 { points, order, starts } => buckets_summed(
            pack::unpacked_g1(points.contents()),
            words(*order),
            words(*starts),
            n,
            pack::unpacked_jac_g1(out),
        ),
        Call::BucketSumG2 { points, order, starts } => buckets_summed(
            pack::unpacked_g2(points.contents()),
            words(*order),
            words(*starts),
            n,
            pack::unpacked_jac_g2(out),
        ),
        Call::JacobianSumG1 { sums, starts } => ranges_summed(
            pack::unpacked_jac_g1(sums.contents()),
            words(*starts),
            n,
            pack::unpacked_jac_g1(out),
        ),
        Call::JacobianSumG2 { sums, starts } => ranges_summed(
            pack::unpacked_jac_g2(sums.contents()),
            words(*starts),
            n,
            pack::unpacked_jac_g2(out),
        ),
    }
}

/// The bytes that a buffer made for `bytes` bytes occupies: at least sixteen.
pub open spec fn occupied(bytes: nat) -> nat {
    if bytes < 16 {
        16
    } else {
        bytes
    }
}

/// Where the kernels run.
pub trait Backend {
    /// A buffer the kernels read and write.
    type Buf: Buffer;

    /// A buffer holding `bytes`.
    fn upload(&self, bytes: &[u8]) -> (buf: Self::Buf)
        ensures
            buf.contents() == bytes@,
            buf.size() == occupied(bytes@.len()),
    ;

    /// A zeroed buffer of `bytes` bytes.
    fn allocate(&self, bytes: usize) -> (buf: Self::Buf)
        ensures
            buf.contents() == pack::zeros(bytes as nat),
            buf.size() == occupied(bytes as nat),
    ;

    /// The first `bytes` bytes of `buf`, after every previous `run` completed.
    fn read(&self, buf: &Self::Buf, bytes: usize) -> (r: Vec<u8>)
        requires
            bytes <= buf.contents().len(),
        ensures
            r@ == buf.contents().take(bytes as int),
    ;

    /// Bytes held by `buf`.
    fn len(&self, buf: &Self::Buf) -> (r: usize)
        ensures
            r == buf.size(),
    ;

    /// What a run over `n` thread indices may leave in the buffer that it writes. Only verified
    /// implementations need to say so; what it has to leave is [`written`].
    open spec fn left(&self, call: Call<'_, Self::Buf>, n: int, after: Seq<u8>) -> bool {
        arbitrary()
    }

    /// Run a kernel over `n` thread indices, writing `out`, and wait.
    fn run(&self, call: &Call<'_, Self::Buf>, n: usize, out: &mut Self::Buf)
        requires
            fits(*call, n as int, old(out).contents().len() as int),
        ensures
            final(out).size() == old(out).size(),
            final(out).contents().len() == old(out).contents().len(),
            self.left(*call, n as int, final(out).contents()),
    ;

    /// The device, for reports.
    fn describe(&self) -> String;
}

/// A device whose every launch leaves what it has to.
#[verifier::opaque]
pub open spec fn right<B: Backend>(device: B) -> bool {
    forall|call: Call<'_, B::Buf>, n: int, after: Seq<u8>|
        fits(call, n, after.len() as int) && #[trigger] device.left(call, n, after) ==> written(
            call,
            n,
            after,
        )
}

// ---- the kernels on the CPU --------------------------------------------------------------------

/// A buffer the kernels read and write on the CPU.
pub struct HostBuf {
    bytes: Vec<u8>,
    size: usize,
}

impl Buffer for HostBuf {
    closed spec fn contents(&self) -> Seq<u8> {
        self.bytes@
    }

    closed spec fn size(&self) -> nat {
        self.size as nat
    }
}

impl HostBuf {
    fn of(bytes: Vec<u8>) -> (r: Self)
        ensures
            r.contents() == bytes@,
            r.size() == occupied(bytes@.len()),
    {
        let size = if bytes.len() < 16 {
            16
        } else {
            bytes.len()
        };
        Self { bytes, size }
    }

    fn store(&mut self, bytes: Vec<u8>)
        ensures
            final(self).contents() == bytes@,
            final(self).size() == old(self).size(),
    {
        self.bytes = bytes;
    }
}

/// The kernels run one thread index at a time.
#[derive(Clone, Copy, Debug)]
pub struct HostBackend;

impl Default for HostBackend {
    fn default() -> (r: Self)
        ensures
            r == HostBackend,
    {
        HostBackend
    }
}

/// `f(0), f(1), …, f(n - 1)`.
fn each<T, F: Fn(usize) -> T>(n: usize, f: F) -> (r: Vec<T>)
    requires
        forall|i: usize| i < n ==> #[trigger] f.requires((i,)),
    ensures
        r@.len() == n,
        forall|i: usize| i < n ==> f.ensures((i,), #[trigger] r@[i as int]),
{
    let mut r: Vec<T> = Vec::new();
    let mut i: usize = 0;
    while i < n
        invariant
            i <= n,
            r@.len() == i,
            forall|j: usize| j < n ==> #[trigger] f.requires((j,)),
            forall|j: usize| j < i ==> f.ensures((j,), #[trigger] r@[j as int]),
        decreases n - i,
    {
        let v = f(i);
        r.push(v);
        i = i + 1;
    }
    r
}

/// The value of every group.
fn scatter_all(coeffs: &[GroupedCoeff], starts: &[u32], witness: &[Fr], n: usize) -> (r: Vec<Fr>)
    requires
        ranges_fit(starts@, n as int, coeffs@.len() as int),
        forall|i: int|
            0 <= i < coeffs@.len() ==> (#[trigger] coeffs@[i]).signal < witness@.len(),
    ensures
        r@ == pipeline::group_values(coeffs@, starts@, witness@, n as nat),
{
    let body = |g: usize| -> (v: Fr)
        requires
            kernels::range_fits(starts@, g as int, coeffs@.len() as int),
            forall|i: int|
                0 <= i < coeffs@.len() ==> (#[trigger] coeffs@[i]).signal < witness@.len(),
        ensures
            v == kernels::group_value(
                coeffs@,
                witness@,
                starts@[g as int] as int,
                starts@[g + 1] as int,
            ),
        { kernels::scatter_group(g, coeffs, starts, witness) };
    proof {
        assert forall|g: usize| g < n implies #[trigger] body.requires((g,)) by {
            assert(kernels::range_fits(starts@, g as int, coeffs@.len() as int));
        }
    }
    let r = each(n, body);
    proof {
        let values = pipeline::group_values(coeffs@, starts@, witness@, n as nat);
        assert forall|g: int| 0 <= g < n implies r@[g] == #[trigger] values[g] by {
            assert(body.ensures((g as usize,), r@[(g as usize) as int]));
        }
        assert(r@ =~= values);
    }
    r
}

/// One stage of a transform.
fn stage_all(a: &[Fr], len: u32, twiddles: &[Fr], stride: u32, n: usize) -> (r: Vec<Fr>)
    requires
        n == a@.len(),
        len >= 1,
        forall|i: int|
            0 <= i < n ==> #[trigger] kernels::stage_fits(
                i,
                n as int,
                len as int,
                twiddles@.len() as int,
                stride as int,
            ),
    ensures
        r@ == Seq::new(
            n as nat,
            |i: int| kernels::table_butterfly(i, a@, len as int, twiddles@, stride as int),
        ),
{
    let body = |i: usize| -> (v: Fr)
        requires
            i < a@.len(),
            len >= 1,
            kernels::stage_fits(
                i as int,
                a@.len() as int,
                len as int,
                twiddles@.len() as int,
                stride as int,
            ),
        ensures
            v == kernels::table_butterfly(i as int, a@, len as int, twiddles@, stride as int),
        { kernels::ntt_stage(i, a, len as usize, twiddles, stride as usize) };
    proof {
        assert forall|i: usize| i < n implies #[trigger] body.requires((i,)) by {
            assert(kernels::stage_fits(
                i as int,
                n as int,
                len as int,
                twiddles@.len() as int,
                stride as int,
            ));
        }
    }
    let r = each(n, body);
    proof {
        let values = Seq::new(
            n as nat,
            |i: int| kernels::table_butterfly(i, a@, len as int, twiddles@, stride as int),
        );
        assert forall|i: int| 0 <= i < n implies r@[i] == #[trigger] values[i] by {
            assert(body.ensures((i as usize,), r@[(i as usize) as int]));
        }
        assert(r@ =~= values);
    }
    r
}

/// The digits of all windows.
fn digits_of_all(scalars: &[[u64; 4]], w: u32, n: usize) -> (r: Vec<u32>)
    requires
        scalars@.len() > 0,
        w <= 32,
        n <= 256 * scalars@.len(),
    ensures
        r@ == Seq::new(
            n as nat,
            |i: int|
                scalar::digit_of(
                    limbs::value(scalars@[i % (scalars@.len() as int)]),
                    (i / (scalars@.len() as int)) as nat,
                    w as nat,
                ) as u32,
        ),
{
    let count = scalars.len();
    let body = |i: usize| -> (d: u32)
        requires
            scalars@.len() > 0,
            count == scalars@.len(),
            w <= 32,
            i < n,
            n <= 256 * count,
        ensures
            d == scalar::digit_of(
                limbs::value(scalars@[i as int % count as int]),
                (i as int / count as int) as nat,
                w as nat,
            ),
        {
            proof {
                lemma_fundamental_div_mod(i as int, count as int);
                assert(i / count < 256) by (nonlinear_arith)
                    requires
                        count * (i / count) <= i,
                        i < 256 * count,
                        count > 0,
                ;
                assert((i / count) * w <= 256 * 32) by (nonlinear_arith)
                    requires
                        0 <= i / count < 256,
                        w <= 32,
                ;
            }
            kernels::digit_all(i, scalars, w)
        };
    let r = each(n, body);
    proof {
        let values = Seq::new(
            n as nat,
            |i: int|
                scalar::digit_of(
                    limbs::value(scalars@[i % (scalars@.len() as int)]),
                    (i / (scalars@.len() as int)) as nat,
                    w as nat,
                ) as u32,
        );
        assert forall|i: int| 0 <= i < n implies r@[i] == #[trigger] values[i] by {
            assert(body.ensures((i as usize,), r@[(i as usize) as int]));
        }
        assert(r@ =~= values);
    }
    r
}

/// The digits of one window.
fn digits_of_window(scalars: &[[u64; 4]], window: u32, w: u32, n: usize) -> (r: Vec<u32>)
    requires
        n <= scalars@.len(),
        w <= 32,
        window * w <= u32::MAX,
    ensures
        r@ == Seq::new(
            n as nat,
            |i: int|
                scalar::digit_of(limbs::value(scalars@[i]), window as nat, w as nat) as u32,
        ),
{
    let body = |i: usize| -> (d: u32)
        requires
            i < scalars@.len(),
            w <= 32,
            window * w <= u32::MAX,
        ensures
            d == scalar::digit_of(limbs::value(scalars@[i as int]), window as nat, w as nat),
        { kernels::digit(i, scalars, window, w) };
    let r = each(n, body);
    proof {
        let values = Seq::new(
            n as nat,
            |i: int|
                scalar::digit_of(limbs::value(scalars@[i]), window as nat, w as nat) as u32,
        );
        assert forall|i: int| 0 <= i < n implies r@[i] == #[trigger] values[i] by {
            assert(body.ensures((i as usize,), r@[(i as usize) as int]));
        }
        assert(r@ =~= values);
    }
    r
}

/// Bucket sums.
fn buckets_all<F: Field>(points: &[Affine<F>], order: &[u32], starts: &[u32], n: usize) -> (r: Vec<
    Jacobian<F>,
>)
    requires
        ranges_fit(starts@, n as int, order@.len() as int),
        indices_fit(order@, points@.len() as int),
    ensures
        buckets_summed(points@, order@, starts@, n as int, r@),
{
    let body = |b: usize| -> (v: Jacobian<F>)
        requires
            kernels::range_fits(starts@, b as int, order@.len() as int),
            indices_fit(order@, points@.len() as int),
        ensures
            (forall|i: int| 0 <= i < points@.len() ==> (#[trigger] points@[i]).wf()) ==> v.wf()
                && v.pt() == group::sum(
                kernels::named_points(
                    points@,
                    order@,
                    starts@[b as int] as int,
                    starts@[b + 1] as int,
                ),
            ),
        { kernels::bucket_sum(b, points, order, starts) };
    proof {
        assert forall|b: usize| b < n implies #[trigger] body.requires((b,)) by {
            assert(kernels::range_fits(starts@, b as int, order@.len() as int));
        }
    }
    let r = each(n, body);
    proof {
        if forall|i: int| 0 <= i < points@.len() ==> (#[trigger] points@[i]).wf() {
            assert forall|b: int| 0 <= b < n implies (#[trigger] r@[b]).wf() && r@[b].pt()
                == group::sum(
                kernels::named_points(points@, order@, starts@[b] as int, starts@[b + 1] as int),
            ) by {
                assert(body.ensures((b as usize,), r@[(b as usize) as int]));
            }
        }
    }
    r
}

/// Sums of ranges of Jacobian points.
fn ranges_all<F: Field>(sums: &[Jacobian<F>], starts: &[u32], n: usize) -> (r: Vec<Jacobian<F>>)
    requires
        ranges_fit(starts@, n as int, sums@.len() as int),
    ensures
        ranges_summed(sums@, starts@, n as int, r@),
{
    let body = |b: usize| -> (v: Jacobian<F>)
        requires
            kernels::range_fits(starts@, b as int, sums@.len() as int),
        ensures
            (forall|i: int| 0 <= i < sums@.len() ==> (#[trigger] sums@[i]).wf()) ==> v.wf()
                && v.pt() == group::sum(
                reference::jacobian_pts(sums@).subrange(
                    starts@[b as int] as int,
                    starts@[b + 1] as int,
                ),
            ),
        { kernels::jacobian_sum(b, sums, starts) };
    proof {
        assert forall|b: usize| b < n implies #[trigger] body.requires((b,)) by {
            assert(kernels::range_fits(starts@, b as int, sums@.len() as int));
        }
    }
    let r = each(n, body);
    proof {
        if forall|i: int| 0 <= i < sums@.len() ==> (#[trigger] sums@[i]).wf() {
            assert forall|b: int| 0 <= b < n implies (#[trigger] r@[b]).wf() && r@[b].pt()
                == group::sum(
                reference::jacobian_pts(sums@).subrange(starts@[b] as int, starts@[b + 1] as int),
            ) by {
                assert(body.ensures((b as usize,), r@[(b as usize) as int]));
            }
        }
    }
    r
}

impl HostBackend {
    /// A kernel whose results are field elements.
    fn elements_of(call: &Call<'_, HostBuf>, n: usize) -> (r: Vec<Fr>)
        requires
            fits(*call, n as int, 32 * n),
            call.place() < 6,
        ensures
            r@.len() == n,
            written(*call, n as int, pack::packed_fr(r@)),
    {
        let r: Vec<Fr>;
        match call {
            Call::ScatterGroup { coeffs, starts, witness } => {
                let cs = pack::unpack_coeffs(coeffs.bytes.as_slice());
                let st = pack::unpack_u32(starts.bytes.as_slice());
                let wt = pack::unpack_fr(witness.bytes.as_slice());
                r = scatter_all(&cs, &st, &wt, n);
            },
            Call::PointwiseMul { a, b } => {
                let xs = pack::unpack_fr(a.bytes.as_slice());
                let ys = pack::unpack_fr(b.bytes.as_slice());
                let (x, y) = (&xs, &ys);
                let body = |i: usize| -> (v: Fr)
                    requires
                        i < x@.len(),
                        i < y@.len(),
                    ensures
                        v == x@[i as int] * y@[i as int],
                    { kernels::pointwise_mul(i, x, y) };
                r = each(n, body);
                proof {
                    assert forall|i: int| 0 <= i < n implies #[trigger] r@[i] == xs@[i] * ys@[i] by {
                        assert(body.ensures((i as usize,), r@[(i as usize) as int]));
                    }
                    assert(r@ =~= Seq::new(
                        n as nat,
                        |i: int| elements(**a)[i] * elements(**b)[i],
                    ));
                }
            },
            Call::PointwiseMulSub { a, b, c } => {
                let xs = pack::unpack_fr(a.bytes.as_slice());
                let ys = pack::unpack_fr(b.bytes.as_slice());
                let zs = pack::unpack_fr(c.bytes.as_slice());
                let (x, y, z) = (&xs, &ys, &zs);
                let body = |i: usize| -> (v: Fr)
                    requires
                        i < x@.len(),
                        i < y@.len(),
                        i < z@.len(),
                    ensures
                        v == x@[i as int] * y@[i as int] - z@[i as int],
                    { kernels::pointwise_mul_sub(i, x, y, z) };
                r = each(n, body);
                proof {
                    assert forall|i: int| 0 <= i < n implies #[trigger] r@[i] == xs@[i] * ys@[i]
                        - zs@[i] by {
                        assert(body.ensures((i as usize,), r@[(i as usize) as int]));
                    }
                    assert(r@ =~= Seq::new(
                        n as nat,
                        |i: int| elements(**a)[i] * elements(**b)[i] - elements(**c)[i],
                    ));
                }
            },
            Call::PointwiseScale { a, k, factor } => {
                let xs = pack::unpack_fr(a.bytes.as_slice());
                let ks = pack::unpack_fr(k.bytes.as_slice());
                let (x, y) = (&xs, &ks);
                let body = |i: usize| -> (v: Fr)
                    requires
                        i < x@.len(),
                        i < y@.len(),
                    ensures
                        v == x@[i as int] * y@[i as int] * *factor,
                    { kernels::pointwise_scale(i, x, y).mul(factor) };
                r = each(n, body);
                proof {
                    assert forall|i: int| 0 <= i < n implies #[trigger] r@[i] == xs@[i] * ks@[i]
                        * *factor by {
                        assert(body.ensures((i as usize,), r@[(i as usize) as int]));
                    }
                    assert(r@ =~= Seq::new(
                        n as nat,
                        |i: int| elements(**a)[i] * elements(**k)[i] * *factor,
                    ));
                }
            },
            Call::BitReverse { a, lg_n } => {
                let xs = pack::unpack_fr(a.bytes.as_slice());
                let (x, lg) = (&xs, *lg_n);
                let body = |i: usize| -> (v: Fr)
                    requires
                        i < x@.len(),
                        x@.len() == pow2(lg as nat),
                        x@.len() <= usize::MAX,
                    ensures
                        v == x@[dft::reversed(i as nat, lg as nat) as int],
                    {
                        proof {
                            dft::lemma_reversed_bound(i as nat, lg as nat);
                        }
                        kernels::bit_reverse(i, x, lg)
                    };
                r = each(n, body);
                proof {
                    let want = dft::bit_reversed(xs@, lg as nat);
                    assert forall|i: int| 0 <= i < n implies #[trigger] r@[i] == want[i] by {
                        assert(body.ensures((i as usize,), r@[(i as usize) as int]));
                    }
                    assert(r@ =~= want);
                }
            },
            Call::NttStage { a, len, twiddles, stride } => {
                let xs = pack::unpack_fr(a.bytes.as_slice());
                let ts = pack::unpack_fr(twiddles.bytes.as_slice());
                assert(ts@ == elements(**twiddles));
                assert(xs@ == elements(**a));
                r = stage_all(&xs, *len, &ts, *stride, n);
            },
            _ => {
                r = Vec::new();
            },
        }
        proof {
            pack::lemma_fr_round_trip(r@);
        }
        r
    }

    /// A kernel whose results are words.
    fn words_of(call: &Call<'_, HostBuf>, n: usize) -> (r: Vec<u32>)
        requires
            fits(*call, n as int, 4 * n),
            6 <= call.place() < 8,
        ensures
            r@.len() == n,
            written(*call, n as int, pack::packed_u32(r@)),
    {
        let r = match call {
            Call::Digits { scalars, window, w } => {
                let ks = pack::unpack_canonical(scalars.bytes.as_slice());
                digits_of_window(&ks, *window, *w, n)
            },
            Call::DigitsAll { scalars, w, .. } => {
                let ks = pack::unpack_canonical(scalars.bytes.as_slice());
                digits_of_all(&ks, *w, n)
            },
            _ => Vec::new(),
        };
        proof {
            pack::lemma_u32_round_trip(r@);
        }
        r
    }
}

impl Backend for HostBackend {
    type Buf = HostBuf;

    fn upload(&self, bytes: &[u8]) -> (buf: HostBuf) {
        let mut v: Vec<u8> = Vec::new();
        pack::append(&mut v, bytes);
        proof {
            assert(v@ =~= bytes@);
        }
        HostBuf::of(v)
    }

    fn allocate(&self, bytes: usize) -> (buf: HostBuf) {
        let mut v: Vec<u8> = Vec::new();
        let mut i: usize = 0;
        while i < bytes
            invariant
                i <= bytes,
                v@ =~= pack::zeros(i as nat),
            decreases bytes - i,
        {
            v.push(0u8);
            i = i + 1;
        }
        HostBuf::of(v)
    }

    fn read(&self, buf: &HostBuf, bytes: usize) -> (r: Vec<u8>) {
        let mut v: Vec<u8> = Vec::new();
        pack::append(&mut v, vstd::slice::slice_subrange(buf.bytes.as_slice(), 0, bytes));
        proof {
            assert(v@ =~= buf.bytes@.take(bytes as int));
        }
        v
    }

    fn len(&self, buf: &HostBuf) -> (r: usize) {
        buf.size
    }

    open spec fn left(&self, call: Call<'_, HostBuf>, n: int, after: Seq<u8>) -> bool {
        fits(call, n, after.len() as int) ==> written(call, n, after)
    }

    fn run(&self, call: &Call<'_, HostBuf>, n: usize, out: &mut HostBuf) {
        match call {
            Call::Digits { .. } | Call::DigitsAll { .. } => {
                let r = HostBackend::words_of(call, n);
                proof {
                    pack::lemma_u32_round_trip(r@);
                }
                out.store(pack::pack_u32(&r));
            },
            Call::BucketSumG1 { points, order, starts } => {
                let ps = pack::unpack_g1(points.bytes.as_slice());
                let os = pack::unpack_u32(order.bytes.as_slice());
                let st = pack::unpack_u32(starts.bytes.as_slice());
                let r = buckets_all(&ps, &os, &st, n);
                proof {
                    pack::lemma_jac_g1_round_trip(r@);
                }
                out.store(pack::pack_jac_g1(&r));
            },
            Call::BucketSumG2 { points, order, starts } => {
                let ps = pack::unpack_g2(points.bytes.as_slice());
                let os = pack::unpack_u32(order.bytes.as_slice());
                let st = pack::unpack_u32(starts.bytes.as_slice());
                let r = buckets_all(&ps, &os, &st, n);
                proof {
                    pack::lemma_jac_g2_round_trip(r@);
                }
                out.store(pack::pack_jac_g2(&r));
            },
            Call::JacobianSumG1 { sums, starts } => {
                let ps = pack::unpack_jac_g1(sums.bytes.as_slice());
                let st = pack::unpack_u32(starts.bytes.as_slice());
                let r = ranges_all(&ps, &st, n);
                proof {
                    pack::lemma_jac_g1_round_trip(r@);
                }
                out.store(pack::pack_jac_g1(&r));
            },
            Call::JacobianSumG2 { sums, starts } => {
                let ps = pack::unpack_jac_g2(sums.bytes.as_slice());
                let st = pack::unpack_u32(starts.bytes.as_slice());
                let r = ranges_all(&ps, &st, n);
                proof {
                    pack::lemma_jac_g2_round_trip(r@);
                }
                out.store(pack::pack_jac_g2(&r));
            },
            _ => {
                let r = HostBackend::elements_of(call, n);
                proof {
                    pack::lemma_fr_round_trip(r@);
                }
                out.store(pack::pack_fr(&r));
            },
        }
    }

    fn describe(&self) -> (r: String)
        ensures
            r@ == "the kernels on the CPU, one thread index at a time"@,
    {
        text::owned("the kernels on the CPU, one thread index at a time")
    }
}

/// The kernels on the CPU leave what they have to.
pub proof fn lemma_host_is_right(device: HostBackend)
    ensures
        right(device),
{
    reveal(right);
}

/// What a right device leaves.
proof fn lemma_right<B: Backend>(device: B, call: Call<'_, B::Buf>, n: int, after: Seq<u8>)
    requires
        right(device),
        fits(call, n, after.len() as int),
        device.left(call, n, after),
    ensures
        written(call, n, after),
{
    reveal(right);
}

// ---- the groups --------------------------------------------------------------------------------

/// The bytes of a multi-scalar sum over `n` points are counted by a `usize`: of the digits of 22
/// windows, and of the sums of its pieces, of which there are at most one for every bucket and
/// one for every 64 entries.
pub open spec fn sum_addressable(n: int) -> bool {
    88 * n <= usize::MAX && 192 * 90090 + 66 * n <= usize::MAX
}

/// The bytes of a proof with a key are counted by a `usize`, for this many groups at most in
/// either matrix.
pub open spec fn addressable(zkey: Zkey, groups: int) -> bool {
    &&& sum_addressable(zkey.num_vars as int)
    &&& sum_addressable(zkey.domain_size as int)
    &&& 32 * groups <= usize::MAX
}

/// Whether the bytes of a proof with a key are counted by a `usize`, for this many groups at most
/// in either matrix.
pub fn is_addressable(zkey: &Zkey, groups: usize) -> (r: bool)
    ensures
        r == addressable(*zkey, groups as int),
{
    let top = usize::MAX as u128;
    let (vars, domain) = (zkey.num_vars as u128, zkey.domain_size as u128);
    88 * vars <= top && 192 * 90090 + 66 * vars <= top && 88 * domain <= top && 192 * 90090 + 66
        * domain <= top && 32 * (groups as u128) <= top
}

/// With 64-bit sizes, every key whose sums have 32-bit indices is addressable, for as many groups
/// as such indices allow.
pub proof fn lemma_launchable_is_addressable(zkey: Zkey, groups: int)
    requires
        usize::MAX >= 0xffff_ffff_ffff_ffff,
        22 * zkey.num_vars <= u32::MAX,
        22 * zkey.domain_size <= u32::MAX,
        groups <= u32::MAX,
    ensures
        addressable(zkey, groups),
{
}

/// The coordinate field of a group that the kernels sum in: the layouts of its points and sums,
/// and its two kernels.
pub trait Group: Field {
    /// The points that bytes hold.
    spec fn points_of(s: Seq<u8>) -> Seq<Affine<Self>>;

    /// The Jacobian points that bytes hold.
    spec fn sums_of(s: Seq<u8>) -> Seq<Jacobian<Self>>;

    /// The bytes of a Jacobian point.
    spec fn sum_size() -> int;

    /// Whether the group is G1; it is G2 else.
    spec fn is_g1() -> bool;

    /// A Jacobian point has three coordinates of one or two elements.
    proof fn lemma_sum_size()
        ensures
            96 <= Self::sum_size() <= 192,
    ;

    /// The number of Jacobian points that bytes hold.
    proof fn lemma_sums_len(s: Seq<u8>, n: int)
        requires
            s.len() == Self::sum_size() * n,
        ensures
            Self::sums_of(s).len() == n,
    ;

    /// The bytes of a Jacobian point.
    fn sum_bytes() -> (r: usize)
        ensures
            r == Self::sum_size(),
            96 <= r <= 192,
    ;

    /// Read Jacobian results.
    fn unpack_sums(b: &[u8]) -> (r: Vec<Jacobian<Self>>)
        ensures
            r@ == Self::sums_of(b@),
    ;

    /// Run the group's bucket-sum kernel.
    fn bucket_sum<B: Backend>(
        backend: &B,
        points: &B::Buf,
        order: &B::Buf,
        starts: &B::Buf,
        n: usize,
        out: &mut B::Buf,
    )
        requires
            old(out).contents().len() == Self::sum_size() * n,
            ranges_fit(words(*starts), n as int, words(*order).len() as int),
            indices_fit(words(*order), Self::points_of(points.contents()).len() as int),
        ensures
            final(out).contents().len() == old(out).contents().len(),
            backend.left(
                bucket_call(Self::is_g1(), points, order, starts),
                n as int,
                final(out).contents(),
            ),
            right(*backend) ==> buckets_summed(
                Self::points_of(points.contents()),
                words(*order),
                words(*starts),
                n as int,
                Self::sums_of(final(out).contents()),
            ),
    ;

    /// Run the group's Jacobian-sum kernel.
    fn jacobian_sum<B: Backend>(
        backend: &B,
        sums: &B::Buf,
        starts: &B::Buf,
        n: usize,
        out: &mut B::Buf,
    )
        requires
            old(out).contents().len() == Self::sum_size() * n,
            ranges_fit(words(*starts), n as int, Self::sums_of(sums.contents()).len() as int),
        ensures
            final(out).contents().len() == old(out).contents().len(),
            backend.left(range_call(Self::is_g1(), sums, starts), n as int, final(out).contents()),
            right(*backend) ==> ranges_summed(
                Self::sums_of(sums.contents()),
                words(*starts),
                n as int,
                Self::sums_of(final(out).contents()),
            ),
    ;
}

/// A launch of a group's bucket-sum kernel.
pub open spec fn bucket_call<'a, T>(
    g1: bool,
    points: &'a T,
    order: &'a T,
    starts: &'a T,
) -> Call<'a, T> {
    if g1 {
        Call::BucketSumG1 { points, order, starts }
    } else {
        Call::BucketSumG2 { points, order, starts }
    }
}

/// A launch of a group's Jacobian-sum kernel.
pub open spec fn range_call<'a, T>(g1: bool, sums: &'a T, starts: &'a T) -> Call<'a, T> {
    if g1 {
        Call::JacobianSumG1 { sums, starts }
    } else {
        Call::JacobianSumG2 { sums, starts }
    }
}

impl Group for Fp {
    open spec fn points_of(s: Seq<u8>) -> Seq<Affine<Self>> {
        pack::unpacked_g1(s)
    }

    open spec fn sums_of(s: Seq<u8>) -> Seq<Jacobian<Self>> {
        pack::unpacked_jac_g1(s)
    }

    open spec fn sum_size() -> int {
        96
    }

    open spec fn is_g1() -> bool {
        true
    }

    proof fn lemma_sum_size() {
    }

    proof fn lemma_sums_len(s: Seq<u8>, n: int) {
    }

    fn sum_bytes() -> (r: usize) {
        96
    }

    fn unpack_sums(b: &[u8]) -> (r: Vec<Jacobian<Self>>) {
        pack::unpack_jac_g1(b)
    }

    fn bucket_sum<B: Backend>(
        backend: &B,
        points: &B::Buf,
        order: &B::Buf,
        starts: &B::Buf,
        n: usize,
        out: &mut B::Buf,
    ) {
        let call = Call::BucketSumG1 { points, order, starts };
        backend.run(&call, n, out);
        proof {
            if right(*backend) {
                lemma_right(*backend, call, n as int, out.contents());
            }
        }
    }

    fn jacobian_sum<B: Backend>(
        backend: &B,
        sums: &B::Buf,
        starts: &B::Buf,
        n: usize,
        out: &mut B::Buf,
    ) {
        let call = Call::JacobianSumG1 { sums, starts };
        backend.run(&call, n, out);
        proof {
            if right(*backend) {
                lemma_right(*backend, call, n as int, out.contents());
            }
        }
    }
}

impl Group for Fp2 {
    open spec fn points_of(s: Seq<u8>) -> Seq<Affine<Self>> {
        pack::unpacked_g2(s)
    }

    open spec fn sums_of(s: Seq<u8>) -> Seq<Jacobian<Self>> {
        pack::unpacked_jac_g2(s)
    }

    open spec fn sum_size() -> int {
        192
    }

    open spec fn is_g1() -> bool {
        false
    }

    proof fn lemma_sum_size() {
    }

    proof fn lemma_sums_len(s: Seq<u8>, n: int) {
    }

    fn sum_bytes() -> (r: usize) {
        192
    }

    fn unpack_sums(b: &[u8]) -> (r: Vec<Jacobian<Self>>) {
        pack::unpack_jac_g2(b)
    }

    fn bucket_sum<B: Backend>(
        backend: &B,
        points: &B::Buf,
        order: &B::Buf,
        starts: &B::Buf,
        n: usize,
        out: &mut B::Buf,
    ) {
        let call = Call::BucketSumG2 { points, order, starts };
        backend.run(&call, n, out);
        proof {
            if right(*backend) {
                lemma_right(*backend, call, n as int, out.contents());
            }
        }
    }

    fn jacobian_sum<B: Backend>(
        backend: &B,
        sums: &B::Buf,
        starts: &B::Buf,
        n: usize,
        out: &mut B::Buf,
    ) {
        let call = Call::JacobianSumG2 { sums, starts };
        backend.run(&call, n, out);
        proof {
            if right(*backend) {
                lemma_right(*backend, call, n as int, out.contents());
            }
        }
    }
}

// ---- the prover --------------------------------------------------------------------------------

/// The prover pipeline over a backend.
pub struct Prover<B: Backend> {
    backend: B,
}

/// The transform tables on the device.
pub struct TransformBuffers<T> {
    forward: T,
    inverse: T,
    shift: T,
    n_inv: Fr,
    lg_n: u32,
}

impl<T: Buffer> TransformBuffers<T> {
    /// The buffers hold these tables.
    pub closed spec fn hold(self, t: Tables) -> bool {
        &&& self.forward.contents() == pack::packed_fr(t.forward@)
        &&& self.inverse.contents() == pack::packed_fr(t.inverse@)
        &&& self.shift.contents() == pack::packed_fr(t.shift_powers@)
        &&& self.n_inv == t.n_inv
        &&& self.lg_n == t.lg_n
    }
}

// ---- what a device leaves ----------------------------------------------------------------------

/// The launch of a step of a schedule.
closed spec fn step_call<'a, T>(step: Step, src: &'a T, tb: &'a TransformBuffers<T>) -> Call<
    'a,
    T,
> {
    match step {
        Step::BitReverse { .. } => Call::BitReverse { a: src, lg_n: tb.lg_n },
        Step::NttStage { len, stride, twiddles, .. } => Call::NttStage {
            a: src,
            len,
            twiddles: match twiddles {
                Twiddles::Inverse => &tb.inverse,
                Twiddles::Forward => &tb.forward,
            },
            stride,
        },
        Step::Scale { .. } => Call::PointwiseScale { a: src, k: &tb.shift, factor: tb.n_inv },
    }
}

/// The bytes that the launches of the first `k` steps of a schedule may leave, over `n` elements
/// that start as `from`.
pub closed spec fn steps_left<B: Backend>(
    device: B,
    t: Tables,
    steps: Seq<Step>,
    k: int,
    n: int,
    from: Seq<u8>,
    after: Seq<u8>,
) -> bool
    decreases k,
{
    if k <= 0 {
        after == from
    } else {
        exists|src: B::Buf, tb: TransformBuffers<B::Buf>|
            tb.hold(t) && steps_left(device, t, steps, k - 1, n, from, src.contents())
                && #[trigger] device.left(step_call(steps[k - 1], &src, &tb), n, after)
    }
}

/// The bytes that the coset transform may leave.
pub open spec fn coset_left<B: Backend>(
    device: B,
    t: Tables,
    n: int,
    from: Seq<u8>,
    after: Seq<u8>,
) -> bool {
    let steps = schedule::coset_steps(ntt::lg(n as nat) as int);
    steps_left(device, t, steps, steps.len() as int, n, from, after)
}

/// The bytes that the launches of the first `k` levels of a plan may leave.
#[verifier::opaque]
pub open spec fn plan_left<B: Backend, F: Group>(
    device: B,
    points: B::Buf,
    order: Seq<u32>,
    levels: Seq<Seq<u32>>,
    k: int,
    after: Seq<u8>,
) -> bool
    decreases k,
{
    &&& after.len() == F::sum_size() * (levels[k - 1].len() - 1)
    &&& if k <= 1 {
        exists|o: B::Buf, s: B::Buf|
            o.contents() == pack::packed_u32(order) && s.contents() == pack::packed_u32(levels[0])
                && #[trigger] device.left(
                bucket_call(F::is_g1(), &points, &o, &s),
                levels[0].len() - 1,
                after,
            )
    } else {
        exists|below: B::Buf, s: B::Buf|
            plan_left::<B, F>(device, points, order, levels, k - 1, below.contents())
                && s.contents() == pack::packed_u32(levels[k - 1]) && #[trigger] device.left(
                range_call(F::is_g1(), &below, &s),
                levels[k - 1].len() - 1,
                after,
            )
    }
}

/// The first level of a plan was launched.
proof fn lemma_plan_first<B: Backend, F: Group>(
    device: B,
    points: B::Buf,
    order: Seq<u32>,
    levels: Seq<Seq<u32>>,
    o: B::Buf,
    s: B::Buf,
    after: Seq<u8>,
)
    requires
        o.contents() == pack::packed_u32(order),
        s.contents() == pack::packed_u32(levels[0]),
        after.len() == F::sum_size() * (levels[0].len() - 1),
        device.left(bucket_call(F::is_g1(), &points, &o, &s), levels[0].len() - 1, after),
    ensures
        plan_left::<B, F>(device, points, order, levels, 1, after),
{
    reveal_with_fuel(plan_left, 1);
}

/// One more level of a plan was launched.
proof fn lemma_plan_next<B: Backend, F: Group>(
    device: B,
    points: B::Buf,
    order: Seq<u32>,
    levels: Seq<Seq<u32>>,
    k: int,
    below: B::Buf,
    s: B::Buf,
    after: Seq<u8>,
)
    requires
        k >= 1,
        plan_left::<B, F>(device, points, order, levels, k, below.contents()),
        s.contents() == pack::packed_u32(levels[k]),
        after.len() == F::sum_size() * (levels[k].len() - 1),
        device.left(range_call(F::is_g1(), &below, &s), levels[k].len() - 1, after),
    ensures
        plan_left::<B, F>(device, points, order, levels, k + 1, after),
{
    reveal_with_fuel(plan_left, 1);
    assert(levels[k + 1 - 1] == levels[k]);
}

/// The point that bucket sums on a curve reduce to: `Σ_w 2^{12·w} · Σ_d d·S_{w,d}`.
pub open spec fn reduced_to<F: Field>(sums: Seq<Jacobian<F>>, p: Jacobian<F>) -> bool {
    (exists|b: F| #[trigger] reference::jacobians_on_curve(sums, b)) ==> p.wf() && p.pt()
        == group::windowed(
        Seq::new(
            22,
            |w: int|
                group::counted(
                    reference::jacobian_pts(sums).subrange(w * 4095, w * 4095 + 4095),
                ),
        ),
        12,
    )
}

/// Digits of twelve bits.
pub open spec fn in_buckets(digits: Seq<u32>) -> bool {
    forall|i: int| 0 <= i < digits.len() ==> #[trigger] digits[i] <= 4095
}

/// What a multi-scalar sum makes of the digits of `n` scalars and what the device leaves for
/// their buckets: nothing where a digit has no bucket.
pub open spec fn digits_summed<B: Backend, F: Group>(
    device: B,
    points: B::Buf,
    n: int,
    digits: Seq<u32>,
    r: Option<Jacobian<F>>,
) -> bool {
    match r {
        None => !in_buckets(digits),
        Some(p) => in_buckets(digits) && exists|order: Seq<u32>, starts: Seq<u32>| #[trigger]
            pipeline::windows_sorted(digits, n, 4095, order, starts) && if order.len() == 0 {
                p == Jacobian::<F>::infinity_spec()
            } else {
                exists|levels: Seq<Seq<u32>>, after: Seq<u8>|
                    plan::plan_of(levels, starts, 64) && #[trigger] plan_left::<B, F>(
                        device,
                        points,
                        order,
                        levels,
                        levels.len() as int,
                        after,
                    ) && reduced_to(F::sums_of(after), p)
            },
    }
}

/// What a multi-scalar sum may come to on a device.
#[verifier::opaque]
pub open spec fn sum_left<B: Backend, F: Group>(
    device: B,
    points: B::Buf,
    scalars: Seq<Fr>,
    r: Option<Jacobian<F>>,
) -> bool {
    exists|c: B::Buf, after: Seq<u8>|
        c.contents() == pack::packed_canonical(scalars) && after.len() == 88 * scalars.len()
            && #[trigger] device.left(
            Call::DigitsAll { scalars: &c, count: scalars.len() as u32, w: 12 },
            22 * scalars.len() as int,
            after,
        ) && digits_summed(
            device,
            points,
            scalars.len() as int,
            pack::unpacked_u32(after),
            r,
        )
}

/// What a multi-scalar sum over uploaded G1 points may come to on a device.
#[verifier::opaque]
pub open spec fn g1_left<B: Backend>(
    device: B,
    points: Seq<Affine<Fp>>,
    scalars: Seq<Fr>,
    r: Option<Jacobian<Fp>>,
) -> bool {
    exists|pb: B::Buf|
        pb.contents() == pack::packed_g1(points) && #[trigger] sum_left(device, pb, scalars, r)
}

/// What a multi-scalar sum over uploaded G2 points may come to on a device.
#[verifier::opaque]
pub open spec fn g2_left<B: Backend>(
    device: B,
    points: Seq<Affine<Fp2>>,
    scalars: Seq<Fr>,
    r: Option<Jacobian<Fp2>>,
) -> bool {
    exists|pb: B::Buf|
        pb.contents() == pack::packed_g2(points) && #[trigger] sum_left(device, pb, scalars, r)
}

/// What one matrix's polynomial on a domain of size `n` may come to on a device, for the packed
/// coefficients, group starts and witness.
#[verifier::opaque]
pub open spec fn scatter_left<B: Backend>(
    device: B,
    coeffs: Seq<u8>,
    starts: Seq<u8>,
    witness: Seq<u8>,
    constraints: Seq<u32>,
    n: nat,
    poly: Seq<Fr>,
) -> bool {
    exists|c: B::Buf, s: B::Buf, w: B::Buf, after: Seq<u8>|
        c.contents() == coeffs && s.contents() == starts && w.contents() == witness && after.len()
            == 32 * constraints.len() && #[trigger] device.left(
            Call::ScatterGroup { coeffs: &c, starts: &s, witness: &w },
            constraints.len() as int,
            after,
        ) && poly == pipeline::placed(constraints, pack::unpacked_fr(after), n)
}

/// What the quotient's coset evaluations may come to on a device, for the values of `A` and `B`.
#[verifier::opaque]
pub open spec fn quotient_left<B: Backend>(
    device: B,
    t: Tables,
    a: Seq<Fr>,
    b: Seq<Fr>,
    quotient: Seq<Fr>,
) -> bool {
    let n = a.len() as int;
    exists|
        av: B::Buf,
        bv: B::Buf,
        products: Seq<u8>,
        ac: B::Buf,
        bc: B::Buf,
        cc: B::Buf,
        after: Seq<u8>,
    |
        av.contents() == pack::packed_fr(a) && bv.contents() == pack::packed_fr(b)
            && #[trigger] device.left(Call::PointwiseMul { a: &av, b: &bv }, n, products)
            && coset_left(device, t, n, av.contents(), ac.contents()) && coset_left(
            device,
            t,
            n,
            bv.contents(),
            bc.contents(),
        ) && coset_left(device, t, n, products, cc.contents()) && #[trigger] device.left(
            Call::PointwiseMulSub { a: &ac, b: &bc, c: &cc },
            n,
            after,
        ) && after.len() == 32 * n && quotient == pack::unpacked_fr(after)
}

/// Why a proof on a device that may be wrong was not made.
#[derive(Debug)]
pub enum Fault {
    /// The witness is not one of the key's.
    Prove(ProveError),
    /// The device left a digit that has no bucket.
    Digit,
}

impl Fault {
    /// The message.
    pub open spec fn text(self) -> Seq<char> {
        match self {
            Fault::Prove(e) => e.text(),
            Fault::Digit => "a digit has no bucket"@,
        }
    }

    /// The message.
    pub fn message(&self) -> (r: String)
        ensures
            r@ == self.text(),
    {
        match self {
            Fault::Prove(e) => e.message(),
            Fault::Digit => text::owned("a digit has no bucket"),
        }
    }
}

/// What assembly makes of the five sums that a device may come to. Nothing is said of a proof
/// from sums that are not on their curves.
pub open spec fn assembled_left<B: Backend>(
    device: B,
    zkey: Zkey,
    quotient: Seq<Fr>,
    witness: Seq<Fr>,
    r: Fr,
    s: Fr,
    result: Result<Proof, Fault>,
) -> bool {
    let private = witness.subrange(zkey.num_public + 1, witness.len() as int);
    exists|
        h: Option<Jacobian<Fp>>,
        a: Option<Jacobian<Fp>>,
        b1: Option<Jacobian<Fp>>,
        b2: Option<Jacobian<Fp2>>,
        c: Option<Jacobian<Fp>>,
    |
        #[trigger] g1_left(device, zkey.h@, quotient, h) && #[trigger] g1_left(
            device,
            zkey.a@,
            witness,
            a,
        ) && #[trigger] g1_left(device, zkey.b1@, witness, b1) && #[trigger] g2_left(
            device,
            zkey.b2@,
            witness,
            b2,
        ) && #[trigger] g1_left(device, zkey.c@, private, c) && if h is Some && a is Some
            && b1 is Some && b2 is Some && c is Some {
            let msms = Msms { h: h->0, a: a->0, b1: b1->0, b2: b2->0, c: c->0 };
            result is Ok && (prover::key_points(zkey.vk) && msms.on_curves() ==> result->Ok_0
                == prover::assembled(
                zkey.vk,
                msms.h.pt(),
                msms.a.pt(),
                msms.b1.pt(),
                msms.b2.pt(),
                msms.c.pt(),
                r,
                s,
            ))
        } else {
            result == Err::<Proof, Fault>(Fault::Digit)
        }
}

/// What a proof may come to on a device.
#[verifier::opaque]
pub open spec fn proof_left<B: Backend>(
    device: B,
    zkey: Zkey,
    groups: CoefficientGroups,
    witness: Seq<Fr>,
    r: Fr,
    s: Fr,
    result: Result<Proof, Fault>,
) -> bool {
    let n = zkey.domain_size as nat;
    let packed = pack::packed_fr(witness);
    if witness.len() != zkey.num_vars {
        result == Err::<Proof, Fault>(
            Fault::Prove(
                ProveError::WitnessLength {
                    expected: zkey.num_vars,
                    found: witness.len() as usize,
                },
            ),
        )
    } else if witness[0] != Fr::one_spec() {
        result == Err::<Proof, Fault>(Fault::Prove(ProveError::WitnessConstant))
    } else {
        exists|t: Tables, a: Seq<Fr>, b: Seq<Fr>, quotient: Seq<Fr>|
            t.of_size(n) && scatter_left(
                device,
                pack::packed_coeffs(groups.a@),
                pack::packed_u32(groups.a_starts@),
                packed,
                groups.a_constraint@,
                n,
                a,
            ) && scatter_left(
                device,
                pack::packed_coeffs(groups.b@),
                pack::packed_u32(groups.b_starts@),
                packed,
                groups.b_constraint@,
                n,
                b,
            ) && #[trigger] quotient_left(device, t, a, b, quotient) && assembled_left(
                device,
                zkey,
                quotient,
                witness,
                r,
                s,
                result,
            )
    }
}

// ---- the launches of a proof -------------------------------------------------------------------

impl<B: Backend> Prover<B> {
    /// The backend.
    pub closed spec fn device(self) -> B {
        self.backend
    }

    /// A prover over `backend`.
    pub fn with_backend(backend: B) -> (r: Self)
        ensures
            r.device() == backend,
    {
        Self { backend }
    }

    /// The backend.
    pub fn backend(&self) -> (r: &B)
        ensures
            *r == self.device(),
    {
        &self.backend
    }

    /// Run one launch of the schedule.
    fn run_step(
        &self,
        step: &Step,
        src: &B::Buf,
        dst: &mut B::Buf,
        n: usize,
        tb: &TransformBuffers<B::Buf>,
        Ghost(t): Ghost<Tables>,
    )
        requires
            tb.hold(t),
            elements(*src).len() == n,
            old(dst).contents().len() == 32 * n,
            pipeline::step_fits(*step, n as int, t),
        ensures
            final(dst).contents().len() == 32 * n,
            self.backend.left(step_call(*step, src, tb), n as int, final(dst).contents()),
            right(self.backend) ==> elements(*final(dst)) == pipeline::step_output(
                *step,
                elements(*src),
                t,
            ),
    {
        proof {
            pack::lemma_fr_round_trip(t.forward@);
            pack::lemma_fr_round_trip(t.inverse@);
            pack::lemma_fr_round_trip(t.shift_powers@);
        }
        match *step {
            Step::BitReverse { .. } => {
                self.backend.run(&Call::BitReverse { a: src, lg_n: tb.lg_n }, n, dst);
            },
            Step::NttStage { len, stride, twiddles, .. } => {
                let tw = match twiddles {
                    Twiddles::Inverse => &tb.inverse,
                    Twiddles::Forward => &tb.forward,
                };
                assert(elements(*tw) == pipeline::table(t, twiddles));
                self.backend.run(&Call::NttStage { a: src, len, twiddles: tw, stride }, n, dst);
            },
            Step::Scale { .. } => {
                self.backend.run(
                    &Call::PointwiseScale { a: src, k: &tb.shift, factor: tb.n_inv },
                    n,
                    dst,
                );
            },
        }
        proof {
            if right(self.backend) {
                lemma_right(self.backend, step_call(*step, src, tb), n as int, dst.contents());
                assert(elements(*dst) =~= pipeline::step_output(*step, elements(*src), t));
            }
        }
    }

    /// The coset transform, executing [`crate::schedule::coset`] over the two
    /// buffers: the schedule names the buffer each launch reads and writes, and
    /// the one holding the result.
    fn h_to_coset(
        &self,
        evals: B::Buf,
        scratch: B::Buf,
        n: usize,
        tb: &TransformBuffers<B::Buf>,
        Ghost(t): Ghost<Tables>,
    ) -> (r: B::Buf)
        requires
            n >= 2,
            prover::provable_domain(n as nat),
            t.of_size(n as nat),
            tb.hold(t),
            evals.contents().len() == 32 * n,
            scratch.contents().len() == 32 * n,
        ensures
            r.contents().len() == 32 * n,
            coset_left(self.device(), t, n as int, evals.contents(), r.contents()),
            right(self.device()) && dft::all_wf(elements(evals)) ==> elements(r) == ntt::on_coset(
                elements(evals),
                prover::coset_shift(n as nat),
            ) && dft::all_wf(elements(r)),
    {
        let ghost s = elements(evals);
        let ghost from = evals.contents();
        let mut a = evals;
        let mut b = scratch;
        proof {
            ntt::lemma_domain(n as nat);
            lemma2_to64();
        }
        let sched = schedule::coset(n as u32);
        let ghost lg = ntt::lg(n as nat) as int;
        let ghost steps = sched.steps@;
        let mut k: usize = 0;
        while k < sched.steps.len()
            invariant
                k <= steps.len(),
                n >= 2,
                n == s.len(),
                lg == ntt::lg(n as nat),
                lg >= 1,
                steps == sched.steps@,
                steps == schedule::coset_steps(lg),
                prover::provable_domain(n as nat),
                t.of_size(n as nat),
                tb.hold(t),
                a.contents().len() == 32 * n,
                b.contents().len() == 32 * n,
                steps_left(
                    self.backend,
                    t,
                    steps,
                    k as int,
                    n as int,
                    from,
                    (if k == 0 || steps[k - 1].writes() == Buf::A {
                        a
                    } else {
                        b
                    }).contents(),
                ),
                right(self.backend) ==> elements(
                    if k == 0 || steps[k - 1].writes() == Buf::A {
                        a
                    } else {
                        b
                    },
                ) == pipeline::run(steps, k as int, s, t),
            decreases steps.len() - k,
        {
            let step = sched.steps[k];
            proof {
                schedule::lemma_schedule_live(lg, k as int);
                pipeline::lemma_step_fits(n as nat, t, k as int);
            }
            match step.src() {
                Buf::A => self.run_step(&step, &a, &mut b, n, tb, Ghost(t)),
                Buf::B => self.run_step(&step, &b, &mut a, n, tb, Ghost(t)),
            }
            k = k + 1;
        }
        proof {
            schedule::lemma_schedule_live(lg, steps.len() - 1);
            if right(self.backend) && dft::all_wf(s) {
                pipeline::lemma_run_coset(s, t);
            }
        }
        match sched.result {
            Buf::A => a,
            Buf::B => b,
        }
    }

    /// Run a plan: one bucket-sum launch over the first level's pieces, one sum
    /// launch per level above it.
    fn planned_sums<F: Group>(&self, points: &B::Buf, order: &Vec<u32>, levels: &Vec<Vec<u32>>) -> (
        sums: Vec<Jacobian<F>>)
        requires
            levels_addressable(plan::views(levels@), F::sum_size()),
            pipeline::chained(plan::views(levels@), order@.len() as int),
            indices_fit(order@, F::points_of(points.contents()).len() as int),
        ensures
            sums@.len() == plan::views(levels@).last().len() - 1,
            exists|after: Seq<u8>|
                #[trigger] plan_left::<B, F>(
                    self.device(),
                    *points,
                    order@,
                    plan::views(levels@),
                    levels@.len() as int,
                    after,
                ) && sums@ == F::sums_of(after),
            right(self.device()) && (forall|i: int|
                0 <= i < F::points_of(points.contents()).len() ==> (#[trigger] F::points_of(
                    points.contents(),
                )[i]).wf()) ==> {
                &&& forall|i: int| 0 <= i < sums@.len() ==> (#[trigger] sums@[i]).wf()
                &&& reference::jacobian_pts(sums@) == plan::plan_sums(
                    pipeline::points_at(
                        reference::pts(F::points_of(points.contents())),
                        order@,
                    ),
                    plan::views(levels@),
                )
            },
    {
        let ghost views = plan::views(levels@);
        let ghost ps = F::points_of(points.contents());
        let ghost wf = right(self.backend) && forall|i: int|
            0 <= i < ps.len() ==> (#[trigger] ps[i]).wf();
        let ghost entries = pipeline::points_at(reference::pts(ps), order@);
        let size = F::sum_bytes();
        let order_b = self.backend.upload(&pack::pack_u32(order));
        let first = &levels[0];
        assert(plan::ranges(views[0]));
        let mut len = first.len() - 1;
        proof {
            lemma_mul_is_commutative(len as int, size as int);
            assert(views[0] == first@);
        }
        let mut sums = self.backend.allocate(len * size);
        let starts_b = self.backend.upload(&pack::pack_u32(first));
        proof {
            pack::lemma_u32_round_trip(order@);
            pack::lemma_u32_round_trip(first@);
            lemma_ranges_fit(first@, order@.len() as int);
        }
        F::bucket_sum(&self.backend, points, &order_b, &starts_b, len, &mut sums);
        proof {
            F::lemma_sums_len(sums.contents(), len as int);
            lemma_plan_first::<B, F>(
                self.backend,
                *points,
                order@,
                views,
                order_b,
                starts_b,
                sums.contents(),
            );
            if wf {
                let got = F::sums_of(sums.contents());
                assert forall|i: int| 0 <= i < len implies (#[trigger] got[i]).pt()
                    == plan::level_sums(entries, views[0])[i] by {
                    assert(first@[i] <= first@[i + 1]);
                    assert(first@[i + 1] <= first@[first@.len() - 1]);
                    assert(kernels::named_points(
                        ps,
                        order@,
                        first@[i] as int,
                        first@[i + 1] as int,
                    ) =~= entries.subrange(first@[i] as int, first@[i + 1] as int));
                }
                assert(views.take(1).drop_last() =~= Seq::empty());
                assert(views.take(1).last() == views[0]);
                assert(plan::plan_sums(entries, views.take(1).drop_last()) == entries);
                assert(reference::jacobian_pts(got) =~= plan::plan_sums(entries, views.take(1)));
            }
        }
        let mut k: usize = 1;
        while k < levels.len()
            invariant
                1 <= k <= levels@.len(),
                levels_addressable(views, size as int),
                views == plan::views(levels@),
                pipeline::chained(views, order@.len() as int),
                size == F::sum_size(),
                96 <= size <= 192,
                wf ==> right(self.backend) && forall|i: int|
                    0 <= i < ps.len() ==> (#[trigger] ps[i]).wf(),
                len == views[k - 1].len() - 1,
                plan_left::<B, F>(
                    self.backend,
                    *points,
                    order@,
                    views,
                    k as int,
                    sums.contents(),
                ),
                sums.contents().len() == size * len,
                len * size <= usize::MAX,
                F::sums_of(sums.contents()).len() == len,
                wf ==> (forall|i: int|
                    0 <= i < len ==> (#[trigger] F::sums_of(sums.contents())[i]).wf()),
                wf ==> reference::jacobian_pts(F::sums_of(sums.contents())) == plan::plan_sums(
                    entries,
                    views.take(k as int),
                ),
            decreases levels@.len() - k,
        {
            let level = &levels[k];
            assert(plan::ranges(views[k as int]));
            let ghost below = F::sums_of(sums.contents());
            let next_len = level.len() - 1;
            proof {
                lemma_mul_is_commutative(next_len as int, size as int);
                assert(views[k as int] == level@);
            }
            let starts_b = self.backend.upload(&pack::pack_u32(level));
            let mut next = self.backend.allocate(next_len * size);
            proof {
                pack::lemma_u32_round_trip(level@);
                assert(views[k as int].last() == views[k - 1].len() - 1);
                lemma_ranges_fit(level@, below.len() as int);
            }
            F::jacobian_sum(&self.backend, &sums, &starts_b, next_len, &mut next);
            proof {
                F::lemma_sums_len(next.contents(), next_len as int);
                lemma_plan_next::<B, F>(
                    self.backend,
                    *points,
                    order@,
                    views,
                    k as int,
                    sums,
                    starts_b,
                    next.contents(),
                );
                if wf {
                    let prev = reference::jacobian_pts(below);
                    let got = F::sums_of(next.contents());
                    assert forall|i: int| 0 <= i < below.len() implies (#[trigger] below[i]).wf() by {}
                    assert forall|i: int| 0 <= i < next_len implies (#[trigger] got[i]).pt()
                        == plan::level_sums(prev, views[k as int])[i] by {}
                    assert(views.take(k + 1).drop_last() =~= views.take(k as int));
                    assert(views.take(k + 1).last() == views[k as int]);
                    assert(reference::jacobian_pts(got) =~= plan::plan_sums(
                        entries,
                        views.take(k + 1),
                    ));
                }
            }
            sums = next;
            len = next_len;
            k = k + 1;
        }
        proof {
            lemma_mul_is_commutative(len as int, size as int);
            assert(views.take(k as int) =~= views);
            assert(sums.contents().take(len * size) =~= sums.contents());
            assert(plan_left::<B, F>(
                self.device(),
                *points,
                order@,
                plan::views(levels@),
                levels@.len() as int,
                sums.contents(),
            ));
        }
        F::unpack_sums(&self.backend.read(&sums, len * size))
    }

    /// One MSM over every window at once: one `digits_all` launch, the host
    /// sort, one `bucket_sum` launch over pieces of at most [`CHUNK`] points,
    /// then the levels of `jacobian_sum` the plan needs until there is one sum
    /// per `(window, bucket)`, then the reduction and Horner on the host. No
    /// thread adds a long chain.
    pub fn msm<F: Group>(&self, points: &B::Buf, scalars: &[Fr]) -> (r: Jacobian<F>)
        requires
            right(self.device()),
            sum_addressable(scalars@.len() as int),
            F::points_of(points.contents()).len() == scalars@.len(),
            scalars@.len() > 0,
            pipeline::countable(scalars@.len() as int),
        ensures
            reference::curve_points(F::points_of(points.contents())) ==> r.wf() && r.pt()
                == group::weighted(
                reference::pts(F::points_of(points.contents())),
                reference::vals(scalars@),
            ),
    {
        self.sum::<F>(points, scalars).unwrap()
    }

    /// [`Self::msm`] on a device that may be wrong: a digit that it leaves may
    /// have no bucket, and there is no sum then.
    pub fn sum<F: Group>(&self, points: &B::Buf, scalars: &[Fr]) -> (r: Option<Jacobian<F>>)
        requires
            sum_addressable(scalars@.len() as int),
            F::points_of(points.contents()).len() == scalars@.len(),
            scalars@.len() > 0,
            pipeline::countable(scalars@.len() as int),
        ensures
            sum_left(self.device(), *points, scalars@, r),
            right(self.device()) ==> r is Some && (reference::curve_points(
                F::points_of(points.contents()),
            ) ==> r->0.wf() && r->0.pt() == group::weighted(
                reference::pts(F::points_of(points.contents())),
                reference::vals(scalars@),
            )),
    {
        let n = scalars.len();
        let ghost device = self.backend;
        proof {
            reveal(sum_left);
        }
        let w = WINDOW_BITS;
        let windows: usize = 22;
        let total = windows * n;
        let canonical = self.backend.upload(&pack::pack_canonical(scalars));
        let ghost cs = self::scalars(canonical);
        proof {
            pack::lemma_canonical_round_trip(scalars@);
        }
        let mut digits_b = self.backend.allocate(total * 4);
        self.backend.run(
            &Call::DigitsAll { scalars: &canonical, count: n as u32, w },
            total,
            &mut digits_b,
        );
        let digits = pack::unpack_u32(&self.backend.read(&digits_b, total * 4));
        proof {
            assert(digits_b.contents().take(total * 4) =~= digits_b.contents());
            assert(device.left(
                Call::DigitsAll { scalars: &canonical, count: scalars@.len() as u32, w: 12 },
                22 * scalars@.len() as int,
                digits_b.contents(),
            ));
            if right(device) {
                lemma_right(
                    device,
                    Call::DigitsAll { scalars: &canonical, count: n as u32, w },
                    total as int,
                    digits_b.contents(),
                );
                assert(digits@ =~= pipeline::all_digits_of(cs, 12, 22));
            }
        }
        self.summed_digits::<F>(points, scalars, &digits, Ghost(cs))
    }

    /// The sum of the digits that a device left.
    fn summed_digits<F: Group>(
        &self,
        points: &B::Buf,
        scalars: &[Fr],
        digits: &Vec<u32>,
        Ghost(cs): Ghost<Seq<[u64; 4]>>,
    ) -> (r: Option<Jacobian<F>>)
        requires
            sum_addressable(scalars@.len() as int),
            F::points_of(points.contents()).len() == scalars@.len(),
            scalars@.len() > 0,
            pipeline::countable(scalars@.len() as int),
            digits@.len() == 22 * scalars@.len(),
            cs.len() == scalars@.len(),
            forall|i: int|
                0 <= i < cs.len() ==> limbs::value(#[trigger] cs[i]) == scalars@[i].val(),
            right(self.device()) ==> digits@ == pipeline::all_digits_of(cs, 12, 22),
        ensures
            digits_summed(self.device(), *points, scalars@.len() as int, digits@, r),
            right(self.device()) ==> r is Some && (reference::curve_points(
                F::points_of(points.contents()),
            ) ==> r->0.wf() && r->0.pt() == group::weighted(
                reference::pts(F::points_of(points.contents())),
                reference::vals(scalars@),
            )),
    {
        let n = scalars.len();
        let ghost ps = F::points_of(points.contents());
        let ghost device = self.backend;
        let w = WINDOW_BITS;
        let buckets: usize = 4095;
        proof {
            if right(device) {
                pipeline::lemma_all_digits_bound(cs);
            }
        }
        if !all_in_buckets(digits) {
            return None;
        }
        proof {
            lemma_fundamental_div_mod_converse(22 * n as int, n as int, 22, 0);
        }
        let (order, starts) = sort_all_windows(digits, n, buckets);
        proof {
            pipeline::lemma_digits_layout(digits@, n as int, order@, starts@);
        }
        let levels = plan_ranges(&starts, CHUNK);
        let ghost views = plan::views(levels@);
        if order.len() == 0 {
            proof {
                if right(device) && reference::curve_points(ps) {
                    let b = choose|b: F| #[trigger] reference::on_curve(ps, b);
                    pipeline::lemma_msm_empty(ps, scalars@, cs, order@, starts@, b);
                }
            }
            let r = Some(Jacobian::<F>::infinity());
            assert(digits_summed(device, *points, n as int, digits@, r));
            return r;
        }
        proof {
            pipeline::lemma_plan_chained(views, starts@, 64, order@.len() as int);
            F::lemma_sum_size();
            lemma_levels_addressable(views, starts@, n as int, F::sum_size());
        }
        let sums = self.planned_sums::<F>(points, &order, &levels);
        let window_sums = reduce_all_windows(&sums, buckets);
        let r = horner(&window_sums, w);
        proof {
            if exists|b: F| #[trigger] reference::jacobians_on_curve(sums@, b) {
                let b = choose|b: F| #[trigger] reference::jacobians_on_curve(sums@, b);
                lemma_reduced(sums@, window_sums@, b);
            }
            assert(reduced_to(sums@, r));
            let after = choose|after: Seq<u8>|
                #[trigger] plan_left::<B, F>(
                    device,
                    *points,
                    order@,
                    views,
                    levels@.len() as int,
                    after,
                ) && sums@ == F::sums_of(after);
            assert(plan_left::<B, F>(
                device,
                *points,
                order@,
                views,
                views.len() as int,
                after,
            ));
            assert(digits_summed(device, *points, n as int, digits@, Some(r)));
            if right(device) && reference::curve_points(ps) {
                let b = choose|b: F| #[trigger] reference::on_curve(ps, b);
                pipeline::lemma_msm_pt(
                    ps,
                    scalars@,
                    cs,
                    order@,
                    starts@,
                    views,
                    sums@,
                    window_sums@,
                    b,
                );
            }
        }
        Some(r)
    }
}

/// Whether every digit has twelve bits.
pub(crate) fn all_in_buckets(digits: &[u32]) -> (r: bool)
    ensures
        r == in_buckets(digits@),
{
    let n = digits.len();
    let mut i: usize = 0;
    while i < n
        invariant
            i <= n,
            n == digits@.len(),
            forall|j: int| 0 <= j < i ==> #[trigger] digits@[j] <= 4095,
        decreases n - i,
    {
        if digits[i] > 4095 {
            assert(digits@[i as int] > 4095);
            return false;
        }
        i = i + 1;
    }
    true
}

/// The windows' totals are on the curve that the bucket sums are on.
pub(crate) proof fn lemma_reduced<F: Field>(sums: Seq<Jacobian<F>>, totals: Seq<Jacobian<F>>, b: F)
    requires
        reference::jacobians_on_curve(sums, b),
        sums.len() == 90090,
        totals.len() == 22,
        forall|w: int|
            0 <= w < 22 ==> (#[trigger] totals[w]).wf() && totals[w].pt() == group::counted(
                reference::jacobian_pts(sums).subrange(w * 4095, w * 4095 + 4095),
            ),
    ensures
        reference::jacobians_on_curve(totals, b),
        reference::jacobian_pts(totals) == Seq::new(
            22,
            |w: int|
                group::counted(
                    reference::jacobian_pts(sums).subrange(w * 4095, w * 4095 + 4095),
                ),
        ),
{
    let t = reference::jacobian_pts(sums);
    assert forall|w: int| 0 <= w < totals.len() implies (#[trigger] totals[w]).wf()
        && totals[w].pt().on(b) by {
        let part = t.subrange(w * 4095, w * 4095 + 4095);
        assert forall|i: int| 0 <= i < part.len() implies (#[trigger] part[i]).on(b) by {
            assert(sums[w * 4095 + i].pt().on(b));
        }
        group::lemma_weighted_on(part, group::counting(part.len()), b);
    }
    assert(reference::jacobian_pts(totals) =~= Seq::new(
        22,
        |w: int|
            group::counted(t.subrange(w * 4095, w * 4095 + 4095)),
    ));
}

/// Ranges that end at a length are ranges of a sequence of that length.
proof fn lemma_ranges_fit(starts: Seq<u32>, len: int)
    requires
        plan::ranges(starts),
        starts.len() > 0,
        starts.last() == len,
    ensures
        ranges_fit(starts, starts.len() - 1, len),
{
    assert forall|b: int| 0 <= b < starts.len() - 1 implies #[trigger] kernels::range_fits(
        starts,
        b,
        len,
    ) by {
        assert(starts[b] <= starts[b + 1]);
        assert(starts[b + 1] <= starts[starts.len() - 1]);
    }
}

/// The bytes of the sums of every level are counted by a `usize`, at this size of a sum.
spec fn levels_addressable(levels: Seq<Seq<u32>>, size: int) -> bool {
    forall|k: int|
        0 <= k < levels.len() ==> size * ((#[trigger] levels[k]).len() - 1) <= usize::MAX
}

/// The levels of a sum over `n` points are so.
proof fn lemma_levels_addressable(levels: Seq<Seq<u32>>, starts: Seq<u32>, n: int, size: int)
    requires
        sum_addressable(n),
        plan::ranges(starts),
        plan::indexable(starts, 64),
        plan::plan_of(levels, starts, 64),
        starts.len() == 90091,
        starts.last() <= 22 * n,
        0 <= size <= 192,
    ensures
        levels_addressable(levels, size),
{
    plan::lemma_piece_index_chunks(starts, 64, 90090);
    assert forall|k: int| 0 <= k < levels.len() implies size * ((#[trigger] levels[k]).len() - 1)
        <= usize::MAX by {
        plan::lemma_plan_bounded(levels, starts, 64, k);
        let pieces = plan::piece_index(starts, 64, 90090);
        assert(levels[0].len() == pieces + 1);
        lemma_mul_inequality(levels[k].len() - 1, pieces, size);
        lemma_mul_inequality(size, 192, pieces);
        lemma_mul_is_commutative(size, pieces);
        lemma_mul_is_commutative(size, levels[k].len() - 1);
    }
}

// ---- a key on the device -----------------------------------------------------------------------

/// A zkey uploaded once and kept on the device across proofs: the five point
/// sets, the grouped coefficients with their group starts, the transform
/// tables. The host keeps only what assembly and the scatter placement need.
pub struct ResidentZkey<B: Backend> {
    meta: Zkey,
    a_constraint: Vec<u32>,
    b_constraint: Vec<u32>,
    ca: B::Buf,
    sa: B::Buf,
    cb: B::Buf,
    sb: B::Buf,
    tb: TransformBuffers<B::Buf>,
    pa: B::Buf,
    pb1: B::Buf,
    pc: B::Buf,
    ph: B::Buf,
    pb2: B::Buf,
    key: Ghost<Zkey>,
    groups: Ghost<CoefficientGroups>,
    tables: Ghost<Tables>,
}

/// The key and the groups of its coefficients fit this pipeline.
pub open spec fn preparable(zkey: Zkey, groups: CoefficientGroups) -> bool {
    &&& pipeline::launchable(zkey)
    &&& addressable(zkey, groups.a_constraint@.len() as int)
    &&& addressable(zkey, groups.b_constraint@.len() as int)
    &&& pipeline::scatterable(
        groups.a@,
        groups.a_starts@,
        groups.a_constraint@,
        zkey.num_vars as int,
        zkey.domain_size as int,
    )
    &&& pipeline::scatterable(
        groups.b@,
        groups.b_starts@,
        groups.b_constraint@,
        zkey.num_vars as int,
        zkey.domain_size as int,
    )
}

impl<B: Backend> ResidentZkey<B> {
    /// The key that was uploaded.
    pub closed spec fn zkey(self) -> Zkey {
        self.key@
    }

    /// The groups of its coefficients.
    pub closed spec fn groups(self) -> CoefficientGroups {
        self.groups@
    }

    /// The bytes that the buffers occupy.
    pub closed spec fn held(self) -> nat {
        self.ca.size() + self.sa.size() + self.cb.size() + self.sb.size() + self.tb.forward.size()
            + self.tb.inverse.size() + self.tb.shift.size() + self.pa.size() + self.pb1.size()
            + self.pc.size() + self.ph.size() + self.pb2.size()
    }

    /// The buffers hold the key, its groups and its tables.
    pub closed spec fn wf(self) -> bool {
        let key = self.key@;
        let groups = self.groups@;
        &&& preparable(key, groups)
        &&& self.tables@.of_size(key.domain_size as nat)
        &&& self.tb.hold(self.tables@)
        &&& self.meta.num_vars == key.num_vars
        &&& self.meta.num_public == key.num_public
        &&& self.meta.domain_size == key.domain_size
        &&& self.meta.vk == key.vk
        &&& self.a_constraint@ == groups.a_constraint@
        &&& self.b_constraint@ == groups.b_constraint@
        &&& self.ca.contents() == pack::packed_coeffs(groups.a@)
        &&& self.sa.contents() == pack::packed_u32(groups.a_starts@)
        &&& self.cb.contents() == pack::packed_coeffs(groups.b@)
        &&& self.sb.contents() == pack::packed_u32(groups.b_starts@)
        &&& self.pa.contents() == pack::packed_g1(key.a@)
        &&& self.pb1.contents() == pack::packed_g1(key.b1@)
        &&& self.pc.contents() == pack::packed_g1(key.c@)
        &&& self.ph.contents() == pack::packed_g1(key.h@)
        &&& self.pb2.contents() == pack::packed_g2(key.b2@)
    }

    /// The key has fewer public inputs than variables.
    pub proof fn lemma_public(self)
        requires
            self.wf(),
        ensures
            self.zkey().num_public < self.zkey().num_vars,
    {
    }

    /// The circuit's variable count.
    pub fn num_vars(&self) -> (r: usize)
        requires
            self.wf(),
        ensures
            r == self.zkey().num_vars,
    {
        self.meta.num_vars
    }

    /// The circuit's public input count.
    pub fn num_public(&self) -> (r: usize)
        requires
            self.wf(),
        ensures
            r == self.zkey().num_public,
    {
        self.meta.num_public
    }
}

/// With 64-bit sizes, a key that the kernels can be launched for is preparable with the groups of
/// its own coefficients.
pub proof fn lemma_key_is_preparable(zkey: Zkey, groups: CoefficientGroups)
    requires
        usize::MAX >= 0xffff_ffff_ffff_ffff,
        pipeline::launchable(zkey),
        groups.of_key(zkey),
        groups.a_constraint@.len() <= u32::MAX,
        groups.b_constraint@.len() <= u32::MAX,
    ensures
        preparable(zkey, groups),
{
    lemma_launchable_is_addressable(zkey, groups.a_constraint@.len() as int);
    lemma_launchable_is_addressable(zkey, groups.b_constraint@.len() as int);
    pipeline::lemma_key_scatterable(zkey, true, groups.a_starts@, groups.a_constraint@);
    pipeline::lemma_key_scatterable(zkey, false, groups.b_starts@, groups.b_constraint@);
}

/// Where each buffer of a key has sixteen bytes at least, the key occupies on a device what its
/// records come to: 48 bytes for a coefficient, 4 for a start, 32 for an element of the tables,
/// 64 for a point in G1 and 128 for one in G2.
pub proof fn lemma_resident_is_the_records(zkey: Zkey, groups: CoefficientGroups, tables: Tables)
    requires
        tables.of_size(zkey.domain_size as nat),
        groups.a@.len() > 0,
        groups.b@.len() > 0,
        groups.a_starts@.len() >= 4,
        groups.b_starts@.len() >= 4,
        tables.forward@.len() > 0,
        tables.inverse@.len() > 0,
        tables.shift_powers@.len() > 0,
        zkey.a@.len() > 0,
        zkey.b1@.len() > 0,
        zkey.b2@.len() > 0,
        zkey.c@.len() > 0,
        zkey.h@.len() > 0,
    ensures
        resident_size(zkey, groups) == 48 * (groups.a@.len() + groups.b@.len()) + 4 * (
        groups.a_starts@.len() + groups.b_starts@.len()) + 32 * (tables.forward@.len()
            + tables.inverse@.len() + tables.shift_powers@.len()) + 64 * (zkey.a@.len()
            + zkey.b1@.len() + zkey.c@.len() + zkey.h@.len()) + 128 * zkey.b2@.len(),
{
    lemma_whole(48 * groups.a@.len());
    lemma_whole(48 * groups.b@.len());
    lemma_whole(4 * groups.a_starts@.len());
    lemma_whole(4 * groups.b_starts@.len());
    lemma_whole(64 * zkey.a@.len());
    lemma_whole(64 * zkey.b1@.len());
    lemma_whole(64 * zkey.c@.len());
    lemma_whole(64 * zkey.h@.len());
    lemma_whole(128 * zkey.b2@.len());
    lemma_whole(32 * (zkey.domain_size as nat / 2));
    lemma_whole(32 * (zkey.domain_size as nat));
}

proof fn lemma_whole(bytes: nat)
    requires
        bytes >= 16,
    ensures
        occupied(bytes) == bytes,
{
}

/// The bytes that a key occupies on a device.
pub open spec fn resident_size(zkey: Zkey, groups: CoefficientGroups) -> nat {
    let n = zkey.domain_size as nat;
    occupied(48 * groups.a@.len()) + occupied(4 * groups.a_starts@.len()) + occupied(
        48 * groups.b@.len(),
    ) + occupied(4 * groups.b_starts@.len()) + 2 * occupied(32 * (n / 2)) + occupied(32 * n)
        + occupied(64 * zkey.a@.len()) + occupied(64 * zkey.b1@.len()) + occupied(
        64 * zkey.c@.len(),
    ) + occupied(64 * zkey.h@.len()) + occupied(128 * zkey.b2@.len())
}

/// The zkey without its point and coefficient vectors: what `assemble` and
/// the size checks read.
pub(crate) fn strip(zkey: &Zkey) -> (r: Zkey)
    ensures
        r.num_vars == zkey.num_vars,
        r.num_public == zkey.num_public,
        r.domain_size == zkey.domain_size,
        r.vk == zkey.vk,
        r.ic@ == zkey.ic@,
        r.coefficients@.len() == 0,
        r.a@.len() == 0 && r.b1@.len() == 0 && r.b2@.len() == 0,
        r.c@.len() == 0 && r.h@.len() == 0,
{
    let vk = VerifyingKey {
        alpha_g1: zkey.vk.alpha_g1,
        beta_g1: zkey.vk.beta_g1,
        beta_g2: zkey.vk.beta_g2,
        gamma_g2: zkey.vk.gamma_g2,
        delta_g1: zkey.vk.delta_g1,
        delta_g2: zkey.vk.delta_g2,
    };
    Zkey {
        num_vars: zkey.num_vars,
        num_public: zkey.num_public,
        domain_size: zkey.domain_size,
        vk,
        ic: copied(&zkey.ic),
        coefficients: Vec::new(),
        a: Vec::new(),
        b1: Vec::new(),
        b2: Vec::new(),
        c: Vec::new(),
        h: Vec::new(),
    }
}

/// A copy of a list.
pub(crate) fn copied<T: Copy>(xs: &[T]) -> (r: Vec<T>)
    ensures
        r@ == xs@,
{
    let n = xs.len();
    let mut r: Vec<T> = Vec::with_capacity(n);
    let mut i: usize = 0;
    while i < n
        invariant
            i <= n,
            n == xs@.len(),
            r@ =~= xs@.take(i as int),
        decreases n - i,
    {
        r.push(xs[i]);
        i = i + 1;
    }
    proof {
        assert(xs@.take(n as int) =~= xs@);
    }
    r
}

impl<B: Backend> Prover<B> {
    /// The tables of a domain on the device.
    fn upload_tables(&self, t: &Tables) -> (r: TransformBuffers<B::Buf>)
        ensures
            r.hold(*t),
            r.forward.size() == occupied(32 * t.forward@.len()),
            r.inverse.size() == occupied(32 * t.inverse@.len()),
            r.shift.size() == occupied(32 * t.shift_powers@.len()),
    {
        proof {
            pack::lemma_fr_round_trip(t.forward@);
            pack::lemma_fr_round_trip(t.inverse@);
            pack::lemma_fr_round_trip(t.shift_powers@);
        }
        TransformBuffers {
            forward: self.backend.upload(&pack::pack_fr(&t.forward)),
            inverse: self.backend.upload(&pack::pack_fr(&t.inverse)),
            shift: self.backend.upload(&pack::pack_fr(&t.shift_powers)),
            n_inv: t.n_inv,
            lg_n: t.lg_n,
        }
    }

    /// Upload everything of a zkey that every proof reads (the five point
    /// sets, the grouped coefficients and their group starts, the transform
    /// tables) once, and keep it on the device: per-proof traffic drops to the
    /// witness in and the proof out.
    pub fn prepare(&self, zkey: &Zkey, groups: &CoefficientGroups) -> (r: ResidentZkey<B>)
        requires
            preparable(*zkey, *groups),
        ensures
            r.wf(),
            r.zkey() == *zkey,
            r.groups() == *groups,
            r.held() == resident_size(*zkey, *groups),
    {
        let t = Tables::new(zkey.domain_size);
        let r = ResidentZkey {
            meta: strip(zkey),
            a_constraint: copied(&groups.a_constraint),
            b_constraint: copied(&groups.b_constraint),
            ca: self.backend.upload(&pack::pack_coeffs(&groups.a)),
            sa: self.backend.upload(&pack::pack_u32(&groups.a_starts)),
            cb: self.backend.upload(&pack::pack_coeffs(&groups.b)),
            sb: self.backend.upload(&pack::pack_u32(&groups.b_starts)),
            tb: self.upload_tables(&t),
            pa: self.backend.upload(&pack::pack_g1(&zkey.a)),
            pb1: self.backend.upload(&pack::pack_g1(&zkey.b1)),
            pc: self.backend.upload(&pack::pack_g1(&zkey.c)),
            ph: self.backend.upload(&pack::pack_g1(&zkey.h)),
            pb2: self.backend.upload(&pack::pack_g2(&zkey.b2)),
            key: Ghost(*zkey),
            groups: Ghost(*groups),
            tables: Ghost(t),
        };
        proof {
            lemma_sizes(*zkey, *groups);
        }
        r
    }

    /// Upload and drop grouped coefficients.
    fn upload_coeffs(&self, v: Vec<GroupedCoeff>) -> (r: B::Buf)
        ensures
            r.contents() == pack::packed_coeffs(v@),
            r.size() == occupied(pack::packed_coeffs(v@).len()),
    {
        self.backend.upload(&pack::pack_coeffs(&v))
    }

    /// Upload and drop words.
    fn upload_words(&self, v: Vec<u32>) -> (r: B::Buf)
        ensures
            r.contents() == pack::packed_u32(v@),
            r.size() == occupied(pack::packed_u32(v@).len()),
    {
        self.backend.upload(&pack::pack_u32(&v))
    }

    /// Upload and drop G1 points.
    fn upload_g1(&self, v: Vec<Affine<Fp>>) -> (r: B::Buf)
        ensures
            r.contents() == pack::packed_g1(v@),
            r.size() == occupied(pack::packed_g1(v@).len()),
    {
        self.backend.upload(&pack::pack_g1(&v))
    }

    /// Upload and drop G2 points.
    fn upload_g2(&self, v: Vec<Affine<Fp2>>) -> (r: B::Buf)
        ensures
            r.contents() == pack::packed_g2(v@),
            r.size() == occupied(pack::packed_g2(v@).len()),
    {
        self.backend.upload(&pack::pack_g2(&v))
    }

    /// [`Self::prepare`] for a zkey the caller owns: every point set and the
    /// coefficient groups are packed, uploaded and dropped one after another,
    /// so the parsed and the packed copies never coexist in host memory.
    pub fn prepare_owned(&self, zkey: Zkey, groups: CoefficientGroups) -> (r: ResidentZkey<B>)
        requires
            preparable(zkey, groups),
        ensures
            r.wf(),
            r.zkey() == zkey,
            r.groups() == groups,
            r.held() == resident_size(zkey, groups),
    {
        let ghost (key, parts) = (zkey, groups);
        let t = Tables::new(zkey.domain_size);
        let meta = strip(&zkey);
        let ca = self.upload_coeffs(groups.a);
        let sa = self.upload_words(groups.a_starts);
        let cb = self.upload_coeffs(groups.b);
        let sb = self.upload_words(groups.b_starts);
        let pa = self.upload_g1(zkey.a);
        let pb1 = self.upload_g1(zkey.b1);
        let pc = self.upload_g1(zkey.c);
        let ph = self.upload_g1(zkey.h);
        let pb2 = self.upload_g2(zkey.b2);
        proof {
            lemma_sizes(key, parts);
        }
        ResidentZkey {
            meta,
            a_constraint: groups.a_constraint,
            b_constraint: groups.b_constraint,
            ca,
            sa,
            cb,
            sb,
            tb: self.upload_tables(&t),
            pa,
            pb1,
            pc,
            ph,
            pb2,
            key: Ghost(key),
            groups: Ghost(parts),
            tables: Ghost(t),
        }
    }

    /// Bytes a resident zkey holds on the device.
    pub fn resident_bytes(&self, z: &ResidentZkey<B>) -> (r: usize)
        requires
            z.held() <= usize::MAX,
        ensures
            r == z.held(),
    {
        let b = &self.backend;
        b.len(&z.ca) + b.len(&z.sa) + b.len(&z.cb) + b.len(&z.sb) + b.len(&z.tb.forward) + b.len(
            &z.tb.inverse,
        ) + b.len(&z.tb.shift) + b.len(&z.pa) + b.len(&z.pb1) + b.len(&z.pc) + b.len(&z.ph)
            + b.len(&z.pb2)
    }

    /// One matrix's polynomial on the domain: the group values by a launch,
    /// placed at their constraint indices on the host.
    fn scatter(
        &self,
        coeffs: &B::Buf,
        starts: &B::Buf,
        witness: &B::Buf,
        constraints: &Vec<u32>,
        n: usize,
    ) -> (poly: Vec<Fr>)
        requires
            32 * constraints@.len() <= usize::MAX,
            pipeline::scatterable(
                pack::unpacked_coeffs(coeffs.contents()),
                words(*starts),
                constraints@,
                elements(*witness).len() as int,
                n as int,
            ),
        ensures
            poly@.len() == n,
            scatter_left(
                self.device(),
                coeffs.contents(),
                starts.contents(),
                witness.contents(),
                constraints@,
                n as nat,
                poly@,
            ),
            right(self.device()) ==> poly@ == pipeline::grouped_polynomial(
                pack::unpacked_coeffs(coeffs.contents()),
                words(*starts),
                constraints@,
                elements(*witness),
                n as nat,
            ),
    {
        let count = constraints.len();
        let mut out = self.backend.allocate(count * 32);
        proof {
            let cs = pack::unpacked_coeffs(coeffs.contents());
            assert forall|g: int| 0 <= g < count implies #[trigger] kernels::range_fits(
                words(*starts),
                g,
                cs.len() as int,
            ) by {
                assert(constraints@[g] < n);
            }
        }
        self.backend.run(&Call::ScatterGroup { coeffs, starts, witness }, count, &mut out);
        let sums = pack::unpack_fr(&self.backend.read(&out, count * 32));
        proof {
            reveal(scatter_left);
            assert(out.contents().take(count * 32) =~= out.contents());
            assert(self.backend.left(
                Call::ScatterGroup { coeffs, starts, witness },
                constraints@.len() as int,
                out.contents(),
            ));
            if right(self.backend) {
                lemma_right(
                    self.backend,
                    Call::ScatterGroup { coeffs, starts, witness },
                    count as int,
                    out.contents(),
                );
            }
        }
        pipeline::place(constraints, &sums, n)
    }
}

/// The sizes of what [`Prover::prepare`] uploads.
proof fn lemma_sizes(zkey: Zkey, groups: CoefficientGroups)
    ensures
        pack::packed_coeffs(groups.a@).len() == 48 * groups.a@.len(),
        pack::packed_coeffs(groups.b@).len() == 48 * groups.b@.len(),
        pack::packed_u32(groups.a_starts@).len() == 4 * groups.a_starts@.len(),
        pack::packed_u32(groups.b_starts@).len() == 4 * groups.b_starts@.len(),
        pack::packed_g1(zkey.a@).len() == 64 * zkey.a@.len(),
        pack::packed_g1(zkey.b1@).len() == 64 * zkey.b1@.len(),
        pack::packed_g1(zkey.c@).len() == 64 * zkey.c@.len(),
        pack::packed_g1(zkey.h@).len() == 64 * zkey.h@.len(),
        pack::packed_g2(zkey.b2@).len() == 128 * zkey.b2@.len(),
{
    pack::lemma_coeffs_round_trip(groups.a@);
    pack::lemma_coeffs_round_trip(groups.b@);
    pack::lemma_u32_round_trip(groups.a_starts@);
    pack::lemma_u32_round_trip(groups.b_starts@);
    pack::lemma_g1_round_trip(zkey.a@, ec::g1_b_spec());
    pack::lemma_g1_round_trip(zkey.b1@, ec::g1_b_spec());
    pack::lemma_g1_round_trip(zkey.c@, ec::g1_b_spec());
    pack::lemma_g1_round_trip(zkey.h@, ec::g1_b_spec());
    pack::lemma_g2_round_trip(zkey.b2@, ec::g2_b_spec());
}

// ---- proofs ------------------------------------------------------------------------------------

/// The outcome of a proof with these groups: an error exactly where the witness has the wrong
/// length or does not start with one; else, for reduced inputs, the Groth16 proof.
pub open spec fn proved(
    zkey: Zkey,
    groups: CoefficientGroups,
    witness: Seq<Fr>,
    r: Fr,
    s: Fr,
    result: Result<Proof, ProveError>,
) -> bool {
    if witness.len() != zkey.num_vars {
        result == Err::<Proof, ProveError>(
            ProveError::WitnessLength { expected: zkey.num_vars, found: witness.len() as usize },
        )
    } else if witness[0] != Fr::one_spec() {
        result == Err::<Proof, ProveError>(ProveError::WitnessConstant)
    } else {
        &&& result is Ok
        &&& prover::key_reduced(zkey) && pipeline::groups_wf(groups) && dft::all_wf(witness)
            && r.wf() && s.wf() ==> result->Ok_0 == prover::proof_with(
            zkey,
            pipeline::grouped_quotient(groups, witness, zkey.domain_size as nat),
            witness,
            r,
            s,
        )
    }
}

/// A proof with the groups of a key, whether or not the key still has its flat list, is what the
/// reference prover gives for the key, the errors too. Every key that parses is reduced and
/// lists its coefficients by ascending constraint.
pub proof fn lemma_proved_is_core(
    zkey: Zkey,
    held: Zkey,
    groups: CoefficientGroups,
    witness: Seq<Fr>,
    r: Fr,
    s: Fr,
    result: Result<Proof, ProveError>,
)
    requires
        zkey.consistent(),
        prover::key_reduced(zkey),
        prover::ascends(zkey.coefficients@),
        groups.of_key(zkey),
        pipeline::but_for_list(held, zkey),
        dft::all_wf(witness),
        r.wf(),
        s.wf(),
        proved(held, groups, witness, r, s, result),
    ensures
        result == prover::outcome(zkey, witness, r, s),
{
    pipeline::lemma_key_groups_wf(zkey, groups);
    assert(prover::key_reduced(held));
    if witness.len() == zkey.num_vars {
        pipeline::lemma_grouped_is_core(zkey, held, groups, witness, r, s);
    }
}

/// What makes a proof with the groups of a key the reference prover's.
pub open spec fn exact(
    zkey: Zkey,
    groups: CoefficientGroups,
    witness: Seq<Fr>,
    r: Fr,
    s: Fr,
) -> bool {
    &&& groups.of_key(zkey)
    &&& prover::key_reduced(zkey)
    &&& prover::ascends(zkey.coefficients@)
    &&& dft::all_wf(witness)
    &&& r.wf()
    &&& s.wf()
}

/// The five sums of a proof.
spec fn summed(zkey: Zkey, quotient: Seq<Fr>, witness: Seq<Fr>, msms: Msms) -> bool {
    let private = witness.subrange(zkey.num_public + 1, witness.len() as int);
    &&& msms.on_curves()
    &&& msms.h.pt() == group::weighted(reference::pts(zkey.h@), reference::vals(quotient))
    &&& msms.a.pt() == group::weighted(reference::pts(zkey.a@), reference::vals(witness))
    &&& msms.b1.pt() == group::weighted(reference::pts(zkey.b1@), reference::vals(witness))
    &&& msms.b2.pt() == group::weighted(reference::pts(zkey.b2@), reference::vals(witness))
    &&& msms.c.pt() == group::weighted(reference::pts(zkey.c@), reference::vals(private))
}

/// Whether the witness is one of the key's.
pub fn check_witness(zkey: &Zkey, witness: &[Fr]) -> (r: Result<(), ProveError>)
    requires
        zkey.num_vars > 0,
    ensures
        match r {
            Ok(_) => witness@.len() == zkey.num_vars && witness@[0] == Fr::one_spec(),
            Err(e) => if witness@.len() != zkey.num_vars {
                e == (ProveError::WitnessLength {
                    expected: zkey.num_vars,
                    found: witness@.len() as usize,
                })
            } else {
                e == ProveError::WitnessConstant && witness@[0] != Fr::one_spec()
            },
        },
{
    if witness.len() != zkey.num_vars {
        return Err(
            ProveError::WitnessLength { expected: zkey.num_vars, found: witness.len() },
        );
    }
    if !witness[0].same(&<Fr as Field>::one()) {
        return Err(ProveError::WitnessConstant);
    }
    Ok(())
}

impl<B: Backend> Prover<B> {
    /// The quotient's coset evaluations from the values of `A` and `B` on the
    /// domain.
    fn transform_phase(
        &self,
        a_poly: &Vec<Fr>,
        b_poly: &Vec<Fr>,
        tb: &TransformBuffers<B::Buf>,
        Ghost(t): Ghost<Tables>,
    ) -> (quotient: Vec<Fr>)
        requires
            32 * a_poly@.len() <= usize::MAX,
            a_poly@.len() >= 2,
            a_poly@.len() <= u32::MAX,
            b_poly@.len() == a_poly@.len(),
            prover::provable_domain(a_poly@.len()),
            t.of_size(a_poly@.len()),
            tb.hold(t),
        ensures
            quotient@.len() == a_poly@.len(),
            quotient_left(self.device(), t, a_poly@, b_poly@, quotient@),
            right(self.device()) && dft::all_wf(a_poly@) && dft::all_wf(b_poly@) ==> quotient@ == prover::quotient(
                a_poly@,
                b_poly@,
                prover::coset_shift(a_poly@.len()),
            ),
    {
        let n = a_poly.len();
        let backend = &self.backend;
        let a1 = backend.upload(&pack::pack_fr(a_poly));
        let b1 = backend.upload(&pack::pack_fr(b_poly));
        proof {
            pack::lemma_fr_round_trip(a_poly@);
            pack::lemma_fr_round_trip(b_poly@);
            if dft::all_wf(a_poly@) && dft::all_wf(b_poly@) {
                prover::lemma_products_wf(a_poly@, b_poly@);
            }
        }
        let mut c1 = backend.allocate(n * 32);
        backend.run(&Call::PointwiseMul { a: &a1, b: &b1 }, n, &mut c1);
        let ghost (av, bv, products) = (a1, b1, c1.contents());
        proof {
            if right(*backend) {
                lemma_right(
                    *backend,
                    Call::PointwiseMul { a: &a1, b: &b1 },
                    n as int,
                    c1.contents(),
                );
                assert(elements(c1) =~= prover::products(a_poly@, b_poly@));
            }
        }
        let ac = self.h_to_coset(a1, backend.allocate(n * 32), n, tb, Ghost(t));
        let bc = self.h_to_coset(b1, backend.allocate(n * 32), n, tb, Ghost(t));
        let cc = self.h_to_coset(c1, backend.allocate(n * 32), n, tb, Ghost(t));
        let mut q = backend.allocate(n * 32);
        backend.run(&Call::PointwiseMulSub { a: &ac, b: &bc, c: &cc }, n, &mut q);
        let quotient = pack::unpack_fr(&backend.read(&q, n * 32));
        proof {
            reveal(quotient_left);
            assert(q.contents().take(n * 32) =~= q.contents());
            assert(backend.left(Call::PointwiseMul { a: &av, b: &bv }, n as int, products));
            assert(backend.left(
                Call::PointwiseMulSub { a: &ac, b: &bc, c: &cc },
                n as int,
                q.contents(),
            ));
            if right(*backend) && dft::all_wf(a_poly@) && dft::all_wf(b_poly@) {
                lemma_right(
                    *backend,
                    Call::PointwiseMulSub { a: &ac, b: &bc, c: &cc },
                    n as int,
                    q.contents(),
                );
                assert(quotient@ =~= prover::quotient(
                    a_poly@,
                    b_poly@,
                    prover::coset_shift(n as nat),
                ));
            }
        }
        quotient
    }

    /// An MSM over packed G1 points.
    fn msm_g1(&self, points: &B::Buf, scalars: &[Fr], Ghost(ps): Ghost<Seq<Affine<Fp>>>) -> (r:
        Option<Jacobian<Fp>>)
        requires
            sum_addressable(scalars@.len() as int),
            points.contents() == pack::packed_g1(ps),
            ps.len() == scalars@.len(),
            scalars@.len() > 0,
            pipeline::countable(scalars@.len() as int),
        ensures
            g1_left(self.device(), ps, scalars@, r),
            right(self.device()) ==> r is Some,
            right(self.device()) && reference::on_curve(ps, ec::g1_b_spec()) ==> r->0.wf()
                && r->0.pt() == group::weighted(reference::pts(ps), reference::vals(scalars@))
                && r->0.pt().on(ec::g1_b_spec()),
    {
        proof {
            reveal(g1_left);
            pack::lemma_g1_round_trip(ps, ec::g1_b_spec());
            if reference::on_curve(ps, ec::g1_b_spec()) {
                prover::lemma_msm_on(ps, scalars@, ec::g1_b_spec());
            }
        }
        self.sum::<Fp>(points, scalars)
    }

    /// An MSM over packed G2 points.
    fn msm_g2(&self, points: &B::Buf, scalars: &[Fr], Ghost(ps): Ghost<Seq<Affine<Fp2>>>) -> (r:
        Option<Jacobian<Fp2>>)
        requires
            sum_addressable(scalars@.len() as int),
            points.contents() == pack::packed_g2(ps),
            ps.len() == scalars@.len(),
            scalars@.len() > 0,
            pipeline::countable(scalars@.len() as int),
        ensures
            g2_left(self.device(), ps, scalars@, r),
            right(self.device()) ==> r is Some,
            right(self.device()) && reference::on_curve(ps, ec::g2_b_spec()) ==> r->0.wf()
                && r->0.pt() == group::weighted(reference::pts(ps), reference::vals(scalars@))
                && r->0.pt().on(ec::g2_b_spec()),
    {
        proof {
            reveal(g2_left);
            pack::lemma_g2_round_trip(ps, ec::g2_b_spec());
            if reference::on_curve(ps, ec::g2_b_spec()) {
                prover::lemma_msm_on(ps, scalars@, ec::g2_b_spec());
            }
        }
        self.sum::<Fp2>(points, scalars)
    }

    /// Produce a proof against a resident zkey: the witness goes up, the
    /// proof comes back; nothing of the zkey moves.
    pub fn prove_resident(&self, z: &ResidentZkey<B>, witness: &[Fr], r: &Fr, s: &Fr) -> (result:
        Result<Proof, ProveError>)
        requires
            right(self.device()),
            z.wf(),
        ensures
            proved(z.zkey(), z.groups(), witness@, *r, *s, result),
            exact(z.zkey(), z.groups(), witness@, *r, *s) ==> result == prover::outcome(
                z.zkey(),
                witness@,
                *r,
                *s,
            ),
    {
        let result = match self.attempt(z, witness, r, s) {
            Ok(p) => Ok(p),
            Err(Fault::Prove(e)) => Err(e),
            Err(Fault::Digit) => vstd::pervasive::unreached(),
        };
        proof {
            let (key, groups) = (z.zkey(), z.groups());
            if exact(key, groups, witness@, *r, *s) {
                lemma_proved_is_core(key, key, groups, witness@, *r, *s, result);
            }
        }
        result
    }

    /// [`Self::prove_resident`] on a device that may be wrong: what came of it is what the
    /// pipeline makes of what the device left.
    pub fn attempt(&self, z: &ResidentZkey<B>, witness: &[Fr], r: &Fr, s: &Fr) -> (result: Result<
        Proof,
        Fault,
    >)
        requires
            z.wf(),
        ensures
            proof_left(self.device(), z.zkey(), z.groups(), witness@, *r, *s, result),
            right(self.device()) ==> match result {
                Ok(p) => proved(z.zkey(), z.groups(), witness@, *r, *s, Ok(p)),
                Err(Fault::Prove(e)) => proved(
                    z.zkey(),
                    z.groups(),
                    witness@,
                    *r,
                    *s,
                    Err(e),
                ),
                Err(Fault::Digit) => false,
            },
    {
        let ghost key = z.key@;
        let ghost groups = z.groups@;
        proof {
            reveal(proof_left);
        }
        let zkey = &z.meta;
        match check_witness(zkey, witness) {
            Ok(_) => {},
            Err(e) => {
                return Err(Fault::Prove(e));
            },
        }
        let n = zkey.domain_size;
        let witness_b = self.backend.upload(&pack::pack_fr(witness));
        proof {
            pack::lemma_fr_round_trip(witness@);
            pack::lemma_coeffs_round_trip(groups.a@);
            pack::lemma_coeffs_round_trip(groups.b@);
            pack::lemma_u32_round_trip(groups.a_starts@);
            pack::lemma_u32_round_trip(groups.b_starts@);
        }
        let a_poly = self.scatter(&z.ca, &z.sa, &witness_b, &z.a_constraint, n);
        let b_poly = self.scatter(&z.cb, &z.sb, &witness_b, &z.b_constraint, n);
        proof {
            lemma_polynomials(key, groups, witness@);
        }
        let quotient = self.transform_phase(&a_poly, &b_poly, &z.tb, Ghost(z.tables@));
        let private = vstd::slice::slice_subrange(witness, zkey.num_public + 1, witness.len());
        let h = self.msm_g1(&z.ph, &quotient, Ghost(key.h@));
        let a = self.msm_g1(&z.pa, witness, Ghost(key.a@));
        let b1 = self.msm_g1(&z.pb1, witness, Ghost(key.b1@));
        let b2 = self.msm_g2(&z.pb2, witness, Ghost(key.b2@));
        let c = self.msm_g1(&z.pc, private, Ghost(key.c@));
        proof {
            assert(g1_left(self.backend, key.h@, quotient@, h));
            assert(quotient_left(self.backend, z.tables@, a_poly@, b_poly@, quotient@));
        }
        let result = match (h, a, b1, b2, c) {
            (Some(h), Some(a), Some(b1), Some(b2), Some(c)) => {
                let msms = Msms { h, a, b1, b2, c };
                proof {
                    if right(self.backend) && prover::key_reduced(key) {
                        assert(summed(key, quotient@, witness@, msms));
                    }
                }
                Ok(assemble(zkey, &msms, r, s))
            },
            _ => Err(Fault::Digit),
        };
        proof {
            assert(assembled_left(
                self.backend,
                key,
                quotient@,
                witness@,
                *r,
                *s,
                result,
            ));
        }
        result
    }

    /// [`Self::prove`] with the coefficient groups already built: upload the
    /// zkey for this one proof and drop it after.
    pub fn prove_grouped(
        &self,
        zkey: &Zkey,
        groups: &CoefficientGroups,
        witness: &[Fr],
        r: &Fr,
        s: &Fr,
    ) -> (result: Result<Proof, ProveError>)
        requires
            right(self.device()),
            preparable(*zkey, *groups),
        ensures
            proved(*zkey, *groups, witness@, *r, *s, result),
            exact(*zkey, *groups, witness@, *r, *s) ==> result == prover::outcome(
                *zkey,
                witness@,
                *r,
                *s,
            ),
    {
        let resident = self.prepare(zkey, groups);
        self.prove_resident(&resident, witness, r, s)
    }

    /// Produce a proof with nothing resident: every phase uploads what it
    /// needs and frees it before the next, the smallest device footprint; the
    /// price is uploading the zkey again for every proof.
    pub fn prove_streaming(
        &self,
        zkey: &Zkey,
        groups: &CoefficientGroups,
        witness: &[Fr],
        r: &Fr,
        s: &Fr,
    ) -> (result: Result<Proof, ProveError>)
        requires
            right(self.device()),
            preparable(*zkey, *groups),
        ensures
            proved(*zkey, *groups, witness@, *r, *s, result),
            exact(*zkey, *groups, witness@, *r, *s) ==> result == prover::outcome(
                *zkey,
                witness@,
                *r,
                *s,
            ),
    {
        match check_witness(zkey, witness) {
            Ok(_) => {},
            Err(e) => {
                return Err(e);
            },
        }
        let n = zkey.domain_size;
        proof {
            pack::lemma_fr_round_trip(witness@);
            pack::lemma_coeffs_round_trip(groups.a@);
            pack::lemma_coeffs_round_trip(groups.b@);
            pack::lemma_u32_round_trip(groups.a_starts@);
            pack::lemma_u32_round_trip(groups.b_starts@);
            lemma_polynomials(*zkey, *groups, witness@);
        }
        let witness_b = self.backend.upload(&pack::pack_fr(witness));
        let a_poly = {
            let cb = self.backend.upload(&pack::pack_coeffs(&groups.a));
            let sb = self.backend.upload(&pack::pack_u32(&groups.a_starts));
            self.scatter(&cb, &sb, &witness_b, &groups.a_constraint, n)
        };
        let b_poly = {
            let cb = self.backend.upload(&pack::pack_coeffs(&groups.b));
            let sb = self.backend.upload(&pack::pack_u32(&groups.b_starts));
            self.scatter(&cb, &sb, &witness_b, &groups.b_constraint, n)
        };
        let quotient = {
            let t = Tables::new(n);
            let tb = self.upload_tables(&t);
            self.transform_phase(&a_poly, &b_poly, &tb, Ghost(t))
        };
        let private = vstd::slice::slice_subrange(witness, zkey.num_public + 1, witness.len());
        let h = self.streamed_g1(&zkey.h, &quotient);
        let a = self.streamed_g1(&zkey.a, witness);
        let b1 = self.streamed_g1(&zkey.b1, witness);
        let b2 = {
            let pb = self.backend.upload(&pack::pack_g2(&zkey.b2));
            self.msm_g2(&pb, witness, Ghost(zkey.b2@)).unwrap()
        };
        let c = self.streamed_g1(&zkey.c, private);
        let msms = Msms { h, a, b1, b2, c };
        proof {
            if prover::key_reduced(*zkey) {
                assert(summed(*zkey, quotient@, witness@, msms));
            }
        }
        let made = assemble(zkey, &msms, r, s);
        proof {
            let result = Ok::<Proof, ProveError>(made);
            if exact(*zkey, *groups, witness@, *r, *s) {
                lemma_proved_is_core(*zkey, *zkey, *groups, witness@, *r, *s, result);
            }
        }
        Ok(made)
    }

    /// An MSM over G1 points that are uploaded for it and freed after it.
    fn streamed_g1(&self, points: &Vec<Affine<Fp>>, scalars: &[Fr]) -> (r: Jacobian<Fp>)
        requires
            right(self.device()),
            sum_addressable(scalars@.len() as int),
            points@.len() == scalars@.len(),
            scalars@.len() > 0,
            pipeline::countable(scalars@.len() as int),
        ensures
            reference::on_curve(points@, ec::g1_b_spec()) ==> r.wf() && r.pt()
                == group::weighted(reference::pts(points@), reference::vals(scalars@))
                && r.pt().on(ec::g1_b_spec()),
    {
        let pb = self.backend.upload(&pack::pack_g1(points));
        self.msm_g1(&pb, scalars, Ghost(points@)).unwrap()
    }

    /// Produce a proof: upload the zkey for this one proof and drop it after.
    pub fn prove(&self, zkey: &Zkey, witness: &[Fr], r: &Fr, s: &Fr) -> (result: Result<
        Proof,
        ProveError,
    >)
        requires
            right(self.device()),
            pipeline::launchable(*zkey),
            addressable(*zkey, zkey.coefficients@.len() as int),
        ensures
            match result {
                Err(e) => e == (if witness@.len() != zkey.num_vars {
                    ProveError::WitnessLength { expected: zkey.num_vars, found: witness.len() }
                } else {
                    ProveError::WitnessConstant
                }),
                Ok(proof) => prover::key_reduced(*zkey) && dft::all_wf(witness@) && r.wf()
                    && s.wf() && prover::ascends(prover::picked(zkey.coefficients@, true))
                    && prover::ascends(prover::picked(zkey.coefficients@, false)) ==> proof
                    == prover::proof_of(*zkey, witness@, *r, *s),
            },
            result is Ok <==> witness@.len() == zkey.num_vars && witness@[0] == Fr::one_spec(),
            prover::key_reduced(*zkey) && prover::ascends(zkey.coefficients@) && dft::all_wf(
                witness@,
            ) && r.wf() && s.wf() ==> result == prover::outcome(*zkey, witness@, *r, *s),
    {
        let groups = CoefficientGroups::from_zkey(zkey);
        proof {
            pipeline::lemma_key_preparable(*zkey, groups);
            if witness@.len() == zkey.num_vars {
                pipeline::lemma_key_quotient(*zkey, groups, witness@);
            }
        }
        self.prove_grouped(zkey, &groups, witness, r, s)
    }
}

/// The polynomials of scatterable groups fill the domain, reduced where their parts are.
proof fn lemma_polynomials(zkey: Zkey, groups: CoefficientGroups, witness: Seq<Fr>)
    requires
        preparable(zkey, groups),
        witness.len() == zkey.num_vars,
    ensures
        ({
            let n = zkey.domain_size as nat;
            let a = pipeline::grouped_polynomial(
                groups.a@,
                groups.a_starts@,
                groups.a_constraint@,
                witness,
                n,
            );
            let b = pipeline::grouped_polynomial(
                groups.b@,
                groups.b_starts@,
                groups.b_constraint@,
                witness,
                n,
            );
            &&& a.len() == n
            &&& b.len() == n
            &&& pipeline::groups_wf(groups) && dft::all_wf(witness) ==> dft::all_wf(a)
                && dft::all_wf(b)
        }),
{
    let n = zkey.domain_size as nat;
    let va = pipeline::group_values(
        groups.a@,
        groups.a_starts@,
        witness,
        groups.a_constraint@.len(),
    );
    let vb = pipeline::group_values(
        groups.b@,
        groups.b_starts@,
        witness,
        groups.b_constraint@.len(),
    );
    pipeline::lemma_placed_len(groups.a_constraint@, va, n);
    pipeline::lemma_placed_len(groups.b_constraint@, vb, n);
    if pipeline::groups_wf(groups) && dft::all_wf(witness) {
        pipeline::lemma_grouped_wf(
            groups.a@,
            groups.a_starts@,
            groups.a_constraint@,
            witness,
            n,
        );
        pipeline::lemma_grouped_wf(
            groups.b@,
            groups.b_starts@,
            groups.b_constraint@,
            witness,
            n,
        );
    }
}

// ---- the kernel check --------------------------------------------------------------------------

/// The field elements that a launch may leave.
pub open spec fn elements_left<B: Backend>(
    device: B,
    call: Call<'_, B::Buf>,
    n: int,
    v: Seq<Fr>,
) -> bool {
    exists|after: Seq<u8>|
        after.len() == 32 * n && #[trigger] device.left(call, n, after) && v == pack::unpacked_fr(
            after,
        )
}

/// The words that a launch may leave.
pub open spec fn words_left<B: Backend>(
    device: B,
    call: Call<'_, B::Buf>,
    n: int,
    v: Seq<u32>,
) -> bool {
    exists|after: Seq<u8>|
        after.len() == 4 * n && #[trigger] device.left(call, n, after) && v == pack::unpacked_u32(
            after,
        )
}

/// The points that a launch may leave.
pub open spec fn points_left<B: Backend, F: Group>(
    device: B,
    call: Call<'_, B::Buf>,
    n: int,
    v: Seq<Jacobian<F>>,
) -> bool {
    exists|after: Seq<u8>|
        after.len() == F::sum_size() * n && #[trigger] device.left(call, n, after) && v
            == F::sums_of(after)
}

/// What the six kernels over the vector cases may leave.
#[verifier::opaque]
pub open spec fn vectors_left<B: Backend>(
    device: B,
    c: Cases,
    scatter: Seq<Fr>,
    mul: Seq<Fr>,
    mul_sub: Seq<Fr>,
    scale: Seq<Fr>,
    reversed: Seq<Fr>,
    stage: Seq<Fr>,
) -> bool {
    exists|f: B::Buf, f2: B::Buf, f3: B::Buf, cs: B::Buf, st: B::Buf|
        f.contents() == pack::packed_fr(c.fr@) && f2.contents() == pack::packed_fr(c.fr2@)
            && f3.contents() == pack::packed_fr(c.fr3@) && cs.contents() == pack::packed_coeffs(
            c.coeffs@,
        ) && st.contents() == pack::packed_u32(c.starts@) && #[trigger] elements_left(
            device,
            Call::ScatterGroup { coeffs: &cs, starts: &st, witness: &f },
            8,
            scatter,
        ) && elements_left(device, Call::PointwiseMul { a: &f, b: &f2 }, 64, mul)
            && #[trigger] elements_left(
            device,
            Call::PointwiseMulSub { a: &f, b: &f2, c: &f3 },
            64,
            mul_sub,
        ) && elements_left(
            device,
            Call::PointwiseScale { a: &f, k: &f2, factor: c.n_inv },
            64,
            scale,
        ) && elements_left(device, Call::BitReverse { a: &f, lg_n: 6 }, 64, reversed)
            && elements_left(
            device,
            Call::NttStage { a: &f, len: 8, twiddles: &f2, stride: 8 },
            64,
            stage,
        )
}

/// What the digit kernels may leave: every window alone, and all windows at once.
#[verifier::opaque]
pub open spec fn digits_left<B: Backend>(
    device: B,
    c: Cases,
    windows: Seq<Vec<u32>>,
    all: Seq<u32>,
) -> bool {
    exists|cs: B::Buf|
        cs.contents() == pack::packed_canonical(c.wide@) && windows.len() == 22 && (forall|w: int|
            0 <= w < 22 ==> words_left(
                device,
                Call::Digits { scalars: &cs, window: w as u32, w: 12 },
                64,
                (#[trigger] windows[w])@,
            )) && #[trigger] words_left(
            device,
            Call::DigitsAll { scalars: &cs, count: 64, w: 12 },
            1408,
            all,
        )
}

/// What the two sum kernels of a group may leave over the bucket case of the packed points.
#[verifier::opaque]
pub open spec fn sums_left<B: Backend, F: Group>(
    device: B,
    c: Cases,
    points: Seq<Affine<F>>,
    packed: Seq<u8>,
    buckets: Seq<Jacobian<F>>,
    ranges: Seq<Jacobian<F>>,
) -> bool {
    exists|p: B::Buf, below: B::Buf, o: B::Buf, st: B::Buf, js: B::Buf|
        p.contents() == packed && check::bucket_sums_of(F::sums_of(below.contents()), points)
            && o.contents() == pack::packed_u32(c.order@) && st.contents() == pack::packed_u32(
            c.bstarts@,
        ) && js.contents() == pack::packed_u32(c.jstarts@) && #[trigger] points_left(
            device,
            bucket_call(F::is_g1(), &p, &o, &st),
            5,
            buckets,
        ) && #[trigger] points_left(device, range_call(F::is_g1(), &below, &js), 3, ranges)
}

/// A sum in a report.
pub open spec fn sum_reported<F: Field>(r: Option<Jacobian<F>>, o: Result<Jacobian<F>, String>) -> bool {
    match r {
        Some(p) => o == Ok::<Jacobian<F>, String>(p),
        None => o matches Err(e) && e@ == Fault::Digit.text(),
    }
}

/// A proof in a report.
pub open spec fn proof_reported(r: Result<Proof, Fault>, o: Result<Proof, NoProof>) -> bool {
    match r {
        Ok(p) => o == Ok::<Proof, NoProof>(p),
        Err(f) => o matches Err(NoProof::Pipeline(e)) && e@ == f.text(),
    }
}

/// The outputs are what the device's launches may leave on the cases, and what the pipeline
/// makes of it.
pub open spec fn left_by<B: Backend>(device: B, c: Cases, fixture: Fixture, o: Outputs) -> bool {
    &&& o.scatter_group is Ok && o.pointwise_mul is Ok && o.pointwise_mul_sub is Ok
    &&& o.pointwise_scale is Ok && o.bit_reverse is Ok && o.ntt_stage is Ok
    &&& vectors_left(
        device,
        c,
        o.scatter_group->Ok_0@,
        o.pointwise_mul->Ok_0@,
        o.pointwise_mul_sub->Ok_0@,
        o.pointwise_scale->Ok_0@,
        o.bit_reverse->Ok_0@,
        o.ntt_stage->Ok_0@,
    )
    &&& o.digits is Ok && o.digits_all is Ok
    &&& digits_left(device, c, o.digits->Ok_0@, o.digits_all->Ok_0@)
    &&& o.bucket_sum_g1 is Ok && o.jacobian_sum_g1 is Ok
    &&& sums_left(
        device,
        c,
        c.g1@,
        pack::packed_g1(c.g1@),
        o.bucket_sum_g1->Ok_0@,
        o.jacobian_sum_g1->Ok_0@,
    )
    &&& o.bucket_sum_g2 is Ok && o.jacobian_sum_g2 is Ok
    &&& sums_left(
        device,
        c,
        c.g2@,
        pack::packed_g2(c.g2@),
        o.bucket_sum_g2->Ok_0@,
        o.jacobian_sum_g2->Ok_0@,
    )
    &&& exists|m: Option<Jacobian<Fp>>|
        #[trigger] g1_left(device, c.msm_g1@, c.msm_scalars@, m) && sum_reported(m, o.msm_g1)
    &&& exists|m: Option<Jacobian<Fp2>>|
        #[trigger] g2_left(device, c.msm_g2@, c.msm_scalars@, m) && sum_reported(m, o.msm_g2)
    &&& exists|groups: CoefficientGroups, p: Result<Proof, Fault>|
        groups.of_key(fixture.zkey) && #[trigger] proof_left(
            device,
            fixture.zkey,
            groups,
            fixture.witness@,
            fixture.r,
            fixture.s,
            p,
        ) && proof_reported(p, o.proof)
}

impl<B: Backend> Prover<B> {
    /// What a kernel whose results are field elements leaves.
    fn elements_out(&self, call: &Call<'_, B::Buf>, n: usize) -> (v: Vec<Fr>)
        requires
            n <= 64,
            fits(*call, n as int, 32 * n),
        ensures
            elements_left(self.device(), *call, n as int, v@),
            right(self.device()) ==> exists|out: Seq<u8>|
                #[trigger] written(*call, n as int, out) && v@ == pack::unpacked_fr(out),
    {
        let mut out = self.backend.allocate(n * 32);
        self.backend.run(call, n, &mut out);
        proof {
            assert(out.contents().take(n * 32) =~= out.contents());
            if right(self.backend) {
                lemma_right(self.backend, *call, n as int, out.contents());
            }
        }
        pack::unpack_fr(&self.backend.read(&out, n * 32))
    }

    /// What a kernel whose results are words leaves.
    fn words_out(&self, call: &Call<'_, B::Buf>, n: usize) -> (v: Vec<u32>)
        requires
            n <= 1408,
            fits(*call, n as int, 4 * n),
        ensures
            words_left(self.device(), *call, n as int, v@),
            right(self.device()) ==> exists|out: Seq<u8>|
                #[trigger] written(*call, n as int, out) && v@ == pack::unpacked_u32(out),
    {
        let mut out = self.backend.allocate(n * 4);
        self.backend.run(call, n, &mut out);
        proof {
            assert(out.contents().take(n * 4) =~= out.contents());
            if right(self.backend) {
                lemma_right(self.backend, *call, n as int, out.contents());
            }
        }
        pack::unpack_u32(&self.backend.read(&out, n * 4))
    }

    /// What the bucket-sum kernel of a group leaves.
    fn buckets_out<F: Group>(&self, points: &B::Buf, order: &B::Buf, starts: &B::Buf, n: usize) -> (
        v: Vec<Jacobian<F>>)
        requires
            n <= 64,
            ranges_fit(words(*starts), n as int, words(*order).len() as int),
            indices_fit(words(*order), F::points_of(points.contents()).len() as int),
        ensures
            points_left(self.device(), bucket_call(F::is_g1(), points, order, starts), n as int, v@),
            right(self.device()) ==> buckets_summed(
                F::points_of(points.contents()),
                words(*order),
                words(*starts),
                n as int,
                v@,
            ),
    {
        let size = F::sum_bytes();
        proof {
            lemma_mul_upper_bound(n as int, 64, size as int, 192);
            lemma_mul_is_commutative(n as int, size as int);
        }
        let mut out = self.backend.allocate(n * size);
        F::bucket_sum(&self.backend, points, order, starts, n, &mut out);
        proof {
            assert(out.contents().take(n * size) =~= out.contents());
        }
        F::unpack_sums(&self.backend.read(&out, n * size))
    }

    /// What the Jacobian-sum kernel of a group leaves.
    fn ranges_out<F: Group>(&self, sums: &B::Buf, starts: &B::Buf, n: usize) -> (v: Vec<
        Jacobian<F>,
    >)
        requires
            n <= 64,
            ranges_fit(words(*starts), n as int, F::sums_of(sums.contents()).len() as int),
        ensures
            points_left(self.device(), range_call(F::is_g1(), sums, starts), n as int, v@),
            right(self.device()) ==> ranges_summed(
                F::sums_of(sums.contents()),
                words(*starts),
                n as int,
                v@,
            ),
    {
        let size = F::sum_bytes();
        proof {
            lemma_mul_upper_bound(n as int, 64, size as int, 192);
            lemma_mul_is_commutative(n as int, size as int);
        }
        let mut out = self.backend.allocate(n * size);
        F::jacobian_sum(&self.backend, sums, starts, n, &mut out);
        proof {
            assert(out.contents().take(n * size) =~= out.contents());
        }
        F::unpack_sums(&self.backend.read(&out, n * size))
    }

    /// The six kernels over the vector cases.
    fn vectors_out(&self, c: &Cases) -> (r: (
        Vec<Fr>,
        Vec<Fr>,
        Vec<Fr>,
        Vec<Fr>,
        Vec<Fr>,
        Vec<Fr>,
    ))
        requires
            c.standard(),
        ensures
            vectors_left(self.device(), *c, r.0@, r.1@, r.2@, r.3@, r.4@, r.5@),
            right(self.device()) ==> {
                &&& r.0@ == judge::wanted_scatter(*c)
                &&& r.1@ == judge::wanted_mul(*c)
                &&& r.2@ == judge::wanted_mul_sub(*c)
                &&& r.3@ == judge::wanted_scale(*c)
                &&& r.4@ == judge::wanted_reversed(*c)
                &&& r.5@ == judge::wanted_stage(*c)
            },
    {
        proof {
            reveal(vectors_left);
            reveal(Cases::vectors);
            reveal(Cases::scattering);
            pack::lemma_fr_round_trip(c.fr@);
            pack::lemma_fr_round_trip(c.fr2@);
            pack::lemma_fr_round_trip(c.fr3@);
            pack::lemma_coeffs_round_trip(c.coeffs@);
            pack::lemma_u32_round_trip(c.starts@);
            lemma2_to64();
        }
        let n = c.n;
        let fb = self.backend.upload(&pack::pack_fr(&c.fr));
        let fb2 = self.backend.upload(&pack::pack_fr(&c.fr2));
        let fb3 = self.backend.upload(&pack::pack_fr(&c.fr3));
        let cb = self.backend.upload(&pack::pack_coeffs(&c.coeffs));
        let sb = self.backend.upload(&pack::pack_u32(&c.starts));
        proof {
            assert forall|g: int| 0 <= g < 8 implies #[trigger] kernels::range_fits(
                c.starts@,
                g,
                64,
            ) by {
                assert(c.starts@[g] == 8 * g);
                assert(c.starts@[g + 1] == 8 * (g + 1));
            }
            assert forall|i: int| 0 <= i < 64 implies #[trigger] kernels::stage_fits(
                i,
                64,
                8,
                64,
                8,
            ) by {
                dft::lemma_block_fits(i, 64, 8);
            }
        }
        let scatter = self.elements_out(
            &Call::ScatterGroup { coeffs: &cb, starts: &sb, witness: &fb },
            8,
        );
        proof {
            if right(self.backend) {
                assert forall|g: int| 0 <= g < 8 implies #[trigger] scatter@[g]
                    == judge::wanted_scatter(*c)[g] by {
                    assert(c.starts@[g] == 8 * g);
                    assert(c.starts@[g + 1] == 8 * (g + 1));
                }
                assert(scatter@ =~= judge::wanted_scatter(*c));
            }
        }
        let mul = self.elements_out(&Call::PointwiseMul { a: &fb, b: &fb2 }, n);
        let mul_sub = self.elements_out(
            &Call::PointwiseMulSub { a: &fb, b: &fb2, c: &fb3 },
            n,
        );
        let scale = self.elements_out(
            &Call::PointwiseScale { a: &fb, k: &fb2, factor: c.n_inv },
            n,
        );
        let reversed = self.elements_out(&Call::BitReverse { a: &fb, lg_n: c.lg_n }, n);
        let stage = self.elements_out(
            &Call::NttStage {
                a: &fb,
                len: c.stage_len as u32,
                twiddles: &fb2,
                stride: c.stage_stride as u32,
            },
            n,
        );
        proof {
            if right(self.backend) {
                assert(mul@ =~= judge::wanted_mul(*c));
                assert(mul_sub@ =~= judge::wanted_mul_sub(*c));
                assert(scale@ =~= judge::wanted_scale(*c));
                assert(reversed@ =~= judge::wanted_reversed(*c));
                assert(stage@ =~= judge::wanted_stage(*c));
            }
        }
        (scatter, mul, mul_sub, scale, reversed, stage)
    }

    /// The digit kernels: every window alone, and all windows at once.
    fn digits_out(&self, c: &Cases) -> (r: (Vec<Vec<u32>>, Vec<u32>))
        requires
            c.standard(),
        ensures
            digits_left(self.device(), *c, r.0@, r.1@),
            right(self.device()) ==> {
                &&& forall|w: int|
                    0 <= w < 22 ==> (#[trigger] r.0@[w])@ == judge::window_digits(c.wide@, w)
                &&& r.1@ == judge::all_digits(c.wide@)
            },
    {
        proof {
            reveal(digits_left);
            reveal(Cases::vectors);
            pack::lemma_canonical_round_trip(c.wide@);
        }
        let n = c.n;
        let canonical = self.backend.upload(&pack::pack_canonical(&c.wide));
        let mut windows: Vec<Vec<u32>> = Vec::new();
        let mut window: u32 = 0;
        while window < WINDOWS
            invariant
                window <= 22,
                n == 64,
                c.wide@.len() == 64,
                scalars(canonical).len() == 64,
                forall|i: int|
                    0 <= i < 64 ==> limbs::value(#[trigger] scalars(canonical)[i])
                        == c.wide@[i].val(),
                windows@.len() == window,
                forall|w: int|
                    0 <= w < window ==> words_left(
                        self.backend,
                        Call::Digits { scalars: &canonical, window: w as u32, w: 12 },
                        64,
                        (#[trigger] windows@[w])@,
                    ),
                right(self.backend) ==> forall|w: int|
                    0 <= w < window ==> (#[trigger] windows@[w])@ == judge::window_digits(
                        c.wide@,
                        w,
                    ),
            decreases 22 - window,
        {
            proof {
                assert(window * WINDOW_BITS <= 264) by (nonlinear_arith)
                    requires
                        window < 22,
                        WINDOW_BITS == 12,
                ;
            }
            let v = self.words_out(
                &Call::Digits { scalars: &canonical, window, w: WINDOW_BITS },
                n,
            );
            proof {
                if right(self.backend) {
                    assert(v@ =~= judge::window_digits(c.wide@, window as int));
                }
            }
            windows.push(v);
            window = window + 1;
        }
        let all = self.words_out(
            &Call::DigitsAll { scalars: &canonical, count: n as u32, w: WINDOW_BITS },
            22 * n,
        );
        proof {
            if right(self.backend) {
                assert forall|i: int| 0 <= i < 22 * 64 implies all@[i]
                    == #[trigger] judge::all_digits(c.wide@)[i] by {
                    assert(0 <= i % 64 < 64);
                    assert(limbs::value(scalars(canonical)[i % 64]) == c.wide@[i % 64].val());
                }
                assert(all@ =~= judge::all_digits(c.wide@));
            }
        }
        (windows, all)
    }

    /// The two sum kernels of a group over the bucket case.
    fn sums_out<F: Group>(
        &self,
        c: &Cases,
        points: &B::Buf,
        below: &B::Buf,
        Ghost(ps): Ghost<Seq<Affine<F>>>,
    ) -> (r: (Vec<Jacobian<F>>, Vec<Jacobian<F>>))
        requires
            c.standard(),
            ps.len() == 10,
            F::points_of(points.contents()).len() == 10,
            reference::pts(F::points_of(points.contents())) == reference::pts(ps),
            forall|i: int|
                0 <= i < 10 ==> (#[trigger] F::points_of(points.contents())[i]).wf(),
            check::bucket_sums_of(F::sums_of(below.contents()), ps),
        ensures
            sums_left(self.device(), *c, ps, points.contents(), r.0@, r.1@),
            right(self.device()) ==> check::bucket_sums_of(r.0@, ps) && check::range_sums_of(
                r.1@,
                ps,
            ),
    {
        proof {
            reveal(sums_left);
            reveal(Cases::indices);
            pack::lemma_u32_round_trip(c.order@);
            pack::lemma_u32_round_trip(c.bstarts@);
            pack::lemma_u32_round_trip(c.jstarts@);
        }
        let ob = self.backend.upload(&pack::pack_u32(&c.order));
        let sb = self.backend.upload(&pack::pack_u32(&c.bstarts));
        let jsb = self.backend.upload(&pack::pack_u32(&c.jstarts));
        proof {
            assert forall|b: int| 0 <= b < 5 implies #[trigger] kernels::range_fits(
                check::bucket_starts(),
                b,
                10,
            ) by {}
            assert forall|b: int| 0 <= b < 3 implies #[trigger] kernels::range_fits(
                check::sum_starts(),
                b,
                5,
            ) by {}
            assert forall|j: int| 0 <= j < 10 implies #[trigger] check::bucket_order()[j] < 10 by {}
        }
        let buckets = self.buckets_out::<F>(points, &ob, &sb, c.buckets());
        let ranges = self.ranges_out::<F>(below, &jsb, c.jstarts.len() - 1);
        proof {
            if right(self.backend) {
                let q = F::points_of(points.contents());
                assert forall|b: int| 0 <= b < 5 implies (#[trigger] buckets@[b]).wf()
                    && buckets@[b].pt() == check::bucket_value(ps, b) by {
                    let (from, to) = (
                        check::bucket_starts()[b] as int,
                        check::bucket_starts()[b + 1] as int,
                    );
                    let (x, y) = (
                        kernels::named_points(q, check::bucket_order(), from, to),
                        kernels::named_points(ps, check::bucket_order(), from, to),
                    );
                    assert forall|j: int| 0 <= j < to - from implies #[trigger] x[j] == y[j] by {
                        let k = check::bucket_order()[from + j] as int;
                        assert(reference::pts(q)[k] == reference::pts(ps)[k]);
                    }
                    assert(x =~= y);
                }
                let s = F::sums_of(below.contents());
                assert forall|i: int| 0 <= i < s.len() implies (#[trigger] s[i]).wf() by {}
                assert(check::jacobian_sums_of(ranges@, s));
                check::lemma_range_sums(ranges@, s, ps);
            }
        }
        (buckets, ranges)
    }

    /// The proof of the fixture on a device that may be wrong.
    fn fixture_proof(&self, fixture: &Fixture) -> (r: Result<Proof, Fault>)
        requires
            fixture.ready(),
            pipeline::launchable(fixture.zkey),
            addressable(fixture.zkey, fixture.zkey.coefficients@.len() as int),
        ensures
            exists|groups: CoefficientGroups|
                groups.of_key(fixture.zkey) && #[trigger] proof_left(
                    self.device(),
                    fixture.zkey,
                    groups,
                    fixture.witness@,
                    fixture.r,
                    fixture.s,
                    r,
                ),
            right(self.device()) && fixture.reduced() ==> r == Ok::<Proof, Fault>(
                prover::proof_of(fixture.zkey, fixture.witness@, fixture.r, fixture.s),
            ),
    {
        let groups = CoefficientGroups::from_zkey(&fixture.zkey);
        proof {
            pipeline::lemma_key_preparable(fixture.zkey, groups);
            pipeline::lemma_key_quotient(fixture.zkey, groups, fixture.witness@);
            if fixture.reduced() {
                prover::lemma_picked_ascends(fixture.zkey.coefficients@, true);
                prover::lemma_picked_ascends(fixture.zkey.coefficients@, false);
            }
        }
        let resident = self.prepare(&fixture.zkey, &groups);
        self.attempt(&resident, &fixture.witness, &fixture.r, &fixture.s)
    }

    /// What the device leaves on the cases.
    fn outputs(&self, c: &Cases, fixture: &Fixture) -> (o: Outputs)
        requires
            c.standard(),
            fixture.ready(),
            pipeline::launchable(fixture.zkey),
            addressable(fixture.zkey, fixture.zkey.coefficients@.len() as int),
        ensures
            left_by(self.device(), *c, *fixture, o),
            right(self.device()) && fixture.reduced() ==> judge::agrees(*c, *fixture, o),
    {
        let (scatter, mul, mul_sub, scale, reversed, stage) = self.vectors_out(c);
        let (windows, all) = self.digits_out(c);
        let below_g1 = c.bucket_sums_g1();
        let below_g2 = c.bucket_sums_g2();
        let pb = self.backend.upload(&pack::pack_g1(&c.g1));
        let pb2 = self.backend.upload(&pack::pack_g2(&c.g2));
        let jb = self.backend.upload(&pack::pack_jac_g1(&below_g1));
        let jb2 = self.backend.upload(&pack::pack_jac_g2(&below_g2));
        proof {
            reveal(Cases::points);
            reveal(Cases::vectors);
            pack::lemma_g1_round_trip(c.g1@, ec::g1_b_spec());
            pack::lemma_g2_round_trip(c.g2@, ec::g2_b_spec());
            pack::lemma_jac_g1_round_trip(below_g1@);
            pack::lemma_jac_g2_round_trip(below_g2@);
        }
        let (buckets_g1, ranges_g1) = self.sums_out::<Fp>(c, &pb, &jb, Ghost(c.g1@));
        let (buckets_g2, ranges_g2) = self.sums_out::<Fp2>(c, &pb2, &jb2, Ghost(c.g2@));
        let mb = self.backend.upload(&pack::pack_g1(&c.msm_g1));
        let mb2 = self.backend.upload(&pack::pack_g2(&c.msm_g2));
        let m1 = self.msm_g1(&mb, &c.msm_scalars, Ghost(c.msm_g1@));
        let m2 = self.msm_g2(&mb2, &c.msm_scalars, Ghost(c.msm_g2@));
        let made = self.fixture_proof(fixture);
        let ghost p = made;
        let o = Outputs {
            scatter_group: Ok(scatter),
            pointwise_mul: Ok(mul),
            pointwise_mul_sub: Ok(mul_sub),
            pointwise_scale: Ok(scale),
            bit_reverse: Ok(reversed),
            ntt_stage: Ok(stage),
            digits: Ok(windows),
            digits_all: Ok(all),
            bucket_sum_g1: Ok(buckets_g1),
            bucket_sum_g2: Ok(buckets_g2),
            jacobian_sum_g1: Ok(ranges_g1),
            jacobian_sum_g2: Ok(ranges_g2),
            msm_g1: reported(m1),
            msm_g2: reported(m2),
            proof: match made {
                Ok(p) => Ok(p),
                Err(f) => Err(NoProof::Pipeline(f.message())),
            },
        };
        proof {
            assert(g1_left(self.backend, c.msm_g1@, c.msm_scalars@, m1));
            assert(g2_left(self.backend, c.msm_g2@, c.msm_scalars@, m2));
            assert(proof_reported(p, o.proof));
            assert(left_by(self.backend, *c, *fixture, o));
            if right(self.backend) && fixture.reduced() {
                reveal(digits_left);
                lemma_same_points(buckets_g1@, check::bucket_values(c.g1@));
                lemma_same_points(buckets_g2@, check::bucket_values(c.g2@));
                lemma_same_points(ranges_g1@, check::range_values(c.g1@));
                lemma_same_points(ranges_g2@, check::range_values(c.g2@));
                check::lemma_affine_form(m1->0);
                check::lemma_affine_form(m2->0);
                assert(judge::agrees(*c, *fixture, o));
            }
        }
        o
    }

    /// Run every kernel, the MSM and a fixture proof against the shared cases:
    /// it localises an arithmetic, layout or orchestration fault to one kernel
    /// or one composite step. Every result is the judgement on what the device
    /// left, and a device that leaves what its launches have to passes every
    /// check.
    pub fn kernel_check(&self, fixture: &Fixture) -> (r: Vec<KernelCheck>)
        requires
            fixture.ready(),
            pipeline::launchable(fixture.zkey),
            addressable(fixture.zkey, fixture.zkey.coefficients@.len() as int),
        ensures
            r@.len() == 15,
            forall|i: int| 0 <= i < 15 ==> (#[trigger] r@[i]).kernel == judge::CHECKS[i],
            forall|i: int| 0 <= i < 15 ==> (#[trigger] r@[i]).ok == (r@[i].detail@.len() == 0),
            exists|c: Cases, o: Outputs|
                c.standard() && #[trigger] left_by(self.device(), c, *fixture, o)
                    && judge::judged(c, *fixture, o, r@),
            right(self.device()) && fixture.reduced() ==> forall|i: int|
                0 <= i < 15 ==> (#[trigger] r@[i]).ok && r@[i].detail@.len() == 0,
    {
        let c = Cases::new();
        let o = self.outputs(&c, fixture);
        let r = judge::judge(&c, fixture, &o);
        proof {
            assert(left_by(self.device(), c, *fixture, o));
            if right(self.device()) && fixture.reduced() {
                judge::lemma_judgement(c, *fixture, o, r@);
            }
        }
        r
    }
}

/// A sum, or why there is none.
fn reported<F: Field>(r: Option<Jacobian<F>>) -> (o: Result<Jacobian<F>, String>)
    ensures
        sum_reported(r, o),
{
    match r {
        Some(p) => Ok(p),
        None => Err(Fault::Digit.message()),
    }
}

/// Points that are the wanted ones one by one.
proof fn lemma_same_points<F: Field>(got: Seq<Jacobian<F>>, want: Seq<Pt<F>>)
    requires
        got.len() == want.len(),
        forall|i: int| 0 <= i < got.len() ==> (#[trigger] got[i]).wf() && got[i].pt() == want[i],
    ensures
        check::affines(got) == judge::coordinates(want),
{
    assert forall|i: int| 0 <= i < got.len() implies #[trigger] check::affines(got)[i]
        == judge::coordinates(want)[i] by {
        assert(got[i].pt() == want[i]);
        check::lemma_affine_form(got[i]);
    }
    assert(check::affines(got) =~= judge::coordinates(want));
}

} // verus!
