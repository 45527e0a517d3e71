//! Kernel bodies: one thread's work each, written as a function of the
//! output index. No body allocates, branches on data it does not own, or
//! writes anywhere but its own output.

use vstd::arithmetic::div_mod::*;
use vstd::arithmetic::mul::*;
use vstd::arithmetic::power2::*;
use vstd::prelude::*;

use crate::ec::{Affine, Jacobian};
use crate::field::{Field, Fr};
use crate::limbs;
use crate::math::curve::Pt;
use crate::math::dft;
use crate::math::group;
use crate::math::ring;
use crate::math::ring::{FieldLaws, Ring};
use crate::msm;
use crate::ntt;
use crate::prover;
use crate::scalar;

pub use crate::coeff::GroupedCoeff as Coeff;

verus! {

/// `Σ w[signal]·value` over the coefficients `from..to`.
pub open spec fn group_value(coeffs: Seq<Coeff>, witness: Seq<Fr>, from: int, to: int) -> Fr
    decreases to - from,
{
    if to <= from {
        Fr::zero_spec()
    } else {
        group_value(coeffs, witness, from, to - 1) + witness[coeffs[to - 1].signal as int]
            * coeffs[to - 1].value
    }
}

/// `starts[g]..starts[g + 1]` is a range of a sequence of the given length.
pub open spec fn range_fits(starts: Seq<u32>, g: int, len: int) -> bool {
    g + 1 < starts.len() && starts[g] <= starts[g + 1] <= len
}

/// Scatter: group `g` of the coefficient list (all coefficients of one
/// constraint) reduces to that constraint's polynomial value:
/// `Σ w[signal]·value`. `starts` has one more entry than there are groups.
#[inline]
pub fn scatter_group(g: usize, coeffs: &[Coeff], starts: &[u32], witness: &[Fr]) -> (sum: Fr)
    requires
        range_fits(starts@, g as int, coeffs@.len() as int),
        forall|i: int|
            starts@[g as int] <= i < starts@[g + 1] ==> (#[trigger] coeffs@[i]).signal
                < witness@.len(),
    ensures
        sum == group_value(
            coeffs@,
            witness@,
            starts@[g as int] as int,
            starts@[g + 1] as int,
        ),
{
    let from = starts[g] as usize;
    let to = starts[g + 1] as usize;
    let mut sum = <Fr as Field>::zero();
    let mut i = from;
    while i < to
        invariant
            from <= i <= to <= coeffs@.len(),
            forall|j: int| from <= j < to ==> (#[trigger] coeffs@[j]).signal < witness@.len(),
            sum == group_value(coeffs@, witness@, from as int, i as int),
        decreases to - i,
    {
        let c = coeffs[i];
        assert(coeffs@[i as int] == c);
        sum = sum.add(&witness[c.signal as usize].mul(&c.value));
        i = i + 1;
    }
    sum
}

/// `a[i]·b[i]`.
#[inline]
pub fn pointwise_mul(i: usize, a: &[Fr], b: &[Fr]) -> (r: Fr)
    requires
        i < a@.len(),
        i < b@.len(),
    ensures
        r == a@[i as int] * b@[i as int],
{
    a[i].mul(&b[i])
}

/// `a[i]·b[i] − c[i]`: the quotient's coset evaluations.
#[inline]
pub fn pointwise_mul_sub(i: usize, a: &[Fr], b: &[Fr], c: &[Fr]) -> (r: Fr)
    requires
        i < a@.len(),
        i < b@.len(),
        i < c@.len(),
    ensures
        r == a@[i as int] * b@[i as int] - c@[i as int],
{
    a[i].mul(&b[i]).sub(&c[i])
}

/// `a[i]·k[i]`: apply a per-index factor (coset shift powers).
#[inline]
pub fn pointwise_scale(i: usize, a: &[Fr], k: &[Fr]) -> (r: Fr)
    requires
        i < a@.len(),
        i < k@.len(),
    ensures
        r == a@[i as int] * k@[i as int],
{
    a[i].mul(&k[i])
}

/// `a[i]·k`: one factor for every index (the `1/n` of an inverse NTT).
#[inline]
pub fn scale(i: usize, a: &[Fr], k: &Fr) -> (r: Fr)
    requires
        i < a@.len(),
    ensures
        r == a@[i as int] * *k,
{
    a[i].mul(k)
}

/// Bit-reversal permutation: output `i` takes input `rev(i)`.
#[inline]
pub fn bit_reverse(i: usize, a: &[Fr], lg_n: u32) -> (r: Fr)
    requires
        pow2(lg_n as nat) <= usize::MAX,
        dft::reversed(i as nat, lg_n as nat) < a@.len(),
    ensures
        r == a@[dft::reversed(i as nat, lg_n as nat) as int],
{
    a[ntt::reverse_index(i, lg_n)]
}

/// Where butterfly `i` finds its inputs.
pub open spec fn stage_fits(i: int, n: int, len: int, table: int, stride: int) -> bool {
    let half = len / 2;
    let k = i % len;
    if k < half {
        i + half < n && k * stride < table
    } else {
        i < n && (k - half) * stride < table
    }
}

/// Output `i` of a stage whose twiddles stand in a table at multiples of `stride`.
pub open spec fn table_butterfly(
    i: int,
    a: Seq<Fr>,
    len: int,
    twiddles: Seq<Fr>,
    stride: int,
) -> Fr {
    let half = len / 2;
    let k = i % len;
    if k < half {
        a[i] + a[i + half] * twiddles[k * stride]
    } else {
        a[i - half] - a[i] * twiddles[(k - half) * stride]
    }
}

/// One radix-2 Cooley–Tukey stage, out of place: for stage length `len`
/// (a power of two ≥ 2) with the primitive `len`-th root's powers in
/// `twiddles[k·stride]` (`stride = n / len`, table of `omega^j` for `j < n/2`),
/// output `i` is the upper or lower half of its butterfly.
#[inline]
pub fn ntt_stage(i: usize, a: &[Fr], len: usize, twiddles: &[Fr], stride: usize) -> (r: Fr)
    requires
        len >= 1,
        stage_fits(i as int, a@.len() as int, len as int, twiddles@.len() as int, stride as int),
    ensures
        r == table_butterfly(i as int, a@, len as int, twiddles@, stride as int),
{
    let n = a.len();
    let table = twiddles.len();
    let half = len / 2;
    let k = i % len;
    if k < half {
        // u + w·v
        let u = a[i];
        let v = a[i + half].mul(&twiddles[k * stride]);
        u.add(&v)
    } else {
        // u − w·v
        proof {
            lemma_mod_decreases(i as nat, len as nat);
            lemma_mul_nonnegative((k - half) as int, stride as int);
        }
        let u = a[i - half];
        let v = a[i].mul(&twiddles[(k - half) * stride]);
        u.sub(&v)
    }
}

/// The `w`-bit digit `window` of scalar `i` (canonical limbs).
#[inline]
pub fn digit(i: usize, scalars: &[[u64; 4]], window: u32, w: u32) -> (d: u32)
    requires
        i < scalars@.len(),
        w <= 32,
        window * w <= u32::MAX,
    ensures
        d == scalar::digit_of(limbs::value(scalars@[i as int]), window as nat, w as nat),
        d < pow2(w as nat),
{
    proof {
        lemma2_to64();
        if w < 32 {
            lemma_pow2_strictly_increases(w as nat, 32);
        }
    }
    scalar::digit(&scalars[i], window, w) as u32
}

/// Every window's digits in one launch: output `i` is scalar `i % n`'s
/// digit for window `i / n` (`n = scalars.len()`), so the host reads one
/// buffer of `windows · n` digits instead of one per window.
#[inline]
pub fn digit_all(i: usize, scalars: &[[u64; 4]], w: u32) -> (d: u32)
    requires
        scalars@.len() > 0,
        w <= 32,
        i / (scalars@.len() as usize) <= u32::MAX,
        (i / (scalars@.len() as usize)) * w <= u32::MAX,
    ensures
        d == scalar::digit_of(
            limbs::value(scalars@[i as int % scalars@.len() as int]),
            (i as int / scalars@.len() as int) as nat,
            w as nat,
        ),
        d < pow2(w as nat),
{
    let n = scalars.len();
    digit(i % n, scalars, (i / n) as u32, w)
}

/// The points that `order[from..to]` names.
pub open spec fn named_points<F: Field>(
    points: Seq<Affine<F>>,
    order: Seq<u32>,
    from: int,
    to: int,
) -> Seq<Pt<F>> {
    Seq::new((to - from) as nat, |j: int| points[order[from + j] as int].pt())
}

/// Bucket sum for bucket `b` (digit `b + 1`): the points whose digit is
/// `b + 1` occupy `order[starts[b]..starts[b + 1]]` after the host's
/// counting sort; add them into one Jacobian accumulator.
#[inline]
pub fn bucket_sum<F: Field>(
    b: usize,
    points: &[Affine<F>],
    order: &[u32],
    starts: &[u32],
) -> (acc: Jacobian<F>)
    requires
        range_fits(starts@, b as int, order@.len() as int),
        forall|j: int|
            starts@[b as int] <= j < starts@[b + 1] ==> #[trigger] order@[j] < points@.len(),
    ensures
        (forall|i: int| 0 <= i < points@.len() ==> (#[trigger] points@[i]).wf()) ==> acc.wf()
            && acc.pt() == group::sum(
            named_points(points@, order@, starts@[b as int] as int, starts@[b + 1] as int),
        ),
{
    let from = starts[b] as usize;
    let to = starts[b + 1] as usize;
    let mut acc = Jacobian::<F>::infinity();
    let mut i = from;
    let ghost wf = forall|i: int| 0 <= i < points@.len() ==> (#[trigger] points@[i]).wf();
    while i < to
        invariant
            from <= i <= to <= order@.len(),
            forall|j: int| from <= j < to ==> #[trigger] order@[j] < points@.len(),
            wf == (forall|i: int| 0 <= i < points@.len() ==> (#[trigger] points@[i]).wf()),
            wf ==> acc.wf() && acc.pt() == group::sum(
                named_points(points@, order@, from as int, i as int),
            ),
        decreases to - i,
    {
        let p = order[i] as usize;
        assert(order@[i as int] < points@.len());
        acc = acc.add_affine(&points[p]);
        proof {
            let s = named_points(points@, order@, from as int, i + 1);
            assert(s.drop_last() =~= named_points(points@, order@, from as int, i as int));
        }
        i = i + 1;
    }
    acc
}

/// Sum of the Jacobian points `sums[starts[b]..starts[b + 1]]`: one level
/// of the bounded-chain reduction above `bucket_sum`
/// (`pipeline::plan_ranges`): the pieces of a bucket, then the pieces of
/// those, until one thread's chain is short everywhere.
#[inline]
pub fn jacobian_sum<F: Field>(b: usize, sums: &[Jacobian<F>], starts: &[u32]) -> (acc: Jacobian<F>)
    requires
        range_fits(starts@, b as int, sums@.len() as int),
    ensures
        (forall|i: int| 0 <= i < sums@.len() ==> (#[trigger] sums@[i]).wf()) ==> acc.wf()
            && acc.pt() == group::sum(
            msm::jacobian_pts(sums@).subrange(starts@[b as int] as int, starts@[b + 1] as int),
        ),
{
    let from = starts[b] as usize;
    let to = starts[b + 1] as usize;
    let mut acc = Jacobian::<F>::infinity();
    let mut i = from;
    let ghost wf = forall|i: int| 0 <= i < sums@.len() ==> (#[trigger] sums@[i]).wf();
    let ghost s = msm::jacobian_pts(sums@);
    while i < to
        invariant
            from <= i <= to <= sums@.len(),
            s == msm::jacobian_pts(sums@),
            wf == (forall|i: int| 0 <= i < sums@.len() ==> (#[trigger] sums@[i]).wf()),
            wf ==> acc.wf() && acc.pt() == group::sum(s.subrange(from as int, i as int)),
        decreases to - i,
    {
        acc = acc.add(&sums[i]);
        proof {
            let t = s.subrange(from as int, i + 1);
            assert(t.drop_last() =~= s.subrange(from as int, i as int));
        }
        i = i + 1;
    }
    acc
}

/// With a table of powers of `omega`, a stage is that of the transform with the root
/// `omega^stride`.
pub proof fn lemma_table_butterfly(
    i: int,
    a: Seq<Fr>,
    len: int,
    omega: Fr,
    count: nat,
    stride: nat,
)
    requires
        omega.wf(),
        0 <= i < a.len(),
        len >= 2,
        len % 2 == 0,
        stride > 0,
        (len / 2) * stride <= count,
        a.len() % (len as nat) == 0,
    ensures
        stage_fits(i, a.len() as int, len, count as int, stride as int),
        table_butterfly(i, a, len, prover::powers_of(omega, count), stride as int) == dft::butterfly(a, len, ring::power(omega, stride), i),
{
    let half = len / 2;
    let k = i % len;
    dft::lemma_block_fits(i, a.len() as int, len);
    let j = if k < half {
        k
    } else {
        k - half
    };
    assert(j * stride < half * stride) by (nonlinear_arith)
        requires
            0 <= j < half,
            stride > 0,
    ;
    assert(0 <= j * stride) by (nonlinear_arith)
        requires
            0 <= j,
            stride > 0,
    ;
    ring::lemma_power_multiplies(omega, stride, j as nat);
    assert(stride * (j as nat) == j * stride) by (nonlinear_arith)
        requires
            j >= 0,
    ;
}

} // verus!
