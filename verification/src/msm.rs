//! Multi-scalar multiplication `Σ kᵢ·Pᵢ`: a naive form that is obviously right
//! and the windowed bucket method (Pippenger) that the kernels implement too,
//! so the reference and the kernels share the algorithm.

use vstd::arithmetic::div_mod::*;
use vstd::arithmetic::mul::*;
use vstd::arithmetic::power2::*;
use vstd::bits::*;
use vstd::prelude::*;

use crate::ec::{Affine, Jacobian};
use crate::field::{Field, Fr};
use crate::limbs;
use crate::math::curve;
use crate::math::curve::Pt;
use crate::math::group;
use crate::math::ring::{FieldLaws, Ring};
use crate::prover;
use crate::scalar;
use crate::scalar::digit;

verus! {

/// The points that affine coordinates stand for.
pub open spec fn pts<F: Field>(points: Seq<Affine<F>>) -> Seq<Pt<F>> {
    Seq::new(points.len(), |i: int| points[i].pt())
}

/// The points that Jacobian coordinates stand for.
pub open spec fn jacobian_pts<F: Field>(points: Seq<Jacobian<F>>) -> Seq<Pt<F>> {
    Seq::new(points.len(), |i: int| points[i].pt())
}

/// The residues of scalars.
pub open spec fn vals(scalars: Seq<Fr>) -> Seq<nat> {
    Seq::new(scalars.len(), |i: int| scalars[i].val() as nat)
}

/// Reduced points on the smooth curve `y² = x³ + b`.
pub open spec fn on_curve<F: Field>(points: Seq<Affine<F>>, b: F) -> bool {
    curve::smooth(b) && forall|i: int|
        0 <= i < points.len() ==> (#[trigger] points[i]).wf() && points[i].pt().on(b)
}

/// Reduced points in Jacobian coordinates on such a curve.
pub open spec fn jacobians_on_curve<F: Field>(points: Seq<Jacobian<F>>, b: F) -> bool {
    curve::smooth(b) && forall|i: int|
        0 <= i < points.len() ==> (#[trigger] points[i]).wf() && points[i].pt().on(b)
}

/// Reduced points on one smooth curve.
pub open spec fn curve_points<F: Field>(points: Seq<Affine<F>>) -> bool {
    exists|b: F| #[trigger] on_curve(points, b)
}

/// Residues are natural numbers.
pub proof fn lemma_val_nonnegative(k: Fr)
    ensures
        0 <= k.val() < crate::field::fr_modulus().m,
{
    crate::field::lemma_fr_modulus();
    lemma_mod_bound(k.raw() * crate::field::fr_modulus().rinv, crate::field::fr_modulus().m);
}

/// The canonical values of scalars.
pub fn canonical_scalars(scalars: &[Fr]) -> (r: Vec<[u64; 4]>)
    ensures
        r@.len() == scalars@.len(),
        forall|i: int| 0 <= i < r@.len() ==> limbs::value(#[trigger] r@[i]) == scalars@[i].val(),
{
    let mut r: Vec<[u64; 4]> = Vec::with_capacity(scalars.len());
    let mut i: usize = 0;
    while i < scalars.len()
        invariant
            i <= scalars@.len(),
            r@.len() == i,
            forall|j: int| 0 <= j < i ==> limbs::value(#[trigger] r@[j]) == scalars@[j].val(),
        decreases scalars@.len() - i,
    {
        r.push(scalars[i].to_canonical());
        i = i + 1;
    }
    r
}

/// `Σ kᵢ·Pᵢ` by independent scalar multiplications; the reference for
/// [`msm_pippenger`] and for kernels.
pub fn msm_naive<F: Field>(points: &[Affine<F>], scalars: &[Fr]) -> (acc: Jacobian<F>)
    requires
        points@.len() == scalars@.len(),
    ensures
        (forall|i: int| 0 <= i < points@.len() ==> (#[trigger] points@[i]).wf()) ==> acc.wf()
            && acc.pt() == group::sum(
            Seq::new(
                points@.len(),
                |i: int| group::doubled(points@[i].pt(), scalars@[i].val() as nat),
            ),
        ),
        curve_points(points@) ==> acc.wf() && acc.pt() == group::weighted(
            pts(points@),
            vals(scalars@),
        ),
{
    let mut acc = Jacobian::<F>::infinity();
    let mut i: usize = 0;
    let ghost terms = Seq::new(
        points@.len(),
        |i: int| group::doubled(points@[i].pt(), scalars@[i].val() as nat),
    );
    let ghost wf = forall|i: int| 0 <= i < points@.len() ==> (#[trigger] points@[i]).wf();
    while i < points.len()
        invariant
            i <= points@.len(),
            points@.len() == scalars@.len(),
            terms == Seq::new(
                points@.len(),
                |i: int| group::doubled(points@[i].pt(), scalars@[i].val() as nat),
            ),
            wf == (forall|i: int| 0 <= i < points@.len() ==> (#[trigger] points@[i]).wf()),
            wf ==> acc.wf() && acc.pt() == group::sum(terms.take(i as int)),
        decreases points@.len() - i,
    {
        acc = acc.add(&points[i].to_jacobian().mul(&scalars[i]));
        proof {
            assert(terms.take(i + 1).drop_last() =~= terms.take(i as int));
        }
        i = i + 1;
    }
    proof {
        assert(terms.take(i as int) =~= terms);
        if curve_points(points@) {
            let b = choose|b: F| #[trigger] on_curve(points@, b);
            let p = pts(points@);
            let k = vals(scalars@);
            let t = Seq::new(p.len(), |i: int| group::times(p[i], k[i]));
            assert forall|i: int| 0 <= i < terms.len() implies #[trigger] terms[i] == t[i] by {
                assert(points@[i].wf());
                group::lemma_doubled(points@[i].pt(), scalars@[i].val() as nat, b);
            }
            assert(terms =~= t);
        }
    }
    acc
}

/// The number of `w`-bit windows of a 256-bit scalar.
pub open spec fn window_count(w: int) -> int {
    (256 + w - 1) / w
}

/// The number of `w`-bit windows of a 256-bit scalar.
pub fn windows_of(w: u32) -> (r: u32)
    requires
        1 <= w <= 256,
    ensures
        r == window_count(w as int),
        1 <= r <= 256,
        256 <= r * w < 256 + w,
{
    let r: u32 = (256 + w - 1) / w;
    proof {
        lemma_fundamental_div_mod((256 + w - 1) as int, w as int);
        lemma_mod_bound((256 + w - 1) as int, w as int);
        lemma_mul_is_commutative(r as int, w as int);
        assert(1 <= r <= 256) by (nonlinear_arith)
            requires
                256 <= r * w < 256 + w,
                w >= 1,
        ;
    }
    r
}

/// A vector of `n` identities.
pub fn identities<F: Field>(n: usize) -> (r: Vec<Jacobian<F>>)
    ensures
        r@.len() == n,
        forall|i: int| 0 <= i < n ==> (#[trigger] r@[i]) == Jacobian::<F>::infinity_spec(),
{
    let mut r: Vec<Jacobian<F>> = Vec::with_capacity(n);
    let mut i: usize = 0;
    while i < n
        invariant
            i <= n,
            r@.len() == i,
            forall|j: int| 0 <= j < i ==> (#[trigger] r@[j]) == Jacobian::<F>::infinity_spec(),
        decreases n - i,
    {
        r.push(Jacobian::<F>::infinity());
        i = i + 1;
    }
    r
}

/// What the windows from `from` up make of each scalar.
pub open spec fn leading_parts(canonical: Seq<[u64; 4]>, shift: nat) -> Seq<nat> {
    Seq::new(canonical.len(), |i: int| (limbs::value(canonical[i]) / (pow2(shift) as int)) as nat)
}

/// One window's digits.
pub open spec fn window_digits(canonical: Seq<[u64; 4]>, window: nat, w: nat) -> Seq<nat> {
    Seq::new(
        canonical.len(),
        |i: int| scalar::digit_of(limbs::value(canonical[i]), window, w) as nat,
    )
}

/// A number is its leading part times the base plus its digit.
proof fn lemma_window_step(v: int, window: nat, w: nat)
    requires
        v >= 0,
    ensures
        v / (pow2(window * w) as int) == (v / (pow2((window + 1) * w) as int)) * pow2(w)
            + scalar::digit_of(v, window, w),
        scalar::digit_of(v, window, w) >= 0,
        v / (pow2((window + 1) * w) as int) >= 0,
        v / (pow2(window * w) as int) >= 0,
{
    let (p, m) = (pow2(window * w) as int, pow2(w) as int);
    lemma_pow2_pos(window * w);
    lemma_pow2_pos(w);
    assert((window + 1) * w == window * w + w) by (nonlinear_arith);
    lemma_pow2_adds(window * w, w);
    lemma_div_denominator(v, p, m);
    lemma_fundamental_div_mod(v / p, m);
    lemma_mul_is_commutative(m, (v / p) / m);
    lemma_mod_bound(v / p, m);
    lemma_div_pos_is_pos(v, p);
    lemma_div_pos_is_pos(v / p, m);
}

/// Horner's rule for one window.
pub proof fn lemma_horner_step<F: Field>(
    p: Seq<Pt<F>>,
    canonical: Seq<[u64; 4]>,
    window: nat,
    w: nat,
    b: F,
)
    requires
        curve::smooth(b),
        group::all_on(p, b),
        p.len() == canonical.len(),
    ensures
        group::weighted(p, leading_parts(canonical, window * w)) == group::times(
            group::weighted(p, leading_parts(canonical, (window + 1) * w)),
            pow2(w),
        ).plus(group::weighted(p, window_digits(canonical, window, w))),
{
    let high = leading_parts(canonical, (window + 1) * w);
    let low = window_digits(canonical, window, w);
    let all = leading_parts(canonical, window * w);
    assert forall|i: int| 0 <= i < p.len() implies #[trigger] all[i] == high[i] * pow2(w)
        + low[i] by {
        limbs::lemma_value(canonical[i]);
        lemma_window_step(limbs::value(canonical[i]), window, w);
    }
    group::lemma_weighted_linear(p, high, low, all, pow2(w), b);
}

/// Above the top window nothing is left, and below the lowest everything.
pub proof fn lemma_horner_ends<F: Field>(
    p: Seq<Pt<F>>,
    canonical: Seq<[u64; 4]>,
    scalars: Seq<Fr>,
    top: nat,
)
    requires
        top >= 256,
        p.len() == canonical.len() == scalars.len(),
        forall|i: int|
            0 <= i < scalars.len() ==> limbs::value(#[trigger] canonical[i]) == scalars[i].val(),
    ensures
        group::weighted(p, leading_parts(canonical, top)) == Pt::<F>::Infinity,
        leading_parts(canonical, 0) == vals(scalars),
{
    let z = leading_parts(canonical, top);
    let t = Seq::new(p.len(), |i: int| group::times(p[i], z[i]));
    assert forall|i: int| 0 <= i < t.len() implies #[trigger] t[i] == Pt::<F>::Infinity by {
        limbs::lemma_tail(canonical[i], 4);
        limbs::lemma_value(canonical[i]);
        lemma_pow2_adds(256, (top - 256) as nat);
        lemma_pow2_pos(256);
        lemma_pow2_pos((top - 256) as nat);
        lemma_div_denominator(
            limbs::value(canonical[i]),
            pow2(256) as int,
            pow2((top - 256) as nat) as int,
        );
        lemma_div_of0(pow2((top - 256) as nat) as int);
        assert(z[i] == 0);
    }
    group::lemma_sum_identities(t);
    lemma2_to64();
    assert forall|i: int| 0 <= i < canonical.len() implies #[trigger] leading_parts(canonical, 0)[i]
        == vals(scalars)[i] by {
        lemma_div_basics(limbs::value(canonical[i]));
    }
    assert(leading_parts(canonical, 0) =~= vals(scalars));
}

/// The number that the lowest `n` digits of width `w` stand for.
pub open spec fn reassembled(v: int, w: nat, n: nat) -> int
    decreases n,
{
    if n == 0 {
        0
    } else {
        reassembled(v, w, (n - 1) as nat) + scalar::digit_of(v, (n - 1) as nat, w) * pow2(
            ((n - 1) * w) as nat,
        )
    }
}

/// The lowest digits and what is above them make up the number.
proof fn lemma_reassembled(v: int, w: nat, n: nat)
    requires
        v >= 0,
    ensures
        reassembled(v, w, n) + (v / (pow2(n * w) as int)) * pow2(n * w) == v,
    decreases n,
{
    if n == 0 {
        lemma2_to64();
        lemma_div_basics(v);
        assert(n * w == 0) by (nonlinear_arith)
            requires
                n == 0,
        ;
        let one = pow2(n * w) as int;
        assert((v / one) * one == v) by (nonlinear_arith)
            requires
                one == 1,
        ;
    } else {
        let k = (n - 1) as nat;
        lemma_reassembled(v, w, k);
        lemma_window_step(v, k, w);
        assert(k + 1 == n);
        assert((k + 1) * w == k * w + w) by (nonlinear_arith);
        assert(n * w == k * w + w);
        assert((n - 1) * w == k * w);
        lemma_pow2_adds(k * w, w);
        let (a, b) = (pow2(k * w) as int, pow2(w) as int);
        let (high, d) = (v / (pow2(n * w) as int), scalar::digit_of(v, k, w));
        assert(pow2(n * w) == a * b);
        assert(v / a == high * b + d);
        assert((v / a) * a == high * (a * b) + d * a) by (nonlinear_arith)
            requires
                v / a == high * b + d,
        ;
        assert(reassembled(v, w, n) == reassembled(v, w, k) + d * a);
    }
}

/// The digits of a 256-bit scalar over enough windows reassemble it.
pub proof fn lemma_digits_reassemble(scalar: [u64; 4], w: nat, n: nat)
    requires
        n * w >= 256,
    ensures
        reassembled(limbs::value(scalar), w, n) == limbs::value(scalar),
{
    let v = limbs::value(scalar);
    limbs::lemma_value(scalar);
    limbs::lemma_tail(scalar, 4);
    lemma_reassembled(v, w, n);
    let rest = (n * w - 256) as nat;
    lemma_pow2_adds(256, rest);
    lemma_pow2_pos(256);
    lemma_pow2_pos(rest);
    lemma_div_denominator(v, pow2(256) as int, pow2(rest) as int);
    lemma_div_of0(pow2(rest) as int);
    let top = pow2(n * w) as int;
    assert(v / top == 0);
    assert((v / top) * top == 0) by (nonlinear_arith)
        requires
            v / top == 0,
    ;
}

/// Doubling `w` times multiplies by `2^w`.
pub fn double_times<F: Field>(p: &Jacobian<F>, w: u32) -> (r: Jacobian<F>)
    ensures
        p.wf() ==> r.wf(),
        forall|b: F|
            curve::smooth(b) && p.wf() && #[trigger] p.pt().on(b) ==> r.pt() == group::times(
                p.pt(),
                pow2(w as nat),
            ),
{
    let mut r = *p;
    let mut i: u32 = 0;
    proof {
        lemma2_to64();
        group::lemma_times_small(p.pt());
    }
    while i < w
        invariant
            i <= w,
            p.wf() ==> r.wf(),
            forall|b: F|
                curve::smooth(b) && p.wf() && #[trigger] p.pt().on(b) ==> r.pt() == group::times(
                    p.pt(),
                    pow2(i as nat),
                ),
        decreases w - i,
    {
        let ghost before = r;
        r = r.double();
        proof {
            lemma_pow2_unfold((i + 1) as nat);
            assert forall|b: F| curve::smooth(b) && p.wf() && #[trigger] p.pt().on(b) implies r.pt()
                == group::times(p.pt(), pow2((i + 1) as nat)) by {
                group::lemma_times_adds(p.pt(), pow2(i as nat), pow2(i as nat), b);
            }
        }
        i = i + 1;
    }
    r
}

/// One window of the bucket method: add every point to the bucket of its digit
/// and reduce the buckets by a running sum.
fn window_sum<F: Field>(
    points: &[Affine<F>],
    canonical: &[[u64; 4]],
    window: u32,
    w: u32,
) -> (r: Jacobian<F>)
    requires
        points@.len() == canonical@.len(),
        1 <= w <= 20,
        window * w <= u32::MAX,
    ensures
        curve_points(points@) ==> r.wf() && r.pt() == group::weighted(
            pts(points@),
            window_digits(canonical@, window as nat, w as nat),
        ),
{
    proof {
        lemma2_to64();
        lemma_usize_shl_is_mul(1, w as usize);
        lemma_pow2_strictly_increases(0, w as nat);
        if w < 20 {
            lemma_pow2_strictly_increases(w as nat, 20);
        }
    }
    let size: usize = 1usize << (w as usize);
    let mut buckets = identities::<F>(size - 1);
    let ghost curve = curve_points(points@);
    let ghost b = choose|b: F| #[trigger] on_curve(points@, b);
    let ghost p = pts(points@);
    let ghost d = window_digits(canonical@, window as nat, w as nat);
    let mut i: usize = 0;
    proof {
        F::constants_wf();
        group::lemma_counted_empty(jacobian_pts(buckets@));
    }
    while i < points.len()
        invariant
            i <= points@.len(),
            points@.len() == canonical@.len(),
            1 <= w <= 20,
            window * w <= u32::MAX,
            buckets@.len() == pow2(w as nat) - 1,
            pow2(w as nat) <= 0x10_0000,
            p == pts(points@),
            d == window_digits(canonical@, window as nat, w as nat),
            curve == curve_points(points@),
            curve ==> on_curve(points@, b),
            curve ==> jacobians_on_curve(buckets@, b),
            curve ==> group::counted(jacobian_pts(buckets@)) == group::weighted(
                p.take(i as int),
                d,
            ),
        decreases points@.len() - i,
    {
        let e = digit(&canonical[i], window, w);
        proof {
            group::lemma_weighted_step(p, d, i as int);
            assert(d[i as int] == e);
        }
        if e != 0 {
            let j: usize = (e - 1) as usize;
            let ghost before = buckets@;
            let sum = buckets[j].add_affine(&points[i]);
            buckets[j] = sum;
            proof {
                if curve {
                    let s = jacobian_pts(before);
                    assert(points@[i as int].wf());
                    assert(before[j as int].wf());
                    group::lemma_counted_update(s, j as int, p[i as int], b);
                    assert(jacobian_pts(buckets@) =~= s.update(
                        j as int,
                        s[j as int].plus(p[i as int]),
                    ));
                    curve::lemma_plus_on(s[j as int], p[i as int], b);
                }
            }
        } else {
            proof {
                if curve {
                    group::lemma_plus_identity(group::weighted(p.take(i as int), d));
                }
            }
        }
        i = i + 1;
    }
    proof {
        assert(p.take(i as int) =~= p);
    }
    prover::reduce_buckets(&buckets)
}

/// `Σ kᵢ·Pᵢ` by the windowed bucket method with `w`-bit windows
/// (`1 <= w <= 20`): per window, add every point to the bucket of its digit,
/// reduce the buckets by a running sum, and combine windows by Horner's rule.
pub fn msm_pippenger<F: Field>(points: &[Affine<F>], scalars: &[Fr], w: u32) -> (result: Jacobian<F>)
    requires
        points@.len() == scalars@.len(),
        1 <= w <= 20,
    ensures
        curve_points(points@) ==> result.wf() && result.pt() == group::weighted(
            pts(points@),
            vals(scalars@),
        ),
{
    let canonical = canonical_scalars(scalars);
    let windows = windows_of(w);
    let mut result = Jacobian::<F>::infinity();
    let ghost curve = curve_points(points@);
    let ghost b = choose|b: F| #[trigger] on_curve(points@, b);
    let ghost p = pts(points@);
    let mut window: u32 = windows;
    proof {
        lemma_horner_ends(p, canonical@, scalars@, (windows * w) as nat);
    }
    while window > 0
        invariant
            window <= windows,
            windows * w < 512,
            1 <= w <= 20,
            points@.len() == scalars@.len(),
            canonical@.len() == points@.len(),
            p == pts(points@),
            curve == curve_points(points@),
            curve ==> on_curve(points@, b),
            curve ==> result.wf() && result.pt() == group::weighted(
                p,
                leading_parts(canonical@, (window * w) as nat),
            ),
        decreases window,
    {
        proof {
            lemma_mul_inequality(window as int, windows as int, w as int);
            lemma_mul_inequality(window - 1, windows as int, w as int);
            if curve {
                assert(group::all_on(p, b));
                group::lemma_weighted_on(p, leading_parts(canonical@, (window * w) as nat), b);
                lemma_horner_step(p, canonical@, (window - 1) as nat, w as nat, b);
            }
        }
        window = window - 1;
        let doubled = double_times(&result, w);
        let sum = window_sum(points, &canonical, window, w);
        result = doubled.add(&sum);
    }
    proof {
        lemma_mul_basics(w as int);
        lemma_horner_ends(p, canonical@, scalars@, 256);
    }
    result
}

} // verus!
