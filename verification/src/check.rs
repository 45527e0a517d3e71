//! The per-kernel check, as data: one deterministic set of inputs and the
//! expected outputs computed with the kernel bodies, shared by every device.
//! A device only uploads, launches, reads and compares, so the cases are the
//! same everywhere.
//!
//! Coverage: full-width scalars over EVERY window of the MSM digit extraction;
//! bucket sums with an affine point at infinity, an empty bucket, `P + (−P)`
//! and `P + P`, on G1 AND G2; an end-to-end MSM against the naive sum; and a
//! whole proof against the reference prover with fixed blinding.

use vstd::arithmetic::power2::*;
use vstd::prelude::*;

use crate::coeff::GroupedCoeff;
use crate::ec;
use crate::ec::{Affine, Jacobian};
use crate::field;
use crate::field::{Field, Fp, Fr};
use crate::fp2::Fp2;
use crate::generators;
use crate::kernels;
use crate::limbs;
use crate::math::curve;
use crate::math::dft;
use crate::math::group;
use crate::math::ring;
use crate::math::ring::{FieldLaws, Ring};
use crate::msm;
use crate::msm::msm_naive;
use crate::pipeline::WINDOW_BITS;
use crate::prover;
use crate::reading;
use crate::prover::{Proof, ProveError};
use crate::scalar;
use crate::show::Show;
use crate::text;
use crate::zkey;
use crate::zkey::{parse_wtns, WtnsError, Zkey, ZkeyError};

verus! {

/// Number of MSM windows for 256-bit scalars.
pub const WINDOWS: u32 = 22;

/// One kernel-check result.
#[derive(Clone, Debug)]
pub struct KernelCheck {
    /// Kernel (or composite step) name.
    pub kernel: &'static str,
    /// Agreement with the kernel bodies.
    pub ok: bool,
    /// What differed, when it did.
    pub detail: String,
}

impl KernelCheck {
    /// A result from a "what differed" string: empty means agreement.
    pub fn from_detail(kernel: &'static str, detail: String) -> (r: Self)
        ensures
            r.kernel == kernel,
            r.ok == (detail@.len() == 0),
            r.detail@ == detail@,
    {
        Self { kernel, ok: detail.as_str().unicode_len() == 0, detail }
    }

    /// A result from the comparison of what a launch left, or from its failure.
    pub fn from_result(kernel: &'static str, result: Result<String, String>) -> (r: Self)
        ensures
            r.kernel == kernel,
            r.ok == (r.detail@.len() == 0),
            r.detail@ == match result {
                Ok(detail) => detail@,
                Err(e) => "launch failed: "@ + e@,
            },
    {
        match result {
            Ok(detail) => KernelCheck::from_detail(kernel, detail),
            Err(e) => {
                let mut detail = text::owned("launch failed: ");
                text::push(&mut detail, e.as_str());
                KernelCheck::from_detail(kernel, detail)
            },
        }
    }
}

// ---- the inputs --------------------------------------------------------------------------------

/// The first state of the generator.
pub const SEED: u64 = 0x9e37_79b9_7f4a_7c15;

/// One step of the generator.
pub open spec fn stepped(s: u64) -> u64 {
    let a = s ^ (s << 13u64);
    let b = a ^ (a >> 7u64);
    b ^ (b << 17u64)
}

/// A step loses nothing: two states go to two states, and none but zero goes to zero.
pub proof fn lemma_step_is_reversible(s: u64, t: u64)
    ensures
        s != t ==> stepped(s) != stepped(t),
        stepped(s) == 0 <==> s == 0,
{
    let (a, c) = (s ^ (s << 13u64), t ^ (t << 13u64));
    let (b, d) = (a ^ (a >> 7u64), c ^ (c >> 7u64));
    assert(s != t ==> s ^ (s << 13u64) != t ^ (t << 13u64)) by (bit_vector);
    assert(a != c ==> a ^ (a >> 7u64) != c ^ (c >> 7u64)) by (bit_vector);
    assert(b != d ==> b ^ (b << 17u64) != d ^ (d << 17u64)) by (bit_vector);
    assert(stepped(0) == 0) by (bit_vector);
    assert(stepped(s) == 0 ==> s == 0) by (bit_vector);
}

/// The state after `k` steps.
pub open spec fn state(k: nat) -> u64
    decreases k,
{
    if k == 0 {
        SEED
    } else {
        stepped(state((k - 1) as nat))
    }
}

/// One step of the generator; the new state is the number drawn.
pub(crate) fn next(s: &mut u64) -> (r: u64)
    ensures
        r == stepped(*old(s)),
        *final(s) == r,
{
    let a = *s ^ (*s << 13u64);
    let b = a ^ (a >> 7u64);
    let c = b ^ (b << 17u64);
    *s = c;
    c
}

/// A small field element, from the `k`-th number drawn.
pub open spec fn small_element(k: int) -> Fr {
    Fr::of((state(k as nat) >> 2u64) as int)
}

/// The limbs of a full-width scalar, from four numbers drawn after the `k`-th.
pub open spec fn wide_limbs(k: int) -> Seq<u64> {
    seq![
        state((k + 1) as nat),
        state((k + 2) as nat),
        state((k + 3) as nat),
        state((k + 4) as nat) >> 3u64,
    ]
}

/// The number that four limbs stand for.
pub open spec fn limbs_number(l: Seq<u64>) -> int {
    l[0] + l[1] * 0x1_0000_0000_0000_0000 + l[2] * 0x1_0000_0000_0000_0000_0000_0000_0000_0000
        + l[3] * 0x1_0000_0000_0000_0000_0000_0000_0000_0000_0000_0000_0000_0000
}

/// The inputs.
pub struct Cases {
    /// Element count of the vector cases (a power of two).
    pub n: usize,
    /// `log2(n)`.
    pub lg_n: u32,
    /// Three vectors of small field elements (`< 2^62`).
    pub fr: Vec<Fr>,
    /// Second vector.
    pub fr2: Vec<Fr>,
    /// Third vector.
    pub fr3: Vec<Fr>,
    /// The by-value scalar of `pointwise_scale`.
    pub n_inv: Fr,
    /// `n` full-width scalars (`< 2^253`), for `digits` and the MSM.
    pub wide: Vec<Fr>,
    /// Scatter: `n` coefficients in 8 groups of `n / 8`.
    pub coeffs: Vec<GroupedCoeff>,
    /// Scatter group starts (9 entries).
    pub starts: Vec<u32>,
    /// NTT stage length under test.
    pub stage_len: usize,
    /// Its twiddle stride (`n / stage_len`).
    pub stage_stride: usize,
    /// G1 points: `1G..=8G`, the point at infinity, `−G`.
    pub g1: Vec<Affine<Fp>>,
    /// G2 points, the same shape.
    pub g2: Vec<Affine<Fp2>>,
    /// Bucket order over the 10 points.
    pub order: Vec<u32>,
    /// Bucket starts: `{G,2G,3G} {∞} {G,−G} {} {5G..8G}`.
    pub bstarts: Vec<u32>,
    /// Ranges over the bucket sums for `jacobian_sum`: `{B0,B1} {} {B2,B3,B4}`
    /// (a two-term sum, an empty range, a run through infinity).
    pub jstarts: Vec<u32>,
    /// 64 G1 points for the end-to-end MSM.
    pub msm_g1: Vec<Affine<Fp>>,
    /// 64 G2 points for the end-to-end MSM.
    pub msm_g2: Vec<Affine<Fp2>>,
    /// Their scalars (the first 64 of `wide`).
    pub msm_scalars: Vec<Fr>,
}

/// The bucket case's points: the first eight multiples of `G`, the identity, and `−G`.
pub open spec fn bucket_points<F: Field>(points: Seq<Affine<F>>, g: Affine<F>, b: F) -> bool {
    &&& points.len() == 10
    &&& msm::on_curve(points, b)
    &&& forall|k: int|
        0 <= k < 8 ==> (#[trigger] points[k]).pt() == group::times(g.pt(), (k + 1) as nat)
    &&& points[8] == Affine::<F>::infinity_spec()
    &&& points[9].pt() == points[0].pt().negated()
}

/// The MSM case's points: the multiples `3k + 1` of `G`, for `k` from 1 on.
pub open spec fn msm_points<F: Field>(points: Seq<Affine<F>>, g: Affine<F>, b: F) -> bool {
    &&& points.len() == 64
    &&& msm::on_curve(points, b)
    &&& forall|k: int|
        0 <= k < 64 ==> (#[trigger] points[k]).pt() == group::times(g.pt(), (3 * (k + 1) + 1) as nat)
}

impl Cases {
    /// Field elements of the vector cases.
    #[verifier::opaque]
    pub open spec fn vectors(self) -> bool {
        &&& self.fr@ == Seq::new(64, |i: int| small_element(i + 1))
        &&& self.fr2@ == Seq::new(64, |i: int| small_element(i + 65))
        &&& self.fr3@ == Seq::new(64, |i: int| small_element(i + 129))
        &&& self.n_inv == self.fr3@[0]
        &&& self.wide@ == Seq::new(64, |i: int| Fr::of(limbs_number(wide_limbs(192 + 4 * i))))
        &&& self.msm_scalars@ == self.wide@
        &&& dft::all_wf(self.fr@)
        &&& dft::all_wf(self.fr2@)
        &&& dft::all_wf(self.fr3@)
        &&& dft::all_wf(self.wide@)
    }

    /// The scatter case.
    #[verifier::opaque]
    pub open spec fn scattering(self) -> bool {
        &&& self.coeffs@ == Seq::new(
            64,
            |j: int| GroupedCoeff { signal: ((j * 7) % 64) as u32, value: self.fr2@[j] },
        )
        &&& self.starts@ == Seq::new(9, |g: int| (8 * g) as u32)
    }

    /// The index lists of the sums.
    #[verifier::opaque]
    pub open spec fn indices(self) -> bool {
        &&& self.order@ == bucket_order()
        &&& self.bstarts@ == bucket_starts()
        &&& self.jstarts@ == sum_starts()
    }

    /// The points.
    #[verifier::opaque]
    pub open spec fn points(self) -> bool {
        &&& bucket_points(self.g1@, generators::g1_spec(), ec::g1_b_spec())
        &&& bucket_points(self.g2@, generators::g2_spec(), ec::g2_b_spec())
        &&& msm_points(self.msm_g1@, generators::g1_spec(), ec::g1_b_spec())
        &&& msm_points(self.msm_g2@, generators::g2_spec(), ec::g2_b_spec())
    }

    /// The one set of inputs.
    pub open spec fn standard(self) -> bool {
        &&& self.n == 64
        &&& self.lg_n == 6
        &&& self.stage_len == 8
        &&& self.stage_stride == 8
        &&& self.vectors()
        &&& self.scattering()
        &&& self.indices()
        &&& self.points()
    }

    /// Small field elements from the numbers drawn after the `k`-th.
    fn small(s: &mut u64, Ghost(k): Ghost<nat>) -> (r: Vec<Fr>)
        requires
            *old(s) == state(k),
        ensures
            *final(s) == state(k + 64),
            r@ == Seq::new(64, |i: int| small_element(k + i + 1)),
            dft::all_wf(r@),
    {
        let mut r: Vec<Fr> = Vec::new();
        let mut i: usize = 0;
        while i < 64
            invariant
                i <= 64,
                *s == state((k + i) as nat),
                r@.len() == i,
                forall|j: int| 0 <= j < i ==> #[trigger] r@[j] == small_element(k + j + 1),
                forall|j: int| 0 <= j < i ==> (#[trigger] r@[j]).wf(),
            decreases 64 - i,
        {
            let v = next(s);
            proof {
                assert(v == state((k + i + 1) as nat));
            }
            r.push(Fr::from_u64(v >> 2u64));
            i = i + 1;
        }
        proof {
            assert(r@ =~= Seq::new(64, |i: int| small_element(k + i + 1)));
        }
        r
    }

    /// Full-width scalars from the numbers drawn after the 192nd.
    fn wide(s: &mut u64) -> (r: Vec<Fr>)
        requires
            *old(s) == state(192),
        ensures
            r@ == Seq::new(64, |i: int| Fr::of(limbs_number(wide_limbs(192 + 4 * i)))),
            dft::all_wf(r@),
    {
        let mut r: Vec<Fr> = Vec::new();
        let mut i: usize = 0;
        while i < 64
            invariant
                i <= 64,
                *s == state((192 + 4 * i) as nat),
                r@.len() == i,
                forall|j: int|
                    0 <= j < i ==> #[trigger] r@[j] == Fr::of(
                        limbs_number(wide_limbs(192 + 4 * j)),
                    ),
                forall|j: int| 0 <= j < i ==> (#[trigger] r@[j]).wf(),
            decreases 64 - i,
        {
            let a = next(s);
            let b = next(s);
            let c = next(s);
            let d = next(s);
            let l: [u64; 4] = [a, b, c, d >> 3u64];
            proof {
                let k = 192 + 4 * i;
                assert(a == state((k + 1) as nat));
                assert(b == state((k + 2) as nat));
                assert(c == state((k + 3) as nat));
                assert(d == state((k + 4) as nat));
                assert(l@ =~= wide_limbs(k as int));
                assert(d >> 3u64 <= 0x1fff_ffff_ffff_ffffu64) by (bit_vector);
                field::lemma_fr_modulus();
                assert(limbs::value(l) == limbs_number(l@));
                assert(limbs::value(l) < field::fr_modulus().m);
            }
            r.push(Fr::from_canonical(l));
            i = i + 1;
        }
        proof {
            assert(r@ =~= Seq::new(64, |i: int| Fr::of(limbs_number(wide_limbs(192 + 4 * i)))));
        }
        r
    }

    /// The multiples `a·k + b` of a point, for `k` from 1 to `count`.
    fn multiples<F: Field>(
        g: &Affine<F>,
        count: u64,
        a: u64,
        b: u64,
        Ghost(c): Ghost<F>,
    ) -> (r: Vec<Affine<F>>)
        requires
            g.wf(),
            g.pt().on(c),
            curve::smooth(c),
            count <= 64,
            a <= 3,
            b <= 1,
        ensures
            r@.len() == count,
            msm::on_curve(r@, c),
            forall|k: int|
                0 <= k < count ==> (#[trigger] r@[k]).pt() == group::times(
                    g.pt(),
                    (a * (k + 1) + b) as nat,
                ),
    {
        let base = g.to_jacobian();
        let mut r: Vec<Affine<F>> = Vec::new();
        let mut k: u64 = 0;
        while k < count
            invariant
                k <= count <= 64,
                a <= 3,
                b <= 1,
                base.wf(),
                base.pt() == g.pt(),
                g.pt().on(c),
                curve::smooth(c),
                r@.len() == k,
                forall|j: int|
                    0 <= j < k ==> (#[trigger] r@[j]).pt() == group::times(
                        g.pt(),
                        (a * (j + 1) + b) as nat,
                    ) && r@[j].wf() && r@[j].pt().on(c),
            decreases count - k,
        {
            proof {
                assert(a * (k + 1) <= 3 * 64) by (nonlinear_arith)
                    requires
                        a <= 3,
                        k + 1 <= 64,
                ;
            }
            let factor = Fr::from_u64(a * (k + 1) + b);
            proof {
                group::lemma_times_on(g.pt(), (a * (k + 1) + b) as nat, c);
                assert(base.pt().on(c));
            }
            r.push(base.mul(&factor).to_affine());
            k = k + 1;
        }
        r
    }

    /// The bucket case's points.
    fn bucket_case<F: Field>(g: &Affine<F>, Ghost(c): Ghost<F>) -> (r: Vec<Affine<F>>)
        requires
            g.wf(),
            g.pt().on(c),
            curve::smooth(c),
        ensures
            bucket_points(r@, *g, c),
    {
        let mut r = Self::multiples(g, 8, 1, 0, Ghost(c));
        let minus = r[0].neg();
        proof {
            let first = r@[0];
            curve::lemma_negated(first.pt(), c);
            if !first.infinity {
                F::closed(first.y, first.y);
            }
        }
        let ghost eight = r@;
        r.push(Affine::infinity());
        r.push(minus);
        proof {
            assert forall|i: int| 0 <= i < r@.len() implies (#[trigger] r@[i]).wf() && r@[i].pt().on(
                c,
            ) by {
                if i < 8 {
                    assert(r@[i] == eight[i]);
                }
            }
            assert forall|k: int| 0 <= k < 8 implies (#[trigger] r@[k]).pt() == group::times(
                g.pt(),
                (k + 1) as nat,
            ) by {
                assert(r@[k] == eight[k]);
                assert(1 * (k + 1) + 0 == k + 1);
            }
        }
        r
    }

    /// The scatter case's coefficients.
    fn coefficients(values: &Vec<Fr>) -> (r: Vec<GroupedCoeff>)
        requires
            values@.len() == 64,
        ensures
            r@ == Seq::new(
                64,
                |j: int| GroupedCoeff { signal: ((j * 7) % 64) as u32, value: values@[j] },
            ),
    {
        let mut r: Vec<GroupedCoeff> = Vec::new();
        let mut j: usize = 0;
        while j < 64
            invariant
                j <= 64,
                values@.len() == 64,
                r@ =~= Seq::new(
                    j as nat,
                    |j: int| GroupedCoeff { signal: ((j * 7) % 64) as u32, value: values@[j] },
                ),
            decreases 64 - j,
        {
            r.push(GroupedCoeff { signal: ((j * 7) % 64) as u32, value: values[j] });
            j = j + 1;
        }
        r
    }

    /// The deterministic inputs (xorshift-seeded).
    pub fn new() -> (r: Self)
        ensures
            r.standard(),
    {
        let mut s = SEED;
        let fr = Self::small(&mut s, Ghost(0));
        let fr2 = Self::small(&mut s, Ghost(64));
        let fr3 = Self::small(&mut s, Ghost(128));
        let wide = Self::wide(&mut s);
        let coeffs = Self::coefficients(&fr2);
        let mut starts: Vec<u32> = Vec::new();
        let mut g: u32 = 0;
        while g <= 8
            invariant
                g <= 9,
                starts@ =~= Seq::new(g as nat, |g: int| (8 * g) as u32),
            decreases 9 - g,
        {
            starts.push(8 * g);
            g = g + 1;
        }
        let (g1_base, g2_base) = (generators::g1_generator(), generators::g2_generator());
        proof {
            ec::lemma_g1_smooth();
            ec::lemma_g2_smooth();
        }
        let g1 = Self::bucket_case(&g1_base, Ghost(ec::g1_b_spec()));
        let g2 = Self::bucket_case(&g2_base, Ghost(ec::g2_b_spec()));
        let msm_g1 = Self::multiples(&g1_base, 64, 3, 1, Ghost(ec::g1_b_spec()));
        let msm_g2 = Self::multiples(&g2_base, 64, 3, 1, Ghost(ec::g2_b_spec()));
        let order: Vec<u32> = vec![0, 1, 2, 8, 0, 9, 4, 5, 6, 7];
        let bstarts: Vec<u32> = vec![0, 3, 4, 6, 6, 10];
        let jstarts: Vec<u32> = vec![0, 2, 2, 5];
        let n_inv = fr3[0];
        let msm_scalars = vstd::slice::slice_to_vec(wide.as_slice());
        let r = Self {
            n: 64,
            lg_n: 6,
            fr,
            fr2,
            fr3,
            n_inv,
            wide,
            coeffs,
            starts,
            stage_len: 8,
            stage_stride: 8,
            g1,
            g2,
            order,
            bstarts,
            jstarts,
            msm_g1,
            msm_g2,
            msm_scalars,
        };
        proof {
            assert(r.fr@ =~= Seq::new(64, |i: int| small_element(i + 1)));
            assert(r.fr2@ =~= Seq::new(64, |i: int| small_element(i + 65)));
            assert(r.fr3@ =~= Seq::new(64, |i: int| small_element(i + 129)));
            reveal(Cases::vectors);
            reveal(Cases::scattering);
            reveal(Cases::indices);
            reveal(Cases::points);
            assert(r.vectors());
            assert(r.scattering());
            assert(r.order@ =~= seq![0u32, 1, 2, 8, 0, 9, 4, 5, 6, 7]);
            assert(r.bstarts@ =~= seq![0u32, 3, 4, 6, 6, 10]);
            assert(r.jstarts@ =~= seq![0u32, 2, 2, 5]);
            assert(r.indices());
            assert(r.points());
        }
        r
    }
}

impl Default for Cases {
    fn default() -> (r: Self)
        ensures
            r.standard(),
    {
        Self::new()
    }
}

// ---- the expected outputs ----------------------------------------------------------------------

impl Cases {
    /// Number of buckets in the bucket-sum case.
    pub fn buckets(&self) -> (r: usize)
        requires
            self.standard(),
        ensures
            r == 5,
    {
        proof {
            reveal(Cases::indices);
        }
        self.bstarts.len() - 1
    }

    /// Expected `scatter_group` output (8 groups).
    pub fn scatter(&self) -> (r: Vec<Fr>)
        requires
            self.standard(),
        ensures
            r@ == Seq::new(8, |i: int| kernels::group_value(self.coeffs@, self.fr@, 8 * i, 8 * i + 8)),
    {
        proof {
            reveal(Cases::vectors);
            reveal(Cases::scattering);
        }
        let mut r: Vec<Fr> = Vec::new();
        let mut i: usize = 0;
        while i < 8
            invariant
                i <= 8,
                self.standard(),
                self.fr@.len() == 64,
                self.fr2@.len() == 64,
                self.fr3@.len() == 64,
                self.coeffs@.len() == 64,
                self.starts@.len() == 9,
                forall|g: int| 0 <= g < 9 ==> #[trigger] self.starts@[g] == 8 * g,
                forall|j: int| 0 <= j < 64 ==> (#[trigger] self.coeffs@[j]).signal < 64,
                r@ =~= Seq::new(i as nat, |i: int| kernels::group_value(self.coeffs@, self.fr@, 8 * i, 8 * i + 8)),
            decreases 8 - i,
        {
            proof {
                assert(self.starts@[i as int] == 8 * i);
                assert(self.starts@[i + 1] == 8 * (i + 1));
            }
            r.push(kernels::scatter_group(i, &self.coeffs, &self.starts, &self.fr));
            i = i + 1;
        }
        r
    }

    /// Expected `pointwise_mul(fr, fr2)`.
    pub fn pointwise_mul(&self) -> (r: Vec<Fr>)
        requires
            self.standard(),
        ensures
            r@ == Seq::new(64, |i: int| self.fr@[i] * self.fr2@[i]),
    {
        proof {
            reveal(Cases::vectors);
        }
        let mut r: Vec<Fr> = Vec::new();
        let mut i: usize = 0;
        while i < 64
            invariant
                i <= 64,
                self.standard(),
                self.fr@.len() == 64,
                self.fr2@.len() == 64,
                self.fr3@.len() == 64,
                r@ =~= Seq::new(i as nat, |i: int| self.fr@[i] * self.fr2@[i]),
            decreases 64 - i,
        {
            r.push(kernels::pointwise_mul(i, &self.fr, &self.fr2));
            i = i + 1;
        }
        r
    }

    /// Expected `pointwise_mul_sub(fr, fr2, fr3)`.
    pub fn pointwise_mul_sub(&self) -> (r: Vec<Fr>)
        requires
            self.standard(),
        ensures
            r@ == Seq::new(64, |i: int| self.fr@[i] * self.fr2@[i] - self.fr3@[i]),
    {
        proof {
            reveal(Cases::vectors);
        }
        let mut r: Vec<Fr> = Vec::new();
        let mut i: usize = 0;
        while i < 64
            invariant
                i <= 64,
                self.standard(),
                self.fr@.len() == 64,
                self.fr2@.len() == 64,
                self.fr3@.len() == 64,
                r@ =~= Seq::new(i as nat, |i: int| self.fr@[i] * self.fr2@[i] - self.fr3@[i]),
            decreases 64 - i,
        {
            r.push(kernels::pointwise_mul_sub(i, &self.fr, &self.fr2, &self.fr3));
            i = i + 1;
        }
        r
    }

    /// Expected `pointwise_scale(fr, fr2) · n_inv`.
    pub fn pointwise_scale(&self) -> (r: Vec<Fr>)
        requires
            self.standard(),
        ensures
            r@ == Seq::new(64, |i: int| self.fr@[i] * self.fr2@[i] * self.n_inv),
    {
        proof {
            reveal(Cases::vectors);
        }
        let mut r: Vec<Fr> = Vec::new();
        let mut i: usize = 0;
        while i < 64
            invariant
                i <= 64,
                self.standard(),
                self.fr@.len() == 64,
                self.fr2@.len() == 64,
                self.fr3@.len() == 64,
                r@ =~= Seq::new(i as nat, |i: int| self.fr@[i] * self.fr2@[i] * self.n_inv),
            decreases 64 - i,
        {
            r.push(kernels::pointwise_scale(i, &self.fr, &self.fr2).mul(&self.n_inv));
            i = i + 1;
        }
        r
    }

    /// Expected `bit_reverse(fr, lg_n)`.
    pub fn bit_reverse(&self) -> (r: Vec<Fr>)
        requires
            self.standard(),
        ensures
            r@ == Seq::new(64, |i: int| self.fr@[dft::reversed(i as nat, 6) as int]),
    {
        proof {
            reveal(Cases::vectors);
        }
        let mut r: Vec<Fr> = Vec::new();
        let mut i: usize = 0;
        while i < 64
            invariant
                i <= 64,
                self.standard(),
                self.fr@.len() == 64,
                self.fr2@.len() == 64,
                self.fr3@.len() == 64,
                r@ =~= Seq::new(i as nat, |i: int| self.fr@[dft::reversed(i as nat, 6) as int]),
            decreases 64 - i,
        {
            proof {
                lemma2_to64();
                dft::lemma_reversed_bound(i as nat, 6);
            }
            r.push(kernels::bit_reverse(i, &self.fr, self.lg_n));
            i = i + 1;
        }
        r
    }

    /// Expected `ntt_stage(fr, stage_len, fr2, stage_stride)`.
    pub fn ntt_stage(&self) -> (r: Vec<Fr>)
        requires
            self.standard(),
        ensures
            r@ == Seq::new(64, |i: int| kernels::table_butterfly(i, self.fr@, 8, self.fr2@, 8)),
    {
        proof {
            reveal(Cases::vectors);
        }
        let mut r: Vec<Fr> = Vec::new();
        let mut i: usize = 0;
        while i < 64
            invariant
                i <= 64,
                self.standard(),
                self.fr@.len() == 64,
                self.fr2@.len() == 64,
                self.fr3@.len() == 64,
                r@ =~= Seq::new(i as nat, |i: int| kernels::table_butterfly(i, self.fr@, 8, self.fr2@, 8)),
            decreases 64 - i,
        {
            proof {
                dft::lemma_block_fits(i as int, 64, 8);
            }
            r.push(kernels::ntt_stage(i, &self.fr, self.stage_len, &self.fr2, self.stage_stride));
            i = i + 1;
        }
        r
    }

    /// Canonical limbs of `wide`, the `digits` input.
    pub fn wide_canonical(&self) -> (r: Vec<[u64; 4]>)
        ensures
            r@.len() == self.wide@.len(),
            forall|i: int|
                0 <= i < r@.len() ==> limbs::value(#[trigger] r@[i]) == self.wide@[i].val(),
    {
        msm::canonical_scalars(&self.wide)
    }

    /// Expected `digits(wide, window)`.
    pub fn digits(&self, window: u32) -> (r: Vec<u32>)
        requires
            self.standard(),
            window < WINDOWS,
        ensures
            r@.len() == 64,
            forall|i: int|
                0 <= i < 64 ==> #[trigger] r@[i] == scalar::digit_of(
                    self.wide@[i].val(),
                    window as nat,
                    12,
                ),
    {
        proof {
            reveal(Cases::vectors);
        }
        let canonical = self.wide_canonical();
        let mut r: Vec<u32> = Vec::new();
        let mut i: usize = 0;
        while i < 64
            invariant
                i <= 64,
                self.standard(),
                window < WINDOWS,
                canonical@.len() == 64,
                forall|i: int|
                    0 <= i < 64 ==> limbs::value(#[trigger] canonical@[i]) == self.wide@[i].val(),
                r@.len() == i,
                forall|j: int|
                    0 <= j < i ==> #[trigger] r@[j] == scalar::digit_of(
                        self.wide@[j].val(),
                        window as nat,
                        12,
                    ),
            decreases 64 - i,
        {
            r.push(kernels::digit(i, &canonical, window, WINDOW_BITS));
            i = i + 1;
        }
        r
    }

    /// Expected `digits_all(wide)`: every window's digits in one buffer.
    pub fn digits_all(&self) -> (r: Vec<u32>)
        requires
            self.standard(),
        ensures
            r@.len() == 22 * 64,
            forall|i: int|
                0 <= i < 22 * 64 ==> #[trigger] r@[i] == scalar::digit_of(
                    self.wide@[i % 64].val(),
                    (i / 64) as nat,
                    12,
                ),
    {
        proof {
            reveal(Cases::vectors);
        }
        let canonical = self.wide_canonical();
        let mut r: Vec<u32> = Vec::new();
        let mut i: usize = 0;
        while i < 22 * 64
            invariant
                i <= 22 * 64,
                self.standard(),
                canonical@.len() == 64,
                forall|i: int|
                    0 <= i < 64 ==> limbs::value(#[trigger] canonical@[i]) == self.wide@[i].val(),
                r@.len() == i,
                forall|j: int|
                    0 <= j < i ==> #[trigger] r@[j] == scalar::digit_of(
                        self.wide@[j % 64].val(),
                        (j / 64) as nat,
                        12,
                    ),
            decreases 22 * 64 - i,
        {
            assert(0 <= i as int % 64 < 64 && 0 <= i as int / 64 < 22);
            r.push(kernels::digit_all(i, &canonical, WINDOW_BITS));
            i = i + 1;
        }
        r
    }

    /// The bucket case over a group's points.
    fn bucket_sums<F: Field>(&self, points: &Vec<Affine<F>>, Ghost(c): Ghost<F>) -> (r: Vec<
        Jacobian<F>,
    >)
        requires
            self.standard(),
            points@.len() == 10,
            msm::on_curve(points@, c),
        ensures
            bucket_sums_of(r@, points@),
    {
        proof {
            reveal(Cases::indices);
        }
        let mut r: Vec<Jacobian<F>> = Vec::new();
        let mut b: usize = 0;
        while b < 5
            invariant
                b <= 5,
                self.order@ == bucket_order(),
                self.bstarts@ == bucket_starts(),
                points@.len() == 10,
                msm::on_curve(points@, c),
                r@.len() == b,
                forall|j: int|
                    0 <= j < b ==> (#[trigger] r@[j]).wf() && r@[j].pt() == bucket_value(
                        points@,
                        j,
                    ),
            decreases 5 - b,
        {
            proof {
                assert(bucket_starts()[b as int] <= bucket_starts()[b + 1] <= 10);
                assert forall|j: int| 0 <= j < 10 implies #[trigger] bucket_order()[j] < 10 by {}
            }
            r.push(kernels::bucket_sum(b, points, &self.order, &self.bstarts));
            b = b + 1;
        }
        r
    }

    /// Expected G1 bucket sums.
    pub fn bucket_sums_g1(&self) -> (r: Vec<Jacobian<Fp>>)
        requires
            self.standard(),
        ensures
            bucket_sums_of(r@, self.g1@),
    {
        proof {
            reveal(Cases::points);
        }
        self.bucket_sums(&self.g1, Ghost(ec::g1_b_spec()))
    }

    /// Expected G2 bucket sums.
    pub fn bucket_sums_g2(&self) -> (r: Vec<Jacobian<Fp2>>)
        requires
            self.standard(),
        ensures
            bucket_sums_of(r@, self.g2@),
    {
        proof {
            reveal(Cases::points);
        }
        self.bucket_sums(&self.g2, Ghost(ec::g2_b_spec()))
    }

    /// One level of the reduction above the bucket sums.
    fn jacobian_sums<F: Field>(&self, sums: &Vec<Jacobian<F>>) -> (r: Vec<Jacobian<F>>)
        requires
            self.standard(),
            sums@.len() == 5,
            forall|i: int| 0 <= i < 5 ==> (#[trigger] sums@[i]).wf(),
        ensures
            jacobian_sums_of(r@, sums@),
    {
        proof {
            reveal(Cases::indices);
        }
        let mut r: Vec<Jacobian<F>> = Vec::new();
        let mut b: usize = 0;
        while b < 3
            invariant
                b <= 3,
                self.jstarts@ == sum_starts(),
                sums@.len() == 5,
                forall|i: int| 0 <= i < 5 ==> (#[trigger] sums@[i]).wf(),
                r@.len() == b,
                forall|j: int|
                    0 <= j < b ==> (#[trigger] r@[j]).wf() && r@[j].pt() == range_value(sums@, j),
            decreases 3 - b,
        {
            proof {
                assert(sum_starts()[b as int] <= sum_starts()[b + 1] <= 5);
            }
            r.push(kernels::jacobian_sum(b, sums, &self.jstarts));
            b = b + 1;
        }
        r
    }

    /// Expected G1 `jacobian_sum` over the G1 bucket sums with `jstarts`.
    pub fn jacobian_sums_g1(&self) -> (r: Vec<Jacobian<Fp>>)
        requires
            self.standard(),
        ensures
            range_sums_of(r@, self.g1@),
    {
        let sums = self.bucket_sums_g1();
        let r = self.jacobian_sums(&sums);
        proof {
            lemma_range_sums(r@, sums@, self.g1@);
        }
        r
    }

    /// Expected G2 `jacobian_sum` over the G2 bucket sums with `jstarts`.
    pub fn jacobian_sums_g2(&self) -> (r: Vec<Jacobian<Fp2>>)
        requires
            self.standard(),
        ensures
            range_sums_of(r@, self.g2@),
    {
        let sums = self.bucket_sums_g2();
        let r = self.jacobian_sums(&sums);
        proof {
            lemma_range_sums(r@, sums@, self.g2@);
        }
        r
    }

    /// Expected G1 MSM (naive sum).
    pub fn msm_g1(&self) -> (r: Jacobian<Fp>)
        requires
            self.standard(),
        ensures
            r.wf(),
            r.pt() == group::weighted(msm::pts(self.msm_g1@), msm::vals(self.wide@)),
    {
        proof {
            reveal(Cases::points);
            reveal(Cases::vectors);
        }
        assert(msm::on_curve(self.msm_g1@, ec::g1_b_spec()));
        msm_naive(&self.msm_g1, &self.msm_scalars)
    }

    /// Expected G2 MSM (naive sum).
    pub fn msm_g2(&self) -> (r: Jacobian<Fp2>)
        requires
            self.standard(),
        ensures
            r.wf(),
            r.pt() == group::weighted(msm::pts(self.msm_g2@), msm::vals(self.wide@)),
    {
        proof {
            reveal(Cases::points);
            reveal(Cases::vectors);
        }
        assert(msm::on_curve(self.msm_g2@, ec::g2_b_spec()));
        msm_naive(&self.msm_g2, &self.msm_scalars)
    }
}

/// Where the buckets of the bucket case begin and end.
pub open spec fn bucket_starts() -> Seq<u32> {
    seq![0u32, 3, 4, 6, 6, 10]
}

/// The order of the points in the buckets.
pub open spec fn bucket_order() -> Seq<u32> {
    seq![0u32, 1, 2, 8, 0, 9, 4, 5, 6, 7]
}

/// The sum of bucket `b` of the bucket case.
pub open spec fn bucket_value<F: Field>(points: Seq<Affine<F>>, b: int) -> curve::Pt<F> {
    group::sum(
        kernels::named_points(
            points,
            bucket_order(),
            bucket_starts()[b] as int,
            bucket_starts()[b + 1] as int,
        ),
    )
}

/// The five bucket sums.
pub open spec fn bucket_sums_of<F: Field>(r: Seq<Jacobian<F>>, points: Seq<Affine<F>>) -> bool {
    r.len() == 5 && forall|b: int|
        0 <= b < 5 ==> (#[trigger] r[b]).wf() && r[b].pt() == bucket_value(points, b)
}

/// Where the ranges over the bucket sums begin and end.
pub open spec fn sum_starts() -> Seq<u32> {
    seq![0u32, 2, 2, 5]
}

/// The sum of range `b` over the bucket sums.
pub open spec fn range_value<F: Field>(sums: Seq<Jacobian<F>>, b: int) -> curve::Pt<F> {
    group::sum(
        msm::jacobian_pts(sums).subrange(sum_starts()[b] as int, sum_starts()[b + 1] as int),
    )
}

/// The three sums over the bucket sums.
pub open spec fn jacobian_sums_of<F: Field>(r: Seq<Jacobian<F>>, sums: Seq<Jacobian<F>>) -> bool {
    r.len() == 3 && forall|b: int|
        0 <= b < 3 ==> (#[trigger] r[b]).wf() && r[b].pt() == range_value(sums, b)
}

/// The five bucket sums, as points.
pub open spec fn bucket_values<F: Field>(points: Seq<Affine<F>>) -> Seq<curve::Pt<F>> {
    Seq::new(5, |b: int| bucket_value(points, b))
}

/// The sums of the ranges over the bucket sums, as points.
pub open spec fn range_values<F: Field>(points: Seq<Affine<F>>) -> Seq<curve::Pt<F>> {
    Seq::new(
        3,
        |b: int|
            group::sum(
                bucket_values(points).subrange(
                    sum_starts()[b] as int,
                    sum_starts()[b + 1] as int,
                ),
            ),
    )
}

/// The three sums over the bucket sums of the points.
pub open spec fn range_sums_of<F: Field>(r: Seq<Jacobian<F>>, points: Seq<Affine<F>>) -> bool {
    r.len() == 3 && forall|b: int|
        0 <= b < 3 ==> (#[trigger] r[b]).wf() && r[b].pt() == range_values(points)[b]
}

/// Sums over bucket sums of the points are sums over the points' buckets.
pub proof fn lemma_range_sums<F: Field>(
    r: Seq<Jacobian<F>>,
    sums: Seq<Jacobian<F>>,
    points: Seq<Affine<F>>,
)
    requires
        bucket_sums_of(sums, points),
        jacobian_sums_of(r, sums),
    ensures
        range_sums_of(r, points),
{
    assert(msm::jacobian_pts(sums) =~= bucket_values(points)) by {
        assert forall|b: int| 0 <= b < 5 implies #[trigger] msm::jacobian_pts(sums)[b]
            == bucket_values(points)[b] by {
            assert(sums[b].wf());
        }
    }
    assert forall|b: int| 0 <= b < 3 implies (#[trigger] r[b]).wf() && r[b].pt() == range_values(
        points,
    )[b] by {}
}

// ---- comparing ---------------------------------------------------------------------------------

/// The first index below `n` where two sequences differ.
pub open spec fn first_difference<T>(got: Seq<T>, want: Seq<T>, n: int) -> Option<int>
    decreases n,
{
    if n <= 0 {
        None
    } else {
        match first_difference(got, want, n - 1) {
            Some(i) => Some(i),
            None => if got[n - 1] == want[n - 1] {
                None
            } else {
                Some(n - 1)
            },
        }
    }
}

/// The message of a comparison.
pub open spec fn diff_text<T: Show>(got: Seq<T>, want: Seq<T>) -> Seq<char> {
    if got.len() != want.len() {
        text::decimal_of(got.len()) + " outputs, expected "@ + text::decimal_of(want.len())
    } else {
        match first_difference(got, want, got.len() as int) {
            Some(i) => "first difference at index "@ + text::decimal_of(i as nat) + ": got "@
                + got[i].text() + ", want "@ + want[i].text(),
            None => Seq::empty(),
        }
    }
}

/// Where two sequences have no first difference, they agree.
proof fn lemma_no_difference<T>(got: Seq<T>, want: Seq<T>, n: int)
    requires
        n <= got.len(),
        n <= want.len(),
    ensures
        first_difference(got, want, n) is None <==> forall|i: int|
            0 <= i < n ==> #[trigger] got[i] == want[i],
        first_difference(got, want, n) matches Some(i) ==> 0 <= i < n,
    decreases n,
{
    if n > 0 {
        lemma_no_difference(got, want, n - 1);
        if first_difference(got, want, n) is None {
            assert(got[n - 1] == want[n - 1]);
        }
    }
}

/// The index is that of the first difference: the sequences agree before it and differ at it.
pub proof fn lemma_difference_is_first<T>(got: Seq<T>, want: Seq<T>, n: int)
    requires
        0 <= n <= got.len(),
        n <= want.len(),
    ensures
        match first_difference(got, want, n) {
            Some(i) => 0 <= i < n && got[i] != want[i] && got.take(i) == want.take(i),
            None => got.take(n) == want.take(n),
        },
    decreases n,
{
    if n > 0 {
        lemma_difference_is_first(got, want, n - 1);
        if first_difference(got, want, n) is None {
            assert forall|i: int| 0 <= i < n implies got.take(n)[i] == want.take(n)[i] by {
                if i < n - 1 {
                    assert(got.take(n - 1)[i] == want.take(n - 1)[i]);
                }
            }
            assert(got.take(n) =~= want.take(n));
        }
    } else {
        assert(got.take(0) =~= want.take(0));
    }
}

/// What the message says: both lengths where they differ, else the first index where the
/// sequences do, with what is there.
pub proof fn lemma_difference_named<T: Show>(got: Seq<T>, want: Seq<T>)
    ensures
        got.len() != want.len() ==> exists|a: Seq<char>, b: Seq<char>| {
            &&& #[trigger] reading::numerals(a)
            &&& #[trigger] reading::numerals(b)
            &&& reading::number(a) == got.len()
            &&& reading::number(b) == want.len()
            &&& diff_text(got, want) == a + " outputs, expected "@ + b
        },
        got.len() == want.len() && got != want ==> exists|i: int, d: Seq<char>| {
            &&& 0 <= i < got.len()
            &&& #[trigger] got[i] != want[i]
            &&& got.take(i) == want.take(i)
            &&& #[trigger] reading::numerals(d)
            &&& reading::number(d) == i
            &&& diff_text(got, want) == "first difference at index "@ + d + ": got "@
                + got[i].text() + ", want "@ + want[i].text()
        },
{
    reading::lemma_decimal(got.len());
    reading::lemma_decimal(want.len());
    if got.len() != want.len() {
        assert(reading::numerals(text::decimal_of(got.len())));
        assert(reading::numerals(text::decimal_of(want.len())));
    } else if got != want {
        let n = got.len() as int;
        lemma_difference_is_first(got, want, n);
        assert(got.take(n) =~= got);
        assert(want.take(n) =~= want);
        let i = first_difference(got, want, n)->0;
        reading::lemma_decimal(i as nat);
        assert(got[i] != want[i]);
        assert(reading::numerals(text::decimal_of(i as nat)));
    }
}

/// The message is empty exactly where the sequences are the same.
pub proof fn lemma_agreement<T: Show>(got: Seq<T>, want: Seq<T>)
    ensures
        diff_text(got, want).len() == 0 <==> got == want,
{
    reveal_strlit(" outputs, expected ");
    reveal_strlit("first difference at index ");
    if got.len() == want.len() {
        lemma_no_difference(got, want, got.len() as int);
        if first_difference(got, want, got.len() as int) is None {
            assert(got =~= want);
        }
    }
}

/// The first index where two vectors differ, as a message; empty when equal.
pub fn first_diff<T: Show>(got: &[T], want: &[T]) -> (r: String)
    ensures
        r@ == diff_text(got@, want@),
{
    let n = got.len();
    if n != want.len() {
        let mut r = String::new();
        text::push_u64(&mut r, n as u64);
        text::push(&mut r, " outputs, expected ");
        text::push_u64(&mut r, want.len() as u64);
        proof {
            assert(r@ =~= diff_text(got@, want@));
        }
        return r;
    }
    let mut i: usize = 0;
    while i < n
        invariant
            i <= n,
            n == got@.len(),
            n == want@.len(),
            first_difference(got@, want@, i as int) is None,
        decreases n - i,
    {
        if !got[i].alike(&want[i]) {
            let mut r = text::owned("first difference at index ");
            text::push_u64(&mut r, i as u64);
            text::push(&mut r, ": got ");
            text::push(&mut r, got[i].show().as_str());
            text::push(&mut r, ", want ");
            text::push(&mut r, want[i].show().as_str());
            proof {
                lemma_difference_stays(got@, want@, i + 1, n as int);
            }
            return r;
        }
        i = i + 1;
    }
    String::new()
}

proof fn lemma_difference_stays<T>(got: Seq<T>, want: Seq<T>, k: int, n: int)
    requires
        k <= n,
        first_difference(got, want, k) is Some,
    ensures
        first_difference(got, want, n) == first_difference(got, want, k),
    decreases n - k,
{
    if k < n {
        lemma_difference_stays(got, want, k, n - 1);
    }
}

/// The affine forms of the points.
pub open spec fn affines<F: Field>(points: Seq<Jacobian<F>>) -> Seq<Affine<F>> {
    Seq::new(points.len(), |i: int| points[i].affine_form())
}

/// The affine form of a reduced point is its coordinates.
pub proof fn lemma_affine_form<F: Field>(p: Jacobian<F>)
    requires
        p.wf(),
    ensures
        p.affine_form() == prover::affine_of(p.pt()),
{
    broadcast use ring::group_wf;

    F::inverse_spec_law(p.z);
    if p.z != F::zero_spec() {
        F::inverse_law(p.z);
        F::square_law(p.z.inv_spec());
    }
}

/// The message of a comparison of points.
pub open spec fn point_diff_text<F: Field + Show>(
    got: Seq<Jacobian<F>>,
    want: Seq<Jacobian<F>>,
) -> Seq<char> {
    let d = diff_text(affines(got), affines(want));
    if d.len() == 0 {
        d
    } else {
        d + " (affine forms compared)"@
    }
}

/// Reduced points agree exactly where they are the same points, whatever their coordinates.
pub proof fn lemma_point_agreement<F: Field + Show>(got: Seq<Jacobian<F>>, want: Seq<Jacobian<F>>)
    requires
        got.len() == want.len(),
        forall|i: int| 0 <= i < got.len() ==> (#[trigger] got[i]).wf(),
        forall|i: int| 0 <= i < want.len() ==> (#[trigger] want[i]).wf(),
    ensures
        point_diff_text(got, want).len() == 0 <==> forall|i: int|
            0 <= i < got.len() ==> (#[trigger] got[i]).pt() == want[i].pt(),
{
    reveal_strlit(" (affine forms compared)");
    let (a, b) = (affines(got), affines(want));
    lemma_agreement(a, b);
    if a == b {
        assert forall|i: int| 0 <= i < got.len() implies (#[trigger] got[i]).pt()
            == want[i].pt() by {
            assert(a[i] == b[i]);
            lemma_affine_form(got[i]);
            lemma_affine_form(want[i]);
        }
    } else if forall|i: int| 0 <= i < got.len() ==> (#[trigger] got[i]).pt() == want[i].pt() {
        assert forall|i: int| 0 <= i < got.len() implies a[i] == b[i] by {
            assert(got[i].pt() == want[i].pt());
            lemma_affine_form(got[i]);
            lemma_affine_form(want[i]);
        }
        assert(a =~= b);
    }
}

/// The affine forms of the points.
fn to_affines<F: Field>(points: &[Jacobian<F>]) -> (r: Vec<Affine<F>>)
    ensures
        r@ == affines(points@),
{
    let mut r: Vec<Affine<F>> = Vec::new();
    let n = points.len();
    let mut i: usize = 0;
    while i < n
        invariant
            i <= n,
            n == points@.len(),
            r@ =~= affines(points@).take(i as int),
        decreases n - i,
    {
        let a = points[i].to_affine();
        r.push(a);
        i = i + 1;
    }
    proof {
        assert(affines(points@).take(n as int) =~= affines(points@));
    }
    r
}

/// Projective comparison of point lists (affine forms compared); empty when
/// equal.
pub fn first_point_diff<F: Field + Show>(got: &[Jacobian<F>], want: &[Jacobian<F>]) -> (r: String)
    ensures
        r@ == point_diff_text(got@, want@),
{
    let ga = to_affines(got);
    let wa = to_affines(want);
    let mut r = first_diff(ga.as_slice(), wa.as_slice());
    if r.as_str().unicode_len() > 0 {
        text::push(&mut r, " (affine forms compared)");
    }
    r
}

// ---- the proof case ----------------------------------------------------------------------------

/// The values of a witness file.
pub open spec fn file_values(data: Seq<u8>) -> Seq<Fr> {
    zkey::witness_of(zkey::wtns_data(data))
}

/// A small circuit with fixed blinding: a whole proof through a device must
/// equal the reference prover's, byte for byte.
pub struct Fixture {
    /// The zkey.
    pub zkey: Zkey,
    /// The witness.
    pub witness: Vec<Fr>,
    /// Blinding `r`.
    pub r: Fr,
    /// Blinding `s`.
    pub s: Fr,
}

/// Why a fixture cannot be used.
#[derive(Clone, Debug, PartialEq, Eq)]
pub enum FixtureError {
    /// The key does not parse.
    Zkey(ZkeyError),
    /// The witness does not parse.
    Witness(WtnsError),
    /// The witness is not one of the key's.
    Prove(ProveError),
    /// The key's domain is larger than the field's roots of unity allow.
    Domain,
}

impl Fixture {
    /// The key can be proved with, and the witness is one of its.
    pub open spec fn ready(self) -> bool {
        &&& prover::usable(self.zkey)
        &&& self.witness@.len() == self.zkey.num_vars
        &&& self.witness@[0] == Fr::one_spec()
        &&& self.r == Fr::of(7)
        &&& self.s == Fr::of(11)
        &&& self.r.wf()
        &&& self.s.wf()
    }

    /// The key's points, its coefficients and the witness are reduced, and the coefficients
    /// ascend by constraint. A fixture that is read from its files is.
    pub open spec fn reduced(self) -> bool {
        &&& self.zkey.reduced()
        &&& prover::ascends(self.zkey.coefficients@)
        &&& dft::all_wf(self.witness@)
    }

    /// The fixture of a zkey file and a witness file, with `r = 7`, `s = 11`.
    pub fn of_files(zkey: &[u8], wtns: &[u8]) -> (result: Result<Self, FixtureError>)
        ensures
            match result {
                Ok(f) => zkey::zkey_error(zkey@) is None && f.zkey.holds(zkey@)
                    && zkey::wtns_error(wtns@) is None && f.witness@ == file_values(wtns@)
                    && f.ready() && f.reduced(),
                Err(FixtureError::Zkey(e)) => zkey::zkey_error(zkey@) == Some(e),
                Err(FixtureError::Witness(e)) => zkey::zkey_error(zkey@) is None
                    && zkey::wtns_error(wtns@) == Some(e),
                Err(FixtureError::Domain) => zkey::zkey_error(zkey@) is None && zkey::wtns_error(
                    wtns@,
                ) is None && exists|z: Zkey| #[trigger] z.holds(zkey@) && !prover::usable(z),
                Err(FixtureError::Prove(e)) => zkey::zkey_error(zkey@) is None && zkey::wtns_error(
                    wtns@,
                ) is None && exists|z: Zkey|
                    #[trigger] z.holds(zkey@) && prover::usable(z) && e == (if file_values(
                        wtns@,
                    ).len() != z.num_vars {
                        ProveError::WitnessLength {
                            expected: z.num_vars,
                            found: file_values(wtns@).len() as usize,
                        }
                    } else {
                        ProveError::WitnessConstant
                    }) && !(file_values(wtns@).len() == z.num_vars && file_values(wtns@)[0]
                        == Fr::one_spec()),
            },
    {
        let zkey = match Zkey::parse(zkey) {
            Ok(z) => z,
            Err(e) => {
                return Err(FixtureError::Zkey(e));
            },
        };
        let witness = match parse_wtns(wtns) {
            Ok(w) => w,
            Err(e) => {
                return Err(FixtureError::Witness(e));
            },
        };
        if !prover::is_usable(&zkey) {
            return Err(FixtureError::Domain);
        }
        if witness.len() != zkey.num_vars {
            return Err(
                FixtureError::Prove(
                    ProveError::WitnessLength { expected: zkey.num_vars, found: witness.len() },
                ),
            );
        }
        if !witness[0].same(&<Fr as Field>::one()) {
            return Err(FixtureError::Prove(ProveError::WitnessConstant));
        }
        Ok(Self { zkey, witness, r: Fr::from_u64(7), s: Fr::from_u64(11) })
    }

    /// The reference prover's proof for these inputs.
    pub fn expected(&self) -> (r: Proof)
        requires
            self.ready(),
        ensures
            prover::key_reduced(self.zkey) && dft::all_wf(self.witness@) ==> r == prover::proof_of(
                self.zkey,
                self.witness@,
                self.r,
                self.s,
            ),
    {
        match prover::prove(&self.zkey, &self.witness, &self.r, &self.s) {
            Ok(p) => p,
            Err(_) => vstd::pervasive::unreached(),
        }
    }
}

/// The message of a comparison of proofs.
pub open spec fn proof_diff_text(got: Proof, want: Proof) -> Seq<char> {
    if got == want {
        Seq::empty()
    } else {
        "proof differs from the core prover's on the fixture: got "@ + got.text() + ", want "@
            + want.text()
    }
}

/// The fixture proof compared with the reference prover's; empty when equal.
pub fn proof_diff(got: &Proof, fixture: &Fixture) -> (r: String)
    requires
        fixture.ready(),
    ensures
        prover::key_reduced(fixture.zkey) && dft::all_wf(fixture.witness@) ==> r@
            == proof_diff_text(
            *got,
            prover::proof_of(fixture.zkey, fixture.witness@, fixture.r, fixture.s),
        ),
{
    let want = fixture.expected();
    if got.alike(&want) {
        String::new()
    } else {
        let mut r = text::owned("proof differs from the core prover's on the fixture: got ");
        text::push(&mut r, got.show().as_str());
        text::push(&mut r, ", want ");
        text::push(&mut r, want.show().as_str());
        r
    }
}

} // verus!
