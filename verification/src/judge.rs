//! What a device's kernels left on the inputs of [`crate::check`], held
//! against the expected outputs: one result per kernel, per multi-scalar sum,
//! and for the proof.

use vstd::prelude::*;

use crate::check;
use crate::check::{first_diff, first_point_diff, proof_diff, Cases, Fixture, KernelCheck, WINDOWS};
use crate::ec::{Affine, Jacobian};
use crate::field::{Field, Fp, Fr};
use crate::fp2::Fp2;
use crate::kernels;
use crate::math::curve::Pt;
use crate::math::dft;
use crate::math::group;
use crate::math::ring::{FieldLaws, Ring};
use crate::msm;
use crate::prover;
use crate::prover::Proof;
use crate::scalar;
use crate::show::Show;
use crate::text;

verus! {

/// Why a device left no proof.
pub enum NoProof {
    /// The pipeline over the device's launches gave up, for this reason.
    Pipeline(String),
    /// Proving counts as one launch, which failed for this reason.
    Launch(String),
}

/// What a device left for each case, or why there is nothing.
pub struct Outputs {
    /// `scatter_group`.
    pub scatter_group: Result<Vec<Fr>, String>,
    /// `pointwise_mul`.
    pub pointwise_mul: Result<Vec<Fr>, String>,
    /// `pointwise_mul_sub`.
    pub pointwise_mul_sub: Result<Vec<Fr>, String>,
    /// `pointwise_scale`.
    pub pointwise_scale: Result<Vec<Fr>, String>,
    /// `bit_reverse`.
    pub bit_reverse: Result<Vec<Fr>, String>,
    /// `ntt_stage`.
    pub ntt_stage: Result<Vec<Fr>, String>,
    /// `digits`, window after window.
    pub digits: Result<Vec<Vec<u32>>, String>,
    /// `digits_all`.
    pub digits_all: Result<Vec<u32>, String>,
    /// `bucket_sum_g1`.
    pub bucket_sum_g1: Result<Vec<Jacobian<Fp>>, String>,
    /// `bucket_sum_g2`.
    pub bucket_sum_g2: Result<Vec<Jacobian<Fp2>>, String>,
    /// `jacobian_sum_g1`.
    pub jacobian_sum_g1: Result<Vec<Jacobian<Fp>>, String>,
    /// `jacobian_sum_g2`.
    pub jacobian_sum_g2: Result<Vec<Jacobian<Fp2>>, String>,
    /// The whole sum in G1.
    pub msm_g1: Result<Jacobian<Fp>, String>,
    /// The whole sum in G2.
    pub msm_g2: Result<Jacobian<Fp2>, String>,
    /// The proof of the fixture.
    pub proof: Result<Proof, NoProof>,
}

/// The names of the results, in order.
pub const CHECKS: [&'static str; 15] = [
    "scatter_group",
    "pointwise_mul",
    "pointwise_mul_sub",
    "pointwise_scale",
    "bit_reverse",
    "ntt_stage",
    "digits",
    "digits_all",
    "bucket_sum_g1",
    "bucket_sum_g2",
    "jacobian_sum_g1",
    "jacobian_sum_g2",
    "msm (g1)",
    "msm (g2)",
    "proof (fixture)",
];

/// The message of a failed launch.
pub open spec fn failure(e: String) -> Seq<char> {
    "launch failed: "@ + e@
}

/// The message for field elements.
pub open spec fn elements_text(got: Result<Vec<Fr>, String>, want: Seq<Fr>) -> Seq<char> {
    match got {
        Ok(v) => check::diff_text(v@, want),
        Err(e) => failure(e),
    }
}

/// The message for words.
pub open spec fn words_text(got: Result<Vec<u32>, String>, want: Seq<u32>) -> Seq<char> {
    match got {
        Ok(v) => check::diff_text(v@, want),
        Err(e) => failure(e),
    }
}

/// The affine coordinates of points.
pub open spec fn coordinates<F: Field>(points: Seq<Pt<F>>) -> Seq<Affine<F>> {
    points.map_values(|p: Pt<F>| prover::affine_of(p))
}

/// The message for points.
pub open spec fn points_text<F: Field + Show>(got: Seq<Jacobian<F>>, want: Seq<Pt<F>>) -> Seq<
    char,
> {
    let d = check::diff_text(check::affines(got), coordinates(want));
    if d.len() == 0 {
        d
    } else {
        d + " (affine forms compared)"@
    }
}

/// The message fits the points that a launch left, or its failure.
pub open spec fn points_judged<F: Field + Show>(
    got: Result<Vec<Jacobian<F>>, String>,
    want: Seq<Pt<F>>,
    detail: Seq<char>,
) -> bool {
    match got {
        Ok(v) => detail == points_text(v@, want),
        Err(e) => detail == failure(e),
    }
}

/// The message fits the one point that a launch left, or its failure.
pub open spec fn point_judged<F: Field + Show>(
    got: Result<Jacobian<F>, String>,
    want: Pt<F>,
    detail: Seq<char>,
) -> bool {
    match got {
        Ok(p) => detail == points_text(seq![p], seq![want]),
        Err(e) => detail == failure(e),
    }
}

/// The digits of window `w` of the case.
pub open spec fn window_digits(wide: Seq<Fr>, w: int) -> Seq<u32> {
    Seq::new(wide.len(), |i: int| scalar::digit_of(wide[i].val(), w as nat, 12) as u32)
}

/// The digits of all windows of the case.
pub open spec fn all_digits(wide: Seq<Fr>) -> Seq<u32> {
    Seq::new(
        22 * 64,
        |i: int| scalar::digit_of(wide[i % 64].val(), (i / 64) as nat, 12) as u32,
    )
}

/// The windows below `n` whose digits differ or are missing.
pub open spec fn bad_windows(got: Seq<Vec<u32>>, wide: Seq<Fr>, n: int) -> Seq<u32>
    decreases n,
{
    if n <= 0 {
        Seq::empty()
    } else {
        let before = bad_windows(got, wide, n - 1);
        if n - 1 < got.len() && got[n - 1]@ == window_digits(wide, n - 1) {
            before
        } else {
            before.push((n - 1) as u32)
        }
    }
}

/// Numbers with commas between them.
pub open spec fn commas(s: Seq<u32>) -> Seq<char>
    decreases s.len(),
{
    if s.len() == 0 {
        Seq::empty()
    } else if s.len() == 1 {
        text::decimal_of(s[0] as nat)
    } else {
        commas(s.drop_last()) + ", "@ + text::decimal_of(s.last() as nat)
    }
}

/// The message for the windows that differ.
pub open spec fn windows_text(bad: Seq<u32>) -> Seq<char> {
    if bad.len() == 0 {
        Seq::empty()
    } else {
        "windows ["@ + commas(bad) + "] differ"@
    }
}

/// The message for the digits of every window.
pub open spec fn digits_text(got: Result<Vec<Vec<u32>>, String>, wide: Seq<Fr>) -> Seq<char> {
    match got {
        Ok(v) => windows_text(bad_windows(v@, wide, 22)),
        Err(e) => failure(e),
    }
}

/// The message for the proof of the fixture. A failed launch is named as such before the reason.
pub open spec fn proof_text(got: Result<Proof, NoProof>, want: Proof) -> Seq<char> {
    match got {
        Ok(p) => check::proof_diff_text(p, want),
        Err(NoProof::Pipeline(e)) => "prove failed: "@ + e@,
        Err(NoProof::Launch(e)) => "launch failed: "@ + ("prove failed: "@ + e@),
    }
}

/// The message for the windows that differ.
fn windows_message(bad: &Vec<u32>) -> (r: String)
    ensures
        r@ == windows_text(bad@),
{
    if bad.len() == 0 {
        return String::new();
    }
    let mut r = text::owned("windows [");
    let n = bad.len();
    let mut i: usize = 0;
    proof {
        assert(r@ + commas(bad@.take(0)) =~= r@);
    }
    while i < n
        invariant
            i <= n,
            n == bad@.len(),
            r@ == "windows ["@ + commas(bad@.take(i as int)),
        decreases n - i,
    {
        if i > 0 {
            text::push(&mut r, ", ");
        }
        text::push_u64(&mut r, bad[i] as u64);
        proof {
            let t = bad@.take(i + 1);
            assert(t.drop_last() =~= bad@.take(i as int));
            if i == 0 {
                assert(commas(bad@.take(0)) =~= Seq::empty());
            }
            assert(r@ =~= "windows ["@ + commas(t));
        }
        i = i + 1;
    }
    proof {
        assert(bad@.take(n as int) =~= bad@);
    }
    text::push(&mut r, "] differ");
    r
}

/// Whether two lists of words are the same.
fn same_words(a: &Vec<u32>, b: &Vec<u32>) -> (r: bool)
    ensures
        r == (a@ == b@),
{
    if a.len() != b.len() {
        return false;
    }
    let n = a.len();
    let mut i: usize = 0;
    while i < n
        invariant
            i <= n,
            n == a@.len(),
            n == b@.len(),
            a@.take(i as int) =~= b@.take(i as int),
        decreases n - i,
    {
        if a[i] != b[i] {
            assert(a@[i as int] != b@[i as int]);
            return false;
        }
        i = i + 1;
    }
    proof {
        assert(a@.take(n as int) =~= a@);
        assert(b@.take(n as int) =~= b@);
    }
    true
}

/// The windows whose digits differ.
fn differing(cases: &Cases, got: &Vec<Vec<u32>>) -> (bad: Vec<u32>)
    requires
        cases.standard(),
    ensures
        bad@ == bad_windows(got@, cases.wide@, 22),
{
    let mut bad: Vec<u32> = Vec::new();
    let mut w: u32 = 0;
    while w < WINDOWS
        invariant
            w <= 22,
            cases.standard(),
            bad@ == bad_windows(got@, cases.wide@, w as int),
        decreases 22 - w,
    {
        let want = cases.digits(w);
        proof {
            reveal(Cases::vectors);
            lemma_small_digits(cases.wide@);
            assert(want@ =~= window_digits(cases.wide@, w as int));
        }
        if (w as usize) < got.len() {
            if !same_words(&got[w as usize], &want) {
                bad.push(w);
            }
        } else {
            bad.push(w);
        }
        w = w + 1;
    }
    bad
}

/// Digits of twelve bits are words.
proof fn lemma_small_digits(wide: Seq<Fr>)
    ensures
        forall|i: int, w: nat|
            0 <= i < wide.len() ==> 0 <= #[trigger] scalar::digit_of(wide[i].val(), w, 12) < 4096,
{
    vstd::arithmetic::power2::lemma2_to64();
    assert(vstd::arithmetic::power2::pow2(12) == 4096);
    assert forall|i: int, w: nat| 0 <= i < wide.len() implies 0 <= #[trigger] scalar::digit_of(
        wide[i].val(),
        w,
        12,
    ) < 4096 by {
        vstd::arithmetic::div_mod::lemma_mod_bound(
            wide[i].val() / (vstd::arithmetic::power2::pow2(w * 12) as int),
            4096,
        );
    }
}

/// A comparison of field elements.
fn judge_elements(kernel: &'static str, got: &Result<Vec<Fr>, String>, want: &Vec<Fr>) -> (r:
    KernelCheck)
    ensures
        r.kernel == kernel,
        r.ok == (r.detail@.len() == 0),
        r.detail@ == elements_text(*got, want@),
{
    match got {
        Ok(v) => KernelCheck::from_detail(kernel, first_diff(v.as_slice(), want.as_slice())),
        Err(e) => KernelCheck::from_result(kernel, Err(text::owned(e.as_str()))),
    }
}

/// A comparison of points.
fn judge_points<F: Field + Show>(
    kernel: &'static str,
    got: &Result<Vec<Jacobian<F>>, String>,
    want: &Vec<Jacobian<F>>,
    Ghost(values): Ghost<Seq<Pt<F>>>,
) -> (r: KernelCheck)
    requires
        want@.len() == values.len(),
        forall|i: int|
            0 <= i < want@.len() ==> (#[trigger] want@[i]).wf() && want@[i].pt() == values[i],
    ensures
        r.kernel == kernel,
        r.ok == (r.detail@.len() == 0),
        points_judged(*got, values, r.detail@),
{
    proof {
        assert(check::affines(want@) =~= coordinates(values)) by {
            assert forall|i: int| 0 <= i < want@.len() implies check::affines(want@)[i]
                == #[trigger] coordinates(values)[i] by {
                assert(want@[i].pt() == values[i]);
                check::lemma_affine_form(want@[i]);
            }
        }
    }
    match got {
        Ok(v) => KernelCheck::from_detail(kernel, first_point_diff(v.as_slice(), want.as_slice())),
        Err(e) => KernelCheck::from_result(kernel, Err(text::owned(e.as_str()))),
    }
}

/// A comparison of one point.
fn judge_point<F: Field + Show>(
    kernel: &'static str,
    got: &Result<Jacobian<F>, String>,
    want: Jacobian<F>,
) -> (r: KernelCheck)
    requires
        want.wf(),
    ensures
        r.kernel == kernel,
        r.ok == (r.detail@.len() == 0),
        point_judged(*got, want.pt(), r.detail@),
{
    match got {
        Ok(p) => {
            let g: Vec<Jacobian<F>> = vec![*p];
            let w: Vec<Jacobian<F>> = vec![want];
            proof {
                assert(g@ =~= seq![*p]);
                check::lemma_affine_form(want);
                assert(check::affines(w@) =~= coordinates(seq![want.pt()]));
            }
            KernelCheck::from_detail(kernel, first_point_diff(g.as_slice(), w.as_slice()))
        },
        Err(e) => KernelCheck::from_result(kernel, Err(text::owned(e.as_str()))),
    }
}

/// What the case wants: the group values.
pub open spec fn wanted_scatter(cases: Cases) -> Seq<Fr> {
    Seq::new(8, |i: int| kernels::group_value(cases.coeffs@, cases.fr@, 8 * i, 8 * i + 8))
}

/// What the case wants: `fr[i]·fr2[i]`.
pub open spec fn wanted_mul(cases: Cases) -> Seq<Fr> {
    Seq::new(64, |i: int| cases.fr@[i] * cases.fr2@[i])
}

/// What the case wants: `fr[i]·fr2[i] − fr3[i]`.
pub open spec fn wanted_mul_sub(cases: Cases) -> Seq<Fr> {
    Seq::new(64, |i: int| cases.fr@[i] * cases.fr2@[i] - cases.fr3@[i])
}

/// What the case wants: `fr[i]·fr2[i]·n_inv`.
pub open spec fn wanted_scale(cases: Cases) -> Seq<Fr> {
    Seq::new(64, |i: int| cases.fr@[i] * cases.fr2@[i] * cases.n_inv)
}

/// What the case wants: `fr` permuted.
pub open spec fn wanted_reversed(cases: Cases) -> Seq<Fr> {
    Seq::new(64, |i: int| cases.fr@[dft::reversed(i as nat, 6) as int])
}

/// What the case wants: one stage over `fr`.
pub open spec fn wanted_stage(cases: Cases) -> Seq<Fr> {
    Seq::new(64, |i: int| kernels::table_butterfly(i, cases.fr@, 8, cases.fr2@, 8))
}

/// What the case wants: the sum in G1.
pub open spec fn wanted_msm_g1(cases: Cases) -> Pt<Fp> {
    group::weighted(msm::pts(cases.msm_g1@), msm::vals(cases.wide@))
}

/// What the case wants: the sum in G2.
pub open spec fn wanted_msm_g2(cases: Cases) -> Pt<Fp2> {
    group::weighted(msm::pts(cases.msm_g2@), msm::vals(cases.wide@))
}

/// The details of a list of results: each is what the outputs give.
pub open spec fn judged(
    cases: Cases,
    fixture: Fixture,
    o: Outputs,
    r: Seq<KernelCheck>,
) -> bool {
    &&& r.len() == 15
    &&& forall|i: int|
        0 <= i < 15 ==> (#[trigger] r[i]).kernel == CHECKS[i] && r[i].ok == (r[i].detail@.len()
            == 0)
    &&& r[0].detail@ == elements_text(o.scatter_group, wanted_scatter(cases))
    &&& r[1].detail@ == elements_text(o.pointwise_mul, wanted_mul(cases))
    &&& r[2].detail@ == elements_text(o.pointwise_mul_sub, wanted_mul_sub(cases))
    &&& r[3].detail@ == elements_text(o.pointwise_scale, wanted_scale(cases))
    &&& r[4].detail@ == elements_text(o.bit_reverse, wanted_reversed(cases))
    &&& r[5].detail@ == elements_text(o.ntt_stage, wanted_stage(cases))
    &&& r[6].detail@ == digits_text(o.digits, cases.wide@)
    &&& r[7].detail@ == words_text(o.digits_all, all_digits(cases.wide@))
    &&& points_judged(o.bucket_sum_g1, check::bucket_values(cases.g1@), r[8].detail@)
    &&& points_judged(o.bucket_sum_g2, check::bucket_values(cases.g2@), r[9].detail@)
    &&& points_judged(o.jacobian_sum_g1, check::range_values(cases.g1@), r[10].detail@)
    &&& points_judged(o.jacobian_sum_g2, check::range_values(cases.g2@), r[11].detail@)
    &&& point_judged(o.msm_g1, wanted_msm_g1(cases), r[12].detail@)
    &&& point_judged(o.msm_g2, wanted_msm_g2(cases), r[13].detail@)
    &&& prover::key_reduced(fixture.zkey) && dft::all_wf(fixture.witness@) ==> r[14].detail@
        == proof_text(
        o.proof,
        prover::proof_of(fixture.zkey, fixture.witness@, fixture.r, fixture.s),
    )
}

/// A comparison of the digits of every window.
fn judge_digits(cases: &Cases, got: &Result<Vec<Vec<u32>>, String>) -> (r: KernelCheck)
    requires
        cases.standard(),
    ensures
        r.kernel == "digits",
        r.ok == (r.detail@.len() == 0),
        r.detail@ == digits_text(*got, cases.wide@),
{
    match got {
        Ok(v) => KernelCheck::from_detail("digits", windows_message(&differing(cases, v))),
        Err(e) => KernelCheck::from_result("digits", Err(text::owned(e.as_str()))),
    }
}

/// A comparison of the digits of all windows.
fn judge_all_digits(cases: &Cases, got: &Result<Vec<u32>, String>) -> (r: KernelCheck)
    requires
        cases.standard(),
    ensures
        r.kernel == "digits_all",
        r.ok == (r.detail@.len() == 0),
        r.detail@ == words_text(*got, all_digits(cases.wide@)),
{
    let all = cases.digits_all();
    proof {
        reveal(Cases::vectors);
        lemma_small_digits(cases.wide@);
        assert forall|i: int| 0 <= i < 22 * 64 implies all@[i] == #[trigger] all_digits(
            cases.wide@,
        )[i] by {
            assert(0 <= i % 64 < 64);
            assert(all@[i] == scalar::digit_of(cases.wide@[i % 64].val(), (i / 64) as nat, 12));
        }
        assert(all@ =~= all_digits(cases.wide@));
    }
    match got {
        Ok(v) => KernelCheck::from_detail("digits_all", first_diff(v.as_slice(), all.as_slice())),
        Err(e) => KernelCheck::from_result("digits_all", Err(text::owned(e.as_str()))),
    }
}

/// A comparison of the proof.
fn judge_proof(fixture: &Fixture, got: &Result<Proof, NoProof>) -> (r: KernelCheck)
    requires
        fixture.ready(),
    ensures
        r.kernel == "proof (fixture)",
        r.ok == (r.detail@.len() == 0),
        prover::key_reduced(fixture.zkey) && dft::all_wf(fixture.witness@) ==> r.detail@
            == proof_text(
            *got,
            prover::proof_of(fixture.zkey, fixture.witness@, fixture.r, fixture.s),
        ),
{
    match got {
        Ok(p) => KernelCheck::from_detail("proof (fixture)", proof_diff(p, fixture)),
        Err(NoProof::Pipeline(e)) => {
            let mut detail = text::owned("prove failed: ");
            text::push(&mut detail, e.as_str());
            KernelCheck::from_detail("proof (fixture)", detail)
        },
        Err(NoProof::Launch(e)) => {
            let mut detail = text::owned("prove failed: ");
            text::push(&mut detail, e.as_str());
            KernelCheck::from_result("proof (fixture)", Err(detail))
        },
    }
}

/// Hold what a device left against the expected outputs, kernel by kernel,
/// down to a whole proof: a difference is localised to one kernel or one
/// composite step.
#[verifier::rlimit(60)]
pub fn judge(cases: &Cases, fixture: &Fixture, o: &Outputs) -> (r: Vec<KernelCheck>)
    requires
        cases.standard(),
        fixture.ready(),
    ensures
        judged(*cases, *fixture, *o, r@),
{
    let c0 = judge_elements("scatter_group", &o.scatter_group, &cases.scatter());
    let c1 = judge_elements("pointwise_mul", &o.pointwise_mul, &cases.pointwise_mul());
    let c2 = judge_elements("pointwise_mul_sub", &o.pointwise_mul_sub, &cases.pointwise_mul_sub());
    let c3 = judge_elements("pointwise_scale", &o.pointwise_scale, &cases.pointwise_scale());
    let c4 = judge_elements("bit_reverse", &o.bit_reverse, &cases.bit_reverse());
    let c5 = judge_elements("ntt_stage", &o.ntt_stage, &cases.ntt_stage());
    // digits: full-width scalars, every window
    let c6 = judge_digits(cases, &o.digits);
    let c7 = judge_all_digits(cases, &o.digits_all);
    // bucket sums on G1 and G2: infinity input, empty bucket, P + (−P), P + P
    let c8 = judge_points(
        "bucket_sum_g1",
        &o.bucket_sum_g1,
        &cases.bucket_sums_g1(),
        Ghost(check::bucket_values(cases.g1@)),
    );
    let c9 = judge_points(
        "bucket_sum_g2",
        &o.bucket_sum_g2,
        &cases.bucket_sums_g2(),
        Ghost(check::bucket_values(cases.g2@)),
    );
    // one level of the reduction above the bucket sums
    let c10 = judge_points(
        "jacobian_sum_g1",
        &o.jacobian_sum_g1,
        &cases.jacobian_sums_g1(),
        Ghost(check::range_values(cases.g1@)),
    );
    let c11 = judge_points(
        "jacobian_sum_g2",
        &o.jacobian_sum_g2,
        &cases.jacobian_sums_g2(),
        Ghost(check::range_values(cases.g2@)),
    );
    // end-to-end sums
    let c12 = judge_point("msm (g1)", &o.msm_g1, cases.msm_g1());
    let c13 = judge_point("msm (g2)", &o.msm_g2, cases.msm_g2());
    // a whole proof, fixed blinding
    let c14 = judge_proof(fixture, &o.proof);
    let r: Vec<KernelCheck> = vec![
        c0,
        c1,
        c2,
        c3,
        c4,
        c5,
        c6,
        c7,
        c8,
        c9,
        c10,
        c11,
        c12,
        c13,
        c14,
    ];
    r
}

/// The results of a device whose module has no kernel for the ranges of points: those of
/// [`judge`] without the two for `jacobian_sum_g1` and `jacobian_sum_g2`.
pub fn judge_without_ranges(cases: &Cases, fixture: &Fixture, o: &Outputs) -> (r: Vec<KernelCheck>)
    requires
        cases.standard(),
        fixture.ready(),
    ensures
        exists|all: Seq<KernelCheck>| #[trigger]
            judged(*cases, *fixture, *o, all) && r@ == all.take(10) + all.skip(12),
{
    let mut r = judge(cases, fixture, o);
    let ghost all = r@;
    let _ = r.remove(11);
    let _ = r.remove(10);
    proof {
        assert(r@ =~= all.take(10) + all.skip(12));
    }
    r
}

// ---- agreement ---------------------------------------------------------------------------------

/// The points' affine forms are those of the wanted ones.
pub open spec fn same_points<F: Field>(got: Result<Vec<Jacobian<F>>, String>, want: Seq<Pt<F>>) -> bool {
    got is Ok && check::affines(got->Ok_0@) == coordinates(want)
}

/// The point's affine form is that of the wanted one.
pub open spec fn same_point<F: Field>(got: Result<Jacobian<F>, String>, want: Pt<F>) -> bool {
    got is Ok && got->Ok_0.affine_form() == prover::affine_of(want)
}

/// The elements are the wanted ones.
pub open spec fn same_elements(got: Result<Vec<Fr>, String>, want: Seq<Fr>) -> bool {
    got is Ok && got->Ok_0@ == want
}

/// Every launch succeeded and left what is expected.
pub open spec fn agrees(cases: Cases, fixture: Fixture, o: Outputs) -> bool {
    &&& same_elements(o.scatter_group, wanted_scatter(cases))
    &&& same_elements(o.pointwise_mul, wanted_mul(cases))
    &&& same_elements(o.pointwise_mul_sub, wanted_mul_sub(cases))
    &&& same_elements(o.pointwise_scale, wanted_scale(cases))
    &&& same_elements(o.bit_reverse, wanted_reversed(cases))
    &&& same_elements(o.ntt_stage, wanted_stage(cases))
    &&& o.digits is Ok
    &&& o.digits->Ok_0@.len() >= 22
    &&& forall|w: int|
        0 <= w < 22 ==> (#[trigger] o.digits->Ok_0@[w])@ == window_digits(cases.wide@, w)
    &&& o.digits_all is Ok
    &&& o.digits_all->Ok_0@ == all_digits(cases.wide@)
    &&& same_points(o.bucket_sum_g1, check::bucket_values(cases.g1@))
    &&& same_points(o.bucket_sum_g2, check::bucket_values(cases.g2@))
    &&& same_points(o.jacobian_sum_g1, check::range_values(cases.g1@))
    &&& same_points(o.jacobian_sum_g2, check::range_values(cases.g2@))
    &&& same_point(o.msm_g1, wanted_msm_g1(cases))
    &&& same_point(o.msm_g2, wanted_msm_g2(cases))
    &&& o.proof is Ok
    &&& o.proof->Ok_0 == prover::proof_of(fixture.zkey, fixture.witness@, fixture.r, fixture.s)
}

/// The message for elements is empty exactly where they are the wanted ones.
proof fn lemma_elements(got: Result<Vec<Fr>, String>, want: Seq<Fr>)
    ensures
        elements_text(got, want).len() == 0 <==> same_elements(got, want),
{
    reveal_strlit("launch failed: ");
    match got {
        Ok(v) => {
            check::lemma_agreement(v@, want);
        },
        Err(_) => {},
    }
}

/// The message for points is empty exactly where their affine forms are the wanted ones.
proof fn lemma_points<F: Field + Show>(
    got: Result<Vec<Jacobian<F>>, String>,
    want: Seq<Pt<F>>,
    detail: Seq<char>,
)
    requires
        points_judged(got, want, detail),
    ensures
        detail.len() == 0 <==> same_points(got, want),
{
    reveal_strlit("launch failed: ");
    reveal_strlit(" (affine forms compared)");
    match got {
        Ok(v) => {
            check::lemma_agreement(check::affines(v@), coordinates(want));
        },
        Err(_) => {},
    }
}

proof fn lemma_point<F: Field + Show>(
    got: Result<Jacobian<F>, String>,
    want: Pt<F>,
    detail: Seq<char>,
)
    requires
        point_judged(got, want, detail),
    ensures
        detail.len() == 0 <==> same_point(got, want),
{
    reveal_strlit("launch failed: ");
    reveal_strlit(" (affine forms compared)");
    match got {
        Ok(p) => {
            let (a, b) = (check::affines(seq![p]), coordinates(seq![want]));
            check::lemma_agreement(a, b);
            assert(a[0] == p.affine_form() && b[0] == prover::affine_of(want));
            if a[0] == b[0] {
                assert(a =~= b);
            }
        },
        Err(_) => {},
    }
}

/// No window is bad exactly where every window's digits are the wanted ones.
proof fn lemma_bad_windows(got: Seq<Vec<u32>>, wide: Seq<Fr>, n: int)
    requires
        0 <= n,
    ensures
        bad_windows(got, wide, n).len() == 0 <==> n <= got.len() && forall|w: int|
            0 <= w < n ==> (#[trigger] got[w])@ == window_digits(wide, w),
    decreases n,
{
    if n > 0 {
        lemma_bad_windows(got, wide, n - 1);
        if bad_windows(got, wide, n).len() == 0 {
            assert(got[n - 1]@ == window_digits(wide, n - 1));
        }
    }
}

proof fn lemma_digits(got: Result<Vec<Vec<u32>>, String>, wide: Seq<Fr>)
    ensures
        digits_text(got, wide).len() == 0 <==> got is Ok && got->Ok_0@.len() >= 22 && forall|w: int|
            0 <= w < 22 ==> (#[trigger] got->Ok_0@[w])@ == window_digits(wide, w),
{
    reveal_strlit("launch failed: ");
    reveal_strlit("windows [");
    match got {
        Ok(v) => {
            lemma_bad_windows(v@, wide, 22);
        },
        Err(_) => {},
    }
}

proof fn lemma_words(got: Result<Vec<u32>, String>, want: Seq<u32>)
    ensures
        words_text(got, want).len() == 0 <==> got is Ok && got->Ok_0@ == want,
{
    reveal_strlit("launch failed: ");
    match got {
        Ok(v) => {
            check::lemma_agreement(v@, want);
        },
        Err(_) => {},
    }
}

proof fn lemma_proof(got: Result<Proof, NoProof>, want: Proof)
    ensures
        proof_text(got, want).len() == 0 <==> got is Ok && got->Ok_0 == want,
{
    reveal_strlit("prove failed: ");
    reveal_strlit("launch failed: ");
    reveal_strlit("proof differs from the core prover's on the fixture: got ");
}

/// Every result is an agreement exactly where every launch succeeded and left what is expected.
#[verifier::rlimit(60)]
pub proof fn lemma_judgement(cases: Cases, fixture: Fixture, o: Outputs, r: Seq<KernelCheck>)
    requires
        judged(cases, fixture, o, r),
        prover::key_reduced(fixture.zkey),
        dft::all_wf(fixture.witness@),
    ensures
        (forall|i: int| 0 <= i < 15 ==> (#[trigger] r[i]).ok) <==> agrees(cases, fixture, o),
{
    lemma_elements(o.scatter_group, wanted_scatter(cases));
    lemma_elements(o.pointwise_mul, wanted_mul(cases));
    lemma_elements(o.pointwise_mul_sub, wanted_mul_sub(cases));
    lemma_elements(o.pointwise_scale, wanted_scale(cases));
    lemma_elements(o.bit_reverse, wanted_reversed(cases));
    lemma_elements(o.ntt_stage, wanted_stage(cases));
    lemma_digits(o.digits, cases.wide@);
    lemma_words(o.digits_all, all_digits(cases.wide@));
    lemma_points(o.bucket_sum_g1, check::bucket_values(cases.g1@), r[8].detail@);
    lemma_points(o.bucket_sum_g2, check::bucket_values(cases.g2@), r[9].detail@);
    lemma_points(o.jacobian_sum_g1, check::range_values(cases.g1@), r[10].detail@);
    lemma_points(o.jacobian_sum_g2, check::range_values(cases.g2@), r[11].detail@);
    lemma_point(o.msm_g1, wanted_msm_g1(cases), r[12].detail@);
    lemma_point(o.msm_g2, wanted_msm_g2(cases), r[13].detail@);
    lemma_proof(
        o.proof,
        prover::proof_of(fixture.zkey, fixture.witness@, fixture.r, fixture.s),
    );
    if agrees(cases, fixture, o) {
        assert forall|i: int| 0 <= i < 15 implies (#[trigger] r[i]).ok by {
            assert(r[i].ok == (r[i].detail@.len() == 0));
        }
    } else if forall|i: int| 0 <= i < 15 ==> (#[trigger] r[i]).ok {
        assert(r[0].ok && r[1].ok && r[2].ok && r[3].ok && r[4].ok && r[5].ok && r[6].ok
            && r[7].ok && r[8].ok && r[9].ok && r[10].ok && r[11].ok && r[12].ok && r[13].ok
            && r[14].ok);
    }
}

} // verus!
