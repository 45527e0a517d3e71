//! The host pipeline: it owns buffers, the coefficient grouping, the
//! twiddle and shift tables, the per-window counting sort, and the launch
//! sequence. It launches only the bodies in [`crate::kernels`], and hands the
//! five multi-scalar sums to the shared assembly.

use vstd::arithmetic::div_mod::*;
use vstd::arithmetic::mul::*;
use vstd::arithmetic::power2::*;
use vstd::prelude::*;

use crate::ec;
use crate::ec::{Affine, Jacobian};
use crate::field;
use crate::field::{Field, Fr};
use crate::kernels;
use crate::launch::Launcher;
use crate::limbs;
use crate::math::curve;
use crate::math::curve::Pt;
use crate::math::dft;
use crate::math::group;
use crate::math::ring;
use crate::math::ring::{FieldLaws, Ring};
use crate::msm as reference;
use crate::ntt;
use crate::plan;
use crate::prover;
use crate::prover::{
    assemble, counting_sort_by_digit, horner, reduce_buckets, Msms, Proof, ProveError,
};
use crate::scalar;
use crate::schedule;
use crate::schedule::{Buf, Step, Twiddles};
use crate::zkey::{Coefficient, Zkey};

pub use crate::plan::{chunk_ranges, plan_ranges};
pub use crate::prover::{CoefficientGroups, Tables};

verus! {

/// Pippenger window width used by this pipeline.
pub const WINDOW_BITS: u32 = 12;

/// The longest chain one thread adds in an MSM's bucket sums, and in every
/// level of the reduction above them. One thread per bucket would make a
/// launch wait for the few buckets that a skewed digit fattens; the plan
/// bounds every chain regardless.
pub const CHUNK: u32 = 64;

// ---- scatter -------------------------------------------------------------------------------

/// Values placed at their constraints, the later over the earlier, in a polynomial of zeros.
pub open spec fn placed(constraints: Seq<u32>, values: Seq<Fr>, domain: nat) -> Seq<Fr>
    decreases constraints.len(),
{
    if constraints.len() == 0 {
        Seq::new(domain, |i: int| Fr::zero_spec())
    } else {
        placed(constraints.drop_last(), values, domain).update(
            constraints.last() as int,
            values[constraints.len() - 1],
        )
    }
}

/// The values of all groups.
pub open spec fn group_values(
    coeffs: Seq<kernels::Coeff>,
    starts: Seq<u32>,
    witness: Seq<Fr>,
    n: nat,
) -> Seq<Fr> {
    Seq::new(
        n,
        |g: int| kernels::group_value(coeffs, witness, starts[g] as int, starts[g + 1] as int),
    )
}

/// The groups can be scattered: each is a range of the coefficients, their signals are in the
/// witness and their constraints in the domain.
pub open spec fn scatterable(
    coeffs: Seq<kernels::Coeff>,
    starts: Seq<u32>,
    constraints: Seq<u32>,
    signals: int,
    domain: int,
) -> bool {
    &&& forall|g: int|
        0 <= g < constraints.len() ==> #[trigger] constraints[g] < domain && kernels::range_fits(
            starts,
            g,
            coeffs.len() as int,
        )
    &&& forall|i: int| 0 <= i < coeffs.len() ==> (#[trigger] coeffs[i]).signal < signals
}

/// Evaluate one matrix's polynomial on the domain from its groups.
fn scatter<L: Launcher>(
    l: &L,
    coeffs: &[kernels::Coeff],
    starts: &[u32],
    constraint: &[u32],
    witness: &[Fr],
    domain: usize,
) -> (poly: Vec<Fr>)
    requires
        scatterable(coeffs@, starts@, constraint@, witness@.len() as int, domain as int),
    ensures
        poly@ == placed(
            constraint@,
            group_values(coeffs@, starts@, witness@, constraint@.len()),
            domain as nat,
        ),
{
    let n = constraint.len();
    let mut sums = prover::zeros(n);
    let body = |g: usize| -> (r: Fr)
        requires
            g < constraint@.len(),
            scatterable(coeffs@, starts@, constraint@, witness@.len() as int, domain as int),
        ensures
            r == kernels::group_value(
                coeffs@,
                witness@,
                starts@[g as int] as int,
                starts@[g + 1] as int,
            ),
        {
            assert(constraint@[g as int] < domain);
            kernels::scatter_group(g, coeffs, starts, witness)
        };
    l.map(&mut sums, body);
    let ghost values = group_values(coeffs@, starts@, witness@, constraint@.len());
    proof {
        assert forall|g: int| 0 <= g < n implies #[trigger] sums@[g] == values[g] by {
            assert(body.ensures((g as usize,), sums@[(g as usize) as int]));
        }
    }
    proof {
        assert(sums@ =~= values);
    }
    place(constraint, &sums, domain)
}

/// Place values at their constraints in a polynomial of zeros.
pub fn place(constraint: &[u32], values: &[Fr], domain: usize) -> (poly: Vec<Fr>)
    requires
        values@.len() == constraint@.len(),
        forall|g: int| 0 <= g < constraint@.len() ==> #[trigger] constraint@[g] < domain,
    ensures
        poly@ == placed(constraint@, values@, domain as nat),
        poly@.len() == domain,
{
    let n = constraint.len();
    let mut poly = prover::zeros(domain);
    let mut g: usize = 0;
    proof {
        assert(poly@ =~= placed(constraint@.take(0), values@, domain as nat));
    }
    while g < n
        invariant
            g <= n,
            n == constraint@.len(),
            values@.len() == n,
            forall|g: int| 0 <= g < constraint@.len() ==> #[trigger] constraint@[g] < domain,
            poly@.len() == domain,
            poly@ == placed(constraint@.take(g as int), values@, domain as nat),
        decreases n - g,
    {
        let c = constraint[g];
        assert(constraint@[g as int] < domain);
        let v = values[g];
        poly[c as usize] = v;
        proof {
            let t = constraint@.take(g + 1);
            assert(t.drop_last() =~= constraint@.take(g as int));
        }
        g = g + 1;
    }
    proof {
        assert(constraint@.take(n as int) =~= constraint@);
    }
    poly
}

// ---- transforms ------------------------------------------------------------------------------

/// The twiddle table that a stage reads.
pub open spec fn table(t: Tables, twiddles: Twiddles) -> Seq<Fr> {
    match twiddles {
        Twiddles::Inverse => t.inverse@,
        Twiddles::Forward => t.forward@,
    }
}

/// What a launch writes.
pub open spec fn step_output(step: Step, s: Seq<Fr>, t: Tables) -> Seq<Fr> {
    match step {
        Step::BitReverse { .. } => dft::bit_reversed(s, t.lg_n as nat),
        Step::NttStage { len, stride, twiddles, .. } => Seq::new(
            s.len(),
            |i: int|
                kernels::table_butterfly(
                    i,
                    s,
                    len as int,
                    table(t, twiddles),
                    stride as int,
                ),
        ),
        Step::Scale { .. } => Seq::new(s.len(), |i: int| s[i] * t.shift_powers@[i] * t.n_inv),
    }
}

/// A launch reads only what is there.
pub open spec fn step_fits(step: Step, n: int, t: Tables) -> bool {
    match step {
        Step::BitReverse { .. } => n == pow2(t.lg_n as nat) && n <= usize::MAX,
        Step::NttStage { len, stride, twiddles, .. } => len >= 1 && forall|i: int|
            0 <= i < n ==> #[trigger] kernels::stage_fits(
                i,
                n,
                len as int,
                table(t, twiddles).len() as int,
                stride as int,
            ),
        Step::Scale { .. } => n <= t.shift_powers@.len(),
    }
}

/// Run one launch of the schedule.
fn run_step<L: Launcher>(l: &L, step: &Step, src: &Vec<Fr>, dst: &mut Vec<Fr>, t: &Tables)
    requires
        src@.len() == old(dst)@.len(),
        step_fits(*step, src@.len() as int, *t),
    ensures
        final(dst)@ == step_output(*step, src@, *t),
{
    let n = src.len();
    match *step {
        Step::BitReverse { .. } => {
            let lg_n = t.lg_n;
            let body = |i: usize| -> (r: Fr)
                requires
                    i < src@.len(),
                    src@.len() == pow2(lg_n as nat),
                    src@.len() <= usize::MAX,
                ensures
                    r == src@[dft::reversed(i as nat, lg_n as nat) as int],
                {
                    proof {
                        dft::lemma_reversed_bound(i as nat, lg_n as nat);
                    }
                    kernels::bit_reverse(i, src, lg_n)
                };
            l.map(dst, body);
            proof {
                assert forall|i: int| 0 <= i < n implies #[trigger] dst@[i] == step_output(
                    *step,
                    src@,
                    *t,
                )[i] by {
                    assert(body.ensures((i as usize,), dst@[(i as usize) as int]));
                }
            }
        },
        Step::NttStage { len, stride, twiddles, .. } => {
            let tw: &Vec<Fr> = match twiddles {
                Twiddles::Inverse => &t.inverse,
                Twiddles::Forward => &t.forward,
            };
            let body = |i: usize| -> (r: Fr)
                requires
                    i < src@.len(),
                    len >= 1,
                    kernels::stage_fits(
                        i as int,
                        src@.len() as int,
                        len as int,
                        tw@.len() as int,
                        stride as int,
                    ),
                ensures
                    r == kernels::table_butterfly(i as int, src@, len as int, tw@, stride as int),
                { kernels::ntt_stage(i, src, len as usize, tw, stride as usize) };
            proof {
                assert forall|i: usize| i < n implies #[trigger] body.requires((i,)) by {
                    assert(kernels::stage_fits(
                        i as int,
                        n as int,
                        len as int,
                        table(*t, twiddles).len() as int,
                        stride as int,
                    ));
                }
            }
            l.map(dst, body);
            proof {
                assert forall|i: int| 0 <= i < n implies #[trigger] dst@[i] == step_output(
                    *step,
                    src@,
                    *t,
                )[i] by {
                    assert(body.ensures((i as usize,), dst@[(i as usize) as int]));
                }
            }
        },
        Step::Scale { .. } => {
            let body = |i: usize| -> (r: Fr)
                requires
                    i < src@.len(),
                    i < t.shift_powers@.len(),
                ensures
                    r == src@[i as int] * t.shift_powers@[i as int] * t.n_inv,
                { kernels::pointwise_scale(i, src, &t.shift_powers).mul(&t.n_inv) };
            l.map(dst, body);
            proof {
                assert forall|i: int| 0 <= i < n implies #[trigger] dst@[i] == step_output(
                    *step,
                    src@,
                    *t,
                )[i] by {
                    assert(body.ensures((i as usize,), dst@[(i as usize) as int]));
                }
            }
        },
    }
    proof {
        assert(dst@ =~= step_output(*step, src@, *t));
    }
}

/// The data after the first `k` launches.
pub open spec fn run(steps: Seq<Step>, k: int, s: Seq<Fr>, t: Tables) -> Seq<Fr>
    decreases k,
{
    if k <= 0 {
        s
    } else {
        step_output(steps[k - 1], run(steps, k - 1, s, t), t)
    }
}

pub(crate) proof fn lemma_run_len(steps: Seq<Step>, k: int, s: Seq<Fr>, t: Tables)
    ensures
        run(steps, k, s, t).len() == s.len(),
    decreases k,
{
    if k > 0 {
        lemma_run_len(steps, k - 1, s, t);
    }
}

/// The root whose powers a table holds.
pub open spec fn table_root(n: nat, twiddles: Twiddles) -> Fr {
    match twiddles {
        Twiddles::Inverse => ntt::omega(n).inv_spec(),
        Twiddles::Forward => ntt::omega(n),
    }
}

/// The numbers of stage `j` on a domain of `2^lg` points.
proof fn lemma_stage_numbers(lg: nat, j: nat)
    requires
        1 <= j <= lg <= 31,
    ensures
        pow2(j) == 2 * pow2((j - 1) as nat),
        pow2(j) >= 2,
        pow2(j) % 2 == 0,
        pow2(j) <= pow2(lg),
        pow2(lg) <= u32::MAX,
        pow2(lg) % pow2(j) == 0,
        pow2(lg) / pow2(j) == pow2((lg - j) as nat),
        pow2((lg - j) as nat) > 0,
        pow2((j - 1) as nat) * pow2((lg - j) as nat) == pow2(lg) / 2,
{
    lemma2_to64();
    lemma_pow2_unfold(j);
    lemma_pow2_pos((j - 1) as nat);
    lemma_pow2_pos(j);
    lemma_pow2_pos((lg - j) as nat);
    lemma_pow2_adds((lg - j) as nat, j);
    if j < lg {
        lemma_pow2_strictly_increases(j, lg);
    }
    if lg < 31 {
        lemma_pow2_strictly_increases(lg, 31);
    }
    assert(pow2(31) == 0x8000_0000);
    lemma_fundamental_div_mod_converse(
        pow2(lg) as int,
        pow2(j) as int,
        pow2((lg - j) as nat) as int,
        0,
    );
    lemma_pow2_adds((j - 1) as nat, (lg - j) as nat);
    lemma_pow2_unfold(lg);
}

/// Every launch of the coset transform reads only what is there.
pub(crate) proof fn lemma_step_fits(n: nat, t: Tables, k: int)
    requires
        prover::provable_domain(n),
        n >= 2,
        n <= usize::MAX,
        t.of_size(n),
        0 <= k < schedule::coset_steps(ntt::lg(n) as int).len(),
    ensures
        step_fits(schedule::coset_steps(ntt::lg(n) as int)[k], n as int, t),
{
    let lg = ntt::lg(n);
    let step = schedule::coset_steps(lg as int)[k];
    let j = if k <= lg {
        k
    } else {
        k - lg - 2
    };
    ntt::lemma_domain(n);
    if step is NttStage {
        lemma_stage_numbers(lg, j as nat);
        let stride = pow2((lg - j) as nat);
        let len = pow2(j as nat);
        let s = Seq::new(n, |i: int| Fr::zero_spec());
        assert forall|i: int| 0 <= i < n implies #[trigger] kernels::stage_fits(
            i,
            n as int,
            len as int,
            (n / 2) as int,
            stride as int,
        ) by {
            kernels::lemma_table_butterfly(i, s, len as int, ntt::omega(n), n / 2, stride);
        }
        lemma_stage_casts(lg, j as nat);
    }
}

/// The numbers of a stage are 32-bit.
proof fn lemma_stage_casts(lg: nat, j: nat)
    requires
        1 <= j <= lg <= 31,
    ensures
        pow2(j) as u32 == pow2(j),
        pow2((lg - j) as nat) as u32 == pow2((lg - j) as nat),
{
    lemma_stage_numbers(lg, j);
    lemma2_to64();
    if lg - j < 31 {
        lemma_pow2_strictly_increases((lg - j) as nat, 31);
    }
}

/// The launches from `o` on transform the data that they find: after the bit reversal and `j`
/// stages it holds the transformed blocks of length `2^j`.
proof fn lemma_transform(
    steps: Seq<Step>,
    o: int,
    input: Buf,
    twiddles: Twiddles,
    s: Seq<Fr>,
    t: Tables,
    j: nat,
)
    requires
        prover::provable_domain(s.len()),
        s.len() >= 2,
        t.of_size(s.len()),
        0 <= o,
        j <= ntt::lg(s.len()),
        forall|i: int|
            0 <= i <= ntt::lg(s.len()) ==> #[trigger] steps[o + i] == schedule::ntt_step(
                input,
                ntt::lg(s.len()) as int,
                twiddles,
                i,
            ),
    ensures
        run(steps, o + j + 1, s, t) == dft::blocks(
            run(steps, o, s, t),
            pow2(j),
            table_root(s.len(), twiddles),
        ),
    decreases j,
{
    let n = s.len();
    let lg = ntt::lg(n);
    let w = table_root(n, twiddles);
    let x = run(steps, o, s, t);
    ntt::lemma_domain(n);
    lemma_run_len(steps, o, s, t);
    lemma2_to64();
    assert(steps[o + j] == schedule::ntt_step(input, lg as int, twiddles, j as int));
    if j == 0 {
        dft::lemma_bit_reversed(x, lg);
        dft::lemma_blocks_start(x, w);
    } else {
        let h = (j - 1) as nat;
        lemma_transform(steps, o, input, twiddles, s, t, h);
        let y = run(steps, o + j, s, t);
        lemma_run_len(steps, o + j, s, t);
        lemma_stage_numbers(lg, j);
        lemma_stage_casts(lg, j);
        let stride = pow2((lg - j) as nat);
        let len = pow2(j);
        let root = ring::power(w, stride);
        assert forall|i: int| 0 <= i < n implies #[trigger] kernels::table_butterfly(
            i,
            y,
            len as int,
            table(t, twiddles),
            stride as int,
        ) == dft::butterfly(y, len as int, root, i) by {
            kernels::lemma_table_butterfly(i, y, len as int, w, n / 2, stride);
        }
        assert(step_output(steps[o + j], y, t) =~= dft::stage(y, len as int, root));
        ntt::lemma_lg(h);
        dft::lemma_stage(x, pow2(h), w);
    }
}

/// The launches of the coset transform compute the evaluations on the coset.
pub proof fn lemma_run_coset(s: Seq<Fr>, t: Tables)
    requires
        prover::provable_domain(s.len()),
        s.len() >= 2,
        t.of_size(s.len()),
        dft::all_wf(s),
    ensures
        ({
            let steps = schedule::coset_steps(ntt::lg(s.len()) as int);
            run(steps, steps.len() as int, s, t) == ntt::on_coset(
                s,
                prover::coset_shift(s.len()),
            )
        }),
        dft::all_wf(ntt::on_coset(s, prover::coset_shift(s.len()))),
{
    broadcast use {ring::group_wf, ring::lemma_wf_power};

    let n = s.len();
    let lg = ntt::lg(n) as int;
    let steps = schedule::coset_steps(lg);
    let (w, v) = (ntt::omega(n), ntt::omega(n).inv_spec());
    let shift = prover::coset_shift(n);
    let n_inv = t.n_inv;
    ntt::lemma_domain(n);
    field::lemma_two_adic_root((lg + 1) as nat);
    let evals = schedule::ntt_result(Buf::A, lg);
    // inverse transform
    assert forall|i: int| 0 <= i <= lg implies #[trigger] steps[0 + i] == schedule::ntt_step(
        Buf::A,
        lg,
        Twiddles::Inverse,
        i,
    ) by {}
    lemma_transform(steps, 0, Buf::A, Twiddles::Inverse, s, t, lg as nat);
    let x = run(steps, lg + 1, s, t);
    dft::lemma_radix2(s, v);
    assert(x == dft::dft(s, v));
    // scale
    let d = run(steps, lg + 2, s, t);
    let c = ntt::interpolated(s);
    ntt::lemma_interpolated_wf(s);
    assert forall|i: int| 0 <= i < n implies #[trigger] d[i] == c[i] * ring::power(
        shift,
        i as nat,
    ) && d[i].wf() by {
        dft::lemma_eval_wf(s, ring::power(v, i as nat));
        let (p, q) = (x[i], ring::power(shift, i as nat));
        assert(c[i] == p * n_inv);
        Fr::multiplicative(p, q, n_inv);
        Fr::multiplicative(q, n_inv, p);
        Fr::multiplicative(p, n_inv, q);
    }
    assert(d.len() == n);
    // forward transform
    assert forall|i: int| 0 <= i <= lg implies #[trigger] steps[lg + 2 + i] == schedule::ntt_step(
        evals.opposite(),
        lg,
        Twiddles::Forward,
        i,
    ) by {}
    lemma_transform(steps, lg + 2, evals.opposite(), Twiddles::Forward, s, t, lg as nat);
    assert(dft::all_wf(d));
    dft::lemma_radix2(d, w);
    let r = run(steps, steps.len() as int, s, t);
    assert(r == dft::dft(d, w));
    assert forall|k: int| 0 <= k < n implies #[trigger] r[k] == ntt::on_coset(s, shift)[k] && r[
    k].wf() by {
        dft::lemma_shifted_eval(c, d, shift, ring::power(w, k as nat));
        dft::lemma_eval_wf(d, ring::power(w, k as nat));
    }
    assert(r =~= ntt::on_coset(s, shift));
}

/// Evaluations on `H` → evaluations on the coset `shift·H` (inverse NTT,
/// scale by `1/n`, coset scale, forward NTT), through the kernels.
pub fn h_to_coset<L: Launcher>(l: &L, evals: Vec<Fr>, t: &Tables) -> (r: Vec<Fr>)
    requires
        evals@.len() >= 2,
        prover::provable_domain(evals@.len()),
        t.of_size(evals@.len()),
    ensures
        r@.len() == evals@.len(),
        dft::all_wf(evals@) ==> r@ == ntt::on_coset(evals@, prover::coset_shift(evals@.len()))
            && dft::all_wf(r@),
{
    let mut scratch = prover::zeros(evals.len());
    h_to_coset_with(l, evals, &mut scratch, t)
}

/// [`h_to_coset`] with a caller-owned scratch buffer of the same length (so a
/// long run keeps one scratch allocation): executes [`schedule::coset`] over
/// the two buffers and returns the one the schedule names as the result,
/// leaving the other in `scratch`.
pub fn h_to_coset_with<L: Launcher>(
    l: &L,
    evals: Vec<Fr>,
    scratch: &mut Vec<Fr>,
    t: &Tables,
) -> (r: Vec<Fr>)
    requires
        evals@.len() >= 2,
        old(scratch)@.len() == evals@.len(),
        prover::provable_domain(evals@.len()),
        t.of_size(evals@.len()),
    ensures
        final(scratch)@.len() == evals@.len(),
        r@.len() == evals@.len(),
        dft::all_wf(evals@) ==> r@ == ntt::on_coset(evals@, prover::coset_shift(evals@.len()))
            && dft::all_wf(r@),
{
    let ghost s = evals@;
    let n = evals.len();
    let mut a = evals;
    let mut b: Vec<Fr> = Vec::new();
    std::mem::swap(scratch, &mut b);
    proof {
        ntt::lemma_domain(n as nat);
        lemma2_to64();
    }
    let sched = schedule::coset(n as u32);
    let ghost lg = ntt::lg(n as nat) as int;
    let ghost steps = sched.steps@;
    let mut k: usize = 0;
    while k < sched.steps.len()
        invariant
            k <= steps.len(),
            n >= 2,
            n == s.len(),
            lg == ntt::lg(n as nat),
            lg >= 1,
            steps == sched.steps@,
            steps == schedule::coset_steps(lg),
            prover::provable_domain(n as nat),
            t.of_size(n as nat),
            a@.len() == n,
            b@.len() == n,
            (if k == 0 || steps[k - 1].writes() == Buf::A {
                a@
            } else {
                b@
            }) == run(steps, k as int, s, *t),
        decreases steps.len() - k,
    {
        let step = sched.steps[k];
        proof {
            schedule::lemma_schedule_live(lg, k as int);
            lemma_step_fits(n as nat, *t, k as int);
        }
        match step.src() {
            Buf::A => run_step(l, &step, &a, &mut b, t),
            Buf::B => run_step(l, &step, &b, &mut a, t),
        }
        proof {
            lemma_run_len(steps, k as int, s, *t);
        }
        k = k + 1;
    }
    proof {
        schedule::lemma_schedule_live(lg, steps.len() - 1);
        if dft::all_wf(s) {
            lemma_run_coset(s, *t);
        }
        lemma_run_len(steps, k as int, s, *t);
    }
    match sched.result {
        Buf::A => {
            *scratch = b;
            a
        },
        Buf::B => {
            *scratch = a;
            b
        },
    }
}

// ---- sorting -------------------------------------------------------------------------------

/// The digits of window `w`.
pub open spec fn window(digits: Seq<u32>, n: int, w: int) -> Seq<u32> {
    digits.subrange(w * n, w * n + n)
}

/// Where the sorted indices of window `w` begin.
pub open spec fn window_base(digits: Seq<u32>, n: int, buckets: int, w: int) -> int
    decreases w,
{
    if w <= 0 {
        0
    } else {
        window_base(digits, n, buckets, w - 1) + prover::sorted_start(
            window(digits, n, w - 1),
            buckets,
        )
    }
}

/// Where bucket `b` of window `w` begins.
#[verifier::opaque]
pub open spec fn flat_start(digits: Seq<u32>, n: int, buckets: int, w: int, b: int) -> int {
    window_base(digits, n, buckets, w) + prover::sorted_start(window(digits, n, w), b)
}

/// Where the range with flat index `i` begins.
#[verifier::opaque]
pub open spec fn flat_index(digits: Seq<u32>, n: int, buckets: int, i: int) -> int {
    flat_start(digits, n, buckets, i / buckets, i % buckets)
}

/// The flat layout of all windows: `order` is every window's sorted point indices concatenated,
/// `starts` has one entry per `(window, bucket)` plus a final end, in absolute offsets.
pub open spec fn windows_sorted(
    digits: Seq<u32>,
    n: int,
    buckets: int,
    order: Seq<u32>,
    starts: Seq<u32>,
) -> bool {
    let windows = digits.len() as int / n;
    &&& starts.len() == windows * buckets + 1
    &&& order.len() == window_base(digits, n, buckets, windows)
    &&& starts.last() == order.len()
    &&& forall|i: int|
        0 <= i < windows * buckets ==> #[trigger] starts[i] == flat_index(digits, n, buckets, i)
    &&& forall|w: int, d: int|
        0 <= w < windows && 1 <= d <= buckets ==> order.subrange(
            flat_start(digits, n, buckets, w, d - 1),
            flat_start(digits, n, buckets, w, d),
        ) == #[trigger] prover::positions(window(digits, n, w), d)
}

/// Offsets are at most the number of digits.
proof fn lemma_window_base_bound(digits: Seq<u32>, n: int, buckets: int, w: int)
    requires
        n > 0,
        buckets >= 0,
        0 <= w,
        w * n <= digits.len(),
    ensures
        0 <= window_base(digits, n, buckets, w) <= w * n,
    decreases w,
{
    if w > 0 {
        assert((w - 1) * n + n == w * n) by (nonlinear_arith);
        lemma_window_base_bound(digits, n, buckets, w - 1);
        prover::lemma_sorted_start_bound(window(digits, n, w - 1), buckets);
    }
}

/// Flat indices.
proof fn lemma_flat_parts(buckets: int, w: int, b: int)
    requires
        0 <= b < buckets,
        0 <= w,
    ensures
        (w * buckets + b) / buckets == w,
        (w * buckets + b) % buckets == b,
{
    lemma_fundamental_div_mod_converse(w * buckets + b, buckets, w, b);
}

/// The flat index of bucket `b` of window `w`.
proof fn lemma_flat_index(digits: Seq<u32>, n: int, buckets: int, w: int, b: int)
    requires
        0 <= b < buckets,
        0 <= w,
    ensures
        flat_index(digits, n, buckets, w * buckets + b) == flat_start(digits, n, buckets, w, b),
{
    reveal(flat_index);
    lemma_flat_parts(buckets, w, b);
}

/// The layout of the first `w` windows.
spec fn sorted_so_far(
    digits: Seq<u32>,
    n: int,
    buckets: int,
    order: Seq<u32>,
    starts: Seq<u32>,
    w: int,
) -> bool {
    &&& order.len() == window_base(digits, n, buckets, w)
    &&& starts.len() == w * buckets
    &&& forall|i: int|
        0 <= i < w * buckets ==> #[trigger] starts[i] == flat_index(digits, n, buckets, i)
    &&& forall|v: int, d: int|
        0 <= v < w && 1 <= d <= buckets ==> order.subrange(
            flat_start(digits, n, buckets, v, d - 1),
            flat_start(digits, n, buckets, v, d),
        ) == #[trigger] prover::positions(window(digits, n, v), d)
}

/// One more window: the starts.
proof fn lemma_starts_appended(
    digits: Seq<u32>,
    n: int,
    buckets: int,
    w: int,
    before: Seq<u32>,
    s: Seq<u32>,
    after: Seq<u32>,
)
    requires
        buckets >= 0,
        w >= 0,
        before.len() == w * buckets,
        after.len() == w * buckets + buckets,
        s.len() == buckets + 1,
        forall|i: int|
            0 <= i < w * buckets ==> #[trigger] before[i] == flat_index(digits, n, buckets, i),
        forall|b: int|
            0 <= b <= buckets ==> #[trigger] s[b] == prover::sorted_start(window(digits, n, w), b),
        forall|i: int| 0 <= i < before.len() ==> after[i] == before[i],
        forall|i: int|
            before.len() <= i < after.len() ==> #[trigger] after[i] == window_base(
                digits,
                n,
                buckets,
                w,
            ) + s[i - before.len()],
    ensures
        forall|i: int|
            0 <= i < (w + 1) * buckets ==> #[trigger] after[i] == flat_index(
                digits,
                n,
                buckets,
                i,
            ),
{
    assert((w + 1) * buckets == w * buckets + buckets) by (nonlinear_arith);
    assert forall|i: int| 0 <= i < (w + 1) * buckets implies #[trigger] after[i] == flat_index(
        digits,
        n,
        buckets,
        i,
    ) by {
        if i < w * buckets {
            assert(before[i] == flat_index(digits, n, buckets, i));
        } else {
            reveal(flat_start);
            lemma_flat_index(digits, n, buckets, w, i - w * buckets);
        }
    }
}

/// One more window: the order.
proof fn lemma_order_appended(
    digits: Seq<u32>,
    n: int,
    buckets: int,
    w: int,
    before: Seq<u32>,
    o: Seq<u32>,
    s: Seq<u32>,
    v: int,
    d: int,
)
    requires
        n > 0,
        buckets >= 0,
        0 <= v <= w,
        (w + 1) * n <= digits.len(),
        1 <= d <= buckets,
        before.len() == window_base(digits, n, buckets, w),
        prover::sorted_by_digit(window(digits, n, w), buckets, o, s),
        v < w ==> before.subrange(
            flat_start(digits, n, buckets, v, d - 1),
            flat_start(digits, n, buckets, v, d),
        ) == prover::positions(window(digits, n, v), d),
    ensures
        (before + o).subrange(
            flat_start(digits, n, buckets, v, d - 1),
            flat_start(digits, n, buckets, v, d),
        ) == prover::positions(window(digits, n, v), d),
{
    reveal(flat_start);
    let (x, y) = (
        flat_start(digits, n, buckets, v, d - 1),
        flat_start(digits, n, buckets, v, d),
    );
    let vw = window(digits, n, v);
    prover::lemma_sorted_start_bound(vw, d - 1);
    prover::lemma_sorted_start_monotone(vw, d - 1, d);
    prover::lemma_sorted_start_monotone(vw, d, buckets);
    lemma_mul_inequality(w, w + 1, n);
    lemma_window_base_bound_at(digits, n, buckets, v, w);
    if v < w {
        lemma_window_base_monotone(digits, n, buckets, v + 1, w);
        assert((before + o).subrange(x, y) =~= before.subrange(x, y));
    } else {
        assert((before + o).subrange(x, y) =~= o.subrange(
            prover::sorted_start(vw, d - 1),
            prover::sorted_start(vw, d),
        ));
    }
}

/// Sort one more window.
fn append_window(
    digits: &[u32],
    n: usize,
    buckets: usize,
    w: usize,
    order: &mut Vec<u32>,
    starts: &mut Vec<u32>,
)
    requires
        n > 0,
        buckets < usize::MAX,
        digits@.len() <= u32::MAX,
        (w + 1) * n <= digits@.len(),
        forall|i: int| 0 <= i < digits@.len() ==> #[trigger] digits@[i] <= buckets,
        sorted_so_far(
            digits@,
            n as int,
            buckets as int,
            old(order)@,
            old(starts)@,
            w as int,
        ),
    ensures
        sorted_so_far(
            digits@,
            n as int,
            buckets as int,
            final(order)@,
            final(starts)@,
            w + 1,
        ),
{
    let ghost (nn, bb) = (n as int, buckets as int);
    let ghost win = window(digits@, nn, w as int);
    let ghost before_order = order@;
    let ghost before_starts = starts@;
    let len = digits.len();
    proof {
        assert((w + 1) * n == w * n + n) by (nonlinear_arith);
        assert(w * n >= 0) by (nonlinear_arith)
            requires
                w >= 0,
                n > 0,
        ;
        lemma_window_base_bound(digits@, nn, bb, w as int);
        lemma_window_base_bound(digits@, nn, bb, w + 1);
    }
    let part = vstd::slice::slice_subrange(digits, w * n, w * n + n);
    proof {
        assert(part@ =~= win);
        assert forall|i: int| 0 <= i < part@.len() implies #[trigger] part@[i] <= buckets by {
            assert(digits@[w * n + i] <= buckets);
        }
    }
    let (o, s) = counting_sort_by_digit(part, buckets);
    let base = order.len() as u32;
    proof {
        assert forall|i: int| 0 <= i < buckets implies base + #[trigger] s@[i] <= u32::MAX by {
            prover::lemma_sorted_start_monotone(win, i, bb);
        }
    }
    push_offsets(starts, &s, buckets, base);
    push_all(order, &o);
    proof {
        assert((w + 1) * buckets == w * buckets + buckets) by (nonlinear_arith);
        lemma_starts_appended(digits@, nn, bb, w as int, before_starts, s@, starts@);
        assert forall|v: int, d: int| 0 <= v < w + 1 && 1 <= d <= buckets implies order@.subrange(
            flat_start(digits@, nn, bb, v, d - 1),
            flat_start(digits@, nn, bb, v, d),
        ) == #[trigger] prover::positions(window(digits@, nn, v), d) by {
            lemma_order_appended(digits@, nn, bb, w as int, before_order, o@, s@, v, d);
        }
    }
}

/// The host's half of an all-windows MSM: counting-sort each window's digits
/// (`digits[w·n..(w+1)·n]`) and lay the results out flat, so one
/// `bucket_sum` launch over `windows · buckets` outputs sums every window.
pub fn sort_all_windows(digits: &[u32], n: usize, buckets: usize) -> (r: (Vec<u32>, Vec<u32>))
    requires
        n > 0,
        buckets < usize::MAX,
        digits@.len() % (n as nat) == 0,
        digits@.len() <= u32::MAX,
        forall|i: int| 0 <= i < digits@.len() ==> #[trigger] digits@[i] <= buckets,
    ensures
        windows_sorted(digits@, n as int, buckets as int, r.0@, r.1@),
{
    let windows = digits.len() / n;
    let mut order: Vec<u32> = Vec::new();
    let mut starts: Vec<u32> = Vec::new();
    let mut w: usize = 0;
    proof {
        lemma_fundamental_div_mod(digits@.len() as int, n as int);
        lemma_mul_is_commutative(n as int, windows as int);
        assert(0 * buckets == 0);
    }
    while w < windows
        invariant
            w <= windows,
            n > 0,
            buckets < usize::MAX,
            windows * n == digits@.len(),
            digits@.len() <= u32::MAX,
            forall|i: int| 0 <= i < digits@.len() ==> #[trigger] digits@[i] <= buckets,
            sorted_so_far(digits@, n as int, buckets as int, order@, starts@, w as int),
        decreases windows - w,
    {
        proof {
            lemma_mul_inequality(w + 1, windows as int, n as int);
        }
        append_window(digits, n, buckets, w, &mut order, &mut starts);
        w = w + 1;
    }
    proof {
        lemma_window_base_bound(digits@, n as int, buckets as int, windows as int);
    }
    let ghost done = starts@;
    starts.push(order.len() as u32);
    proof {
        assert forall|i: int| 0 <= i < windows * buckets implies #[trigger] starts@[i]
            == flat_index(digits@, n as int, buckets as int, i) by {
            assert(done[i] == flat_index(digits@, n as int, buckets as int, i));
        }
    }
    (order, starts)
}

proof fn lemma_window_base_bound_at(digits: Seq<u32>, n: int, buckets: int, v: int, w: int)
    requires
        n > 0,
        buckets >= 0,
        0 <= v <= w,
        w * n <= digits.len(),
    ensures
        0 <= window_base(digits, n, buckets, v),
{
    lemma_mul_inequality(v, w, n);
    lemma_window_base_bound(digits, n, buckets, v);
}

proof fn lemma_window_base_monotone(digits: Seq<u32>, n: int, buckets: int, v: int, w: int)
    requires
        0 <= v <= w,
    ensures
        window_base(digits, n, buckets, v) <= window_base(digits, n, buckets, w),
    decreases w - v,
{
    if v < w {
        lemma_window_base_monotone(digits, n, buckets, v, w - 1);
        prover::lemma_sorted_start_bound(window(digits, n, w - 1), buckets);
    }
}

/// Append numbers.
fn push_all(out: &mut Vec<u32>, s: &[u32])
    ensures
        final(out)@ == old(out)@ + s@,
{
    let ghost before = out@;
    let mut i: usize = 0;
    while i < s.len()
        invariant
            i <= s@.len(),
            out@ == before + s@.take(i as int),
        decreases s@.len() - i,
    {
        out.push(s[i]);
        i = i + 1;
        proof {
            assert(out@ =~= before + s@.take(i as int));
        }
    }
    proof {
        assert(s@.take(i as int) =~= s@);
    }
}

/// Append the first `count` numbers of `s`, each moved by `base`.
fn push_offsets(out: &mut Vec<u32>, s: &[u32], count: usize, base: u32)
    requires
        count <= s@.len(),
        forall|i: int| 0 <= i < count ==> base + #[trigger] s@[i] <= u32::MAX,
    ensures
        final(out)@.len() == old(out)@.len() + count,
        forall|i: int| 0 <= i < old(out)@.len() ==> final(out)@[i] == old(out)@[i],
        forall|i: int|
            old(out)@.len() <= i < final(out)@.len() ==> #[trigger] final(out)@[i] == base + s@[i
                - old(out)@.len()],
{
    let ghost before = out@;
    let mut i: usize = 0;
    while i < count
        invariant
            i <= count <= s@.len(),
            forall|i: int| 0 <= i < count ==> base + #[trigger] s@[i] <= u32::MAX,
            out@.len() == before.len() + i,
            forall|j: int| 0 <= j < before.len() ==> out@[j] == before[j],
            forall|j: int|
                before.len() <= j < out@.len() ==> #[trigger] out@[j] == base + s@[j
                    - before.len()],
        decreases count - i,
    {
        assert(base + s@[i as int] <= u32::MAX);
        out.push(base + s[i]);
        i = i + 1;
    }
}

/// A window ends where the next begins.
proof fn lemma_flat_next(digits: Seq<u32>, n: int, buckets: int, w: int)
    requires
        0 <= w,
    ensures
        flat_start(digits, n, buckets, w, buckets) == window_base(digits, n, buckets, w + 1),
        flat_start(digits, n, buckets, w + 1, 0) == window_base(digits, n, buckets, w + 1),
{
    reveal(flat_start);
}

/// Each range of a window begins where the layout says, and the last ends there.
proof fn lemma_flat_at(
    digits: Seq<u32>,
    n: int,
    buckets: int,
    order: Seq<u32>,
    starts: Seq<u32>,
    w: int,
    b: int,
)
    requires
        buckets > 0,
        0 <= w < digits.len() as int / n,
        0 <= b <= buckets,
        windows_sorted(digits, n, buckets, order, starts),
    ensures
        0 <= w * buckets + b < starts.len(),
        starts[w * buckets + b] == flat_start(digits, n, buckets, w, b),
{
    let windows = digits.len() as int / n;
    assert((w + 1) * buckets == w * buckets + buckets) by (nonlinear_arith);
    lemma_mul_inequality(w + 1, windows, buckets);
    lemma_mul_nonnegative(w, buckets);
    if b < buckets {
        lemma_flat_index(digits, n, buckets, w, b);
        assert(starts[w * buckets + b] == flat_index(digits, n, buckets, w * buckets + b));
    } else if w + 1 < windows {
        lemma_flat_index(digits, n, buckets, w + 1, 0);
        lemma_mul_inequality(w + 2, windows, buckets);
        assert((w + 2) * buckets == (w + 1) * buckets + buckets) by (nonlinear_arith);
        assert(starts[(w + 1) * buckets] == flat_index(
            digits,
            n,
            buckets,
            (w + 1) * buckets + 0,
        ));
        lemma_flat_next(digits, n, buckets, w);
    } else {
        lemma_flat_next(digits, n, buckets, w);
    }
}

/// Neighbouring starts ascend.
proof fn lemma_flat_step(
    digits: Seq<u32>,
    n: int,
    buckets: int,
    order: Seq<u32>,
    starts: Seq<u32>,
    i: int,
)
    requires
        buckets > 0,
        windows_sorted(digits, n, buckets, order, starts),
        0 <= i < starts.len() - 1,
    ensures
        plan::span(starts, i) >= 0,
{
    let windows = digits.len() as int / n;
    let (w, b) = (i / buckets, i % buckets);
    lemma_fundamental_div_mod(i, buckets);
    lemma_mod_bound(i, buckets);
    lemma_mul_is_commutative(buckets, w);
    lemma_div_pos_is_pos(i, buckets);
    assert(w < windows) by (nonlinear_arith)
        requires
            w * buckets <= i,
            i < windows * buckets,
            buckets > 0,
    ;
    lemma_flat_at(digits, n, buckets, order, starts, w, b);
    lemma_flat_at(digits, n, buckets, order, starts, w, b + 1);
    assert(flat_start(digits, n, buckets, w, b) <= flat_start(digits, n, buckets, w, b + 1)) by {
        reveal(flat_start);
        prover::lemma_sorted_start_monotone(window(digits, n, w), b, b + 1);
    }
}

/// The flat starts ascend.
proof fn lemma_flat_ranges(
    digits: Seq<u32>,
    n: int,
    buckets: int,
    order: Seq<u32>,
    starts: Seq<u32>,
)
    requires
        buckets > 0,
        starts.len() > 0,
        windows_sorted(digits, n, buckets, order, starts),
    ensures
        plan::ranges(starts),
{
    assert forall|r: int, q: int| 0 <= r <= q < starts.len() implies #[trigger] starts[r]
        <= #[trigger] starts[q] by {
        lemma_flat_pair(digits, n, buckets, order, starts, r, q);
    }
}

proof fn lemma_flat_pair(
    digits: Seq<u32>,
    n: int,
    buckets: int,
    order: Seq<u32>,
    starts: Seq<u32>,
    r: int,
    q: int,
)
    requires
        buckets > 0,
        windows_sorted(digits, n, buckets, order, starts),
        0 <= r <= q < starts.len(),
    ensures
        starts[r] <= starts[q],
    decreases q - r,
{
    if r < q {
        lemma_flat_pair(digits, n, buckets, order, starts, r, q - 1);
        lemma_flat_step(digits, n, buckets, order, starts, q - 1);
    }
}

// ---- multi-scalar sums -------------------------------------------------------------------------

/// Window sums from the flat bucket sums (`windows · buckets` entries).
pub fn reduce_all_windows<F: Field>(sums: &[Jacobian<F>], buckets: usize) -> (r: Vec<Jacobian<F>>)
    requires
        buckets > 0,
    ensures
        r@.len() == sums@.len() / (buckets as nat),
        forall|b: F, w: int|
            #![trigger reference::jacobians_on_curve(sums@, b), r@[w]]
            reference::jacobians_on_curve(sums@, b) && 0 <= w < r@.len() ==> r@[w].wf()
                && r@[w].pt() == group::counted(
                reference::jacobian_pts(sums@).subrange(w * buckets, w * buckets + buckets),
            ),
{
    let n = sums.len() / buckets;
    let mut r: Vec<Jacobian<F>> = Vec::with_capacity(n);
    let mut w: usize = 0;
    proof {
        lemma_fundamental_div_mod(sums@.len() as int, buckets as int);
        lemma_mul_is_commutative(buckets as int, n as int);
    }
    let len = sums.len();
    while w < n
        invariant
            w <= n,
            buckets > 0,
            n * buckets <= sums@.len(),
            sums@.len() == len,
            r@.len() == w,
            forall|b: F, v: int|
                #![trigger reference::jacobians_on_curve(sums@, b), r@[v]]
                reference::jacobians_on_curve(sums@, b) && 0 <= v < w ==> r@[v].wf() && r@[v].pt()
                    == group::counted(
                    reference::jacobian_pts(sums@).subrange(v * buckets, v * buckets + buckets),
                ),
        decreases n - w,
    {
        proof {
            assert((w + 1) * buckets == w * buckets + buckets) by (nonlinear_arith);
            lemma_mul_inequality(w + 1, n as int, buckets as int);
            assert(w * buckets >= 0) by (nonlinear_arith)
                requires
                    w >= 0,
                    buckets > 0,
            ;
        }
        let part = vstd::slice::slice_subrange(sums, w * buckets, w * buckets + buckets);
        let total = reduce_buckets(part);
        proof {
            assert(reference::jacobian_pts(part@) =~= reference::jacobian_pts(sums@).subrange(
                w * buckets,
                w * buckets + buckets,
            ));
            assert forall|b: F| #[trigger] reference::jacobians_on_curve(
                sums@,
                b,
            ) implies reference::jacobians_on_curve(part@, b) by {
                assert forall|i: int| 0 <= i < part@.len() implies (#[trigger] part@[i]).wf()
                    && part@[i].pt().on(b) by {
                    assert(sums@[w * buckets + i].wf());
                }
            }
        }
        r.push(total);
        w = w + 1;
    }
    r
}

/// The points at given indices.
pub open spec fn points_at<F: Field>(p: Seq<Pt<F>>, indices: Seq<u32>) -> Seq<Pt<F>> {
    Seq::new(indices.len(), |j: int| p[indices[j] as int])
}

/// The sums of the buckets of a digit sequence.
pub open spec fn bucket_sums<F: Field>(p: Seq<Pt<F>>, digits: Seq<u32>, buckets: nat) -> Seq<
    Pt<F>,
> {
    Seq::new(buckets, |b: int| group::sum(points_at(p, prover::positions(digits, b + 1))))
}

/// Digits as weights.
pub open spec fn digit_weights(digits: Seq<u32>) -> Seq<nat> {
    Seq::new(digits.len(), |i: int| digits[i] as nat)
}

/// Positions are indices.
proof fn lemma_positions_bound(digits: Seq<u32>, d: int, j: int)
    requires
        digits.len() <= u32::MAX,
        0 <= j < prover::positions(digits, d).len(),
    ensures
        prover::positions(digits, d)[j] < digits.len(),
    decreases digits.len(),
{
    let rest = prover::positions(digits.drop_last(), d);
    if j < rest.len() {
        lemma_positions_bound(digits.drop_last(), d, j);
    }
}

/// Each bucket sum counted as often as its digit says gives the weighted sum.
pub proof fn lemma_bucket_sums<F: Field>(
    p: Seq<Pt<F>>,
    digits: Seq<u32>,
    buckets: nat,
    n: int,
    b: F,
)
    requires
        curve::smooth(b),
        group::all_on(p, b),
        p.len() == digits.len(),
        digits.len() <= u32::MAX,
        0 <= n <= digits.len(),
        forall|i: int| 0 <= i < digits.len() ==> #[trigger] digits[i] <= buckets,
    ensures
        group::all_on(bucket_sums(p, digits.take(n), buckets), b),
        group::counted(bucket_sums(p, digits.take(n), buckets)) == group::weighted(
            p.take(n),
            digit_weights(digits),
        ),
    decreases n,
{
    let t = bucket_sums(p, digits.take(n), buckets);
    if n == 0 {
        assert forall|i: int| 0 <= i < t.len() implies #[trigger] t[i] == Pt::<F>::Infinity by {
            assert(digits.take(0) =~= Seq::empty());
            assert(points_at(p, prover::positions(digits.take(0), i + 1)) =~= Seq::empty());
        }
        group::lemma_counted_empty(t);
        assert(group::weighted(p.take(0), digit_weights(digits)) == Pt::<F>::Infinity) by {
            let w = digit_weights(digits);
            group::lemma_sum_identities(
                Seq::new(p.take(0).len(), |i: int| group::times(p.take(0)[i], w[i])),
            );
        }
    } else {
        let m = n - 1;
        let e = digits[m] as int;
        let u = bucket_sums(p, digits.take(m), buckets);
        lemma_bucket_sums(p, digits, buckets, m, b);
        group::lemma_weighted_step(p, digit_weights(digits), m);
        assert(digits.take(n).drop_last() =~= digits.take(m));
        assert(p[m].on(b));
        if e == 0 {
            assert forall|i: int| 0 <= i < buckets implies #[trigger] t[i] == u[i] by {
                assert(prover::positions(digits.take(n), i + 1) == prover::positions(
                    digits.take(m),
                    i + 1,
                ));
            }
            assert(t =~= u);
            group::lemma_plus_identity(group::weighted(p.take(m), digit_weights(digits)));
        } else {
            assert forall|i: int| 0 <= i < buckets implies #[trigger] t[i] == u.update(
                e - 1,
                u[e - 1].plus(p[m]),
            )[i] by {
                let (x, y) = (
                    prover::positions(digits.take(n), i + 1),
                    prover::positions(digits.take(m), i + 1),
                );
                if i == e - 1 {
                    assert(x == y.push(m as u32));
                    assert(points_at(p, x).drop_last() =~= points_at(p, y));
                    assert(points_at(p, x).last() == p[m]);
                } else {
                    assert(x == y);
                }
            }
            assert(t =~= u.update(e - 1, u[e - 1].plus(p[m])));
            group::lemma_counted_update(u, e - 1, p[m], b);
        }
    }
}

/// Window sums combined by Horner's rule give the multi-scalar sum.
pub proof fn lemma_windows_combine<F: Field>(
    p: Seq<Pt<F>>,
    canonical: Seq<[u64; 4]>,
    scalars: Seq<Fr>,
    sums: Seq<Pt<F>>,
    w: nat,
    j: int,
    b: F,
)
    requires
        curve::smooth(b),
        group::all_on(p, b),
        p.len() == canonical.len() == scalars.len(),
        forall|i: int|
            0 <= i < scalars.len() ==> limbs::value(#[trigger] canonical[i]) == scalars[i].val(),
        sums.len() * w >= 256,
        0 <= j <= sums.len(),
        forall|v: int|
            0 <= v < sums.len() ==> #[trigger] sums[v] == group::weighted(
                p,
                reference::window_digits(canonical, v as nat, w),
            ),
    ensures
        group::all_on(sums, b),
        group::windowed(sums.subrange(j, sums.len() as int), w) == group::weighted(
            p,
            reference::leading_parts(canonical, (j as nat) * w),
        ),
    decreases sums.len() - j,
{
    let n = sums.len() as int;
    assert forall|v: int| 0 <= v < n implies (#[trigger] sums[v]).on(b) by {
        group::lemma_weighted_on(p, reference::window_digits(canonical, v as nat, w), b);
    }
    let t = sums.subrange(j, n);
    if j == n {
        assert(t =~= Seq::empty());
        group::lemma_sum_identities(
            Seq::<Pt<F>>::new(
                t.len(),
                |i: int| group::times(t[i], group::window_weights(t.len(), w)[i]),
            ),
        );
        reference::lemma_horner_ends(p, canonical, scalars, (n as nat) * w);
    } else {
        lemma_windows_combine(p, canonical, scalars, sums, w, j + 1, b);
        let u = sums.subrange(j + 1, n);
        assert(t =~= seq![sums[j]] + u);
        assert(group::all_on(u, b));
        group::lemma_windowed_below(sums[j], u, w, b);
        reference::lemma_horner_step(p, canonical, j as nat, w, b);
        assert(sums[j] == group::weighted(p, reference::window_digits(canonical, j as nat, w)));
    }
}

/// All windows' digits, window after window.
pub open spec fn all_digits_of(canonical: Seq<[u64; 4]>, w: nat, windows: nat) -> Seq<u32> {
    let n = canonical.len() as int;
    Seq::new(
        windows * canonical.len(),
        |i: int| scalar::digit_of(limbs::value(canonical[i % n]), (i / n) as nat, w) as u32,
    )
}

/// One launch for all windows' digits.
pub(crate) fn all_digits<L: Launcher>(l: &L, canonical: &Vec<[u64; 4]>, w: u32, windows: usize) -> (digits:
    Vec<u32>)
    requires
        canonical@.len() > 0,
        1 <= w <= 20,
        windows <= 256,
        windows * canonical@.len() <= u32::MAX,
    ensures
        digits@ == all_digits_of(canonical@, w as nat, windows as nat),
        forall|i: int| 0 <= i < digits@.len() ==> #[trigger] digits@[i] < pow2(w as nat),
{
    let n = canonical.len();
    let total = windows * n;
    let mut digits = prover::repeated(0, total);
    let body = |i: usize| -> (d: u32)
        requires
            canonical@.len() > 0,
            canonical@.len() == n,
            1 <= w <= 20,
            i < total,
            total == windows * n,
            windows <= 256,
        ensures
            d == scalar::digit_of(
                limbs::value(canonical@[i as int % n as int]),
                (i as int / n as int) as nat,
                w as nat,
            ),
            d < pow2(w as nat),
        {
            proof {
                lemma_fundamental_div_mod(i as int, n as int);
                assert(i / n < 256) by (nonlinear_arith)
                    requires
                        n * (i / n) <= i,
                        i < windows * n,
                        windows <= 256,
                        n > 0,
                ;
                assert((i / n) * w <= 256 * 20) by (nonlinear_arith)
                    requires
                        0 <= i / n < 256,
                        w <= 20,
                ;
            }
            kernels::digit_all(i, canonical, w)
        };
    l.map(&mut digits, body);
    proof {
        assert forall|i: int| 0 <= i < total implies #[trigger] digits@[i] == all_digits_of(
            canonical@,
            w as nat,
            windows as nat,
        )[i] && digits@[i] < pow2(w as nat) by {
            assert(body.ensures((i as usize,), digits@[(i as usize) as int]));
        }
        assert(digits@ =~= all_digits_of(canonical@, w as nat, windows as nat));
    }
    digits
}

/// A window of all digits is that window's digits.
proof fn lemma_window_of_digits(canonical: Seq<[u64; 4]>, w: nat, windows: nat, v: int)
    requires
        canonical.len() > 0,
        0 <= v < windows,
        w <= 20,
    ensures
        ({
            let d = all_digits_of(canonical, w, windows);
            let n = canonical.len() as int;
            &&& v * n >= 0
            &&& v * n + n <= d.len()
            &&& digit_weights(window(d, n, v)) == reference::window_digits(canonical, v as nat, w)
        }),
{
    let d = all_digits_of(canonical, w, windows);
    let n = canonical.len() as int;
    assert((v + 1) * n == v * n + n) by (nonlinear_arith);
    lemma_mul_inequality(v + 1, windows as int, n);
    lemma_mul_nonnegative(v, n);
    lemma_pow2_pos(w);
    lemma2_to64();
    if w < 32 {
        lemma_pow2_strictly_increases(w, 32);
    }
    let (x, y) = (
        digit_weights(window(d, n, v)),
        reference::window_digits(canonical, v as nat, w),
    );
    assert forall|i: int| 0 <= i < n implies #[trigger] x[i] == y[i] by {
        lemma_fundamental_div_mod_converse(v * n + i, n, v, i);
        let value = limbs::value(canonical[i]) / (pow2((v as nat) * w) as int);
        lemma_mod_bound(value, pow2(w) as int);
        assert(window(d, n, v)[i] == d[v * n + i]);
    }
    assert(x =~= y);
}

/// Each level of a plan covers the level below it.
pub open spec fn chained(levels: Seq<Seq<u32>>, entries: int) -> bool {
    &&& levels.len() > 0
    &&& forall|k: int| 0 <= k < levels.len() ==> plan::ranges(#[trigger] levels[k])
    &&& levels[0].last() == entries
    &&& forall|j: int, k: int|
        0 <= j && k == j + 1 && k < levels.len() ==> (#[trigger] levels[k]).last() == (
        #[trigger] levels[j]).len() - 1
}

/// Run a plan: one bucket-sum launch over the first level's pieces, one sum launch per level
/// above it.
fn planned_sums<L: Launcher, F: Field + Send + Sync>(
    l: &L,
    points: &[Affine<F>],
    order: &Vec<u32>,
    levels: &Vec<Vec<u32>>,
) -> (sums: Vec<Jacobian<F>>)
    requires
        chained(plan::views(levels@), order@.len() as int),
        forall|j: int| 0 <= j < order@.len() ==> #[trigger] order@[j] < points@.len(),
    ensures
        sums@.len() == plan::views(levels@).last().len() - 1,
        (forall|i: int| 0 <= i < points@.len() ==> (#[trigger] points@[i]).wf()) ==> {
            &&& forall|i: int| 0 <= i < sums@.len() ==> (#[trigger] sums@[i]).wf()
            &&& reference::jacobian_pts(sums@) == plan::plan_sums(
                points_at(reference::pts(points@), order@),
                plan::views(levels@),
            )
        },
{
    let ghost views = plan::views(levels@);
    let ghost wf = forall|i: int| 0 <= i < points@.len() ==> (#[trigger] points@[i]).wf();
    let ghost entries = points_at(reference::pts(points@), order@);
    let first = &levels[0];
    assert(plan::ranges(views[0]));
    let n = first.len() - 1;
    let mut sums = reference::identities::<F>(n);
    let body = |b: usize| -> (r: Jacobian<F>)
        requires
            b + 1 < first@.len(),
            plan::ranges(first@),
            first@.last() == order@.len(),
            forall|j: int| 0 <= j < order@.len() ==> #[trigger] order@[j] < points@.len(),
        ensures
            (forall|i: int| 0 <= i < points@.len() ==> (#[trigger] points@[i]).wf()) ==> r.wf()
                && r.pt() == group::sum(
                kernels::named_points(
                    points@,
                    order@,
                    first@[b as int] as int,
                    first@[b + 1] as int,
                ),
            ),
        {
            assert(first@[b as int] <= first@[b + 1]);
            assert(first@[b + 1] <= first@[first@.len() - 1]);
            kernels::bucket_sum(b, points, order, first)
        };
    l.map(&mut sums, body);
    proof {
        if wf {
            assert forall|i: int| 0 <= i < n implies (#[trigger] sums@[i]).wf() && sums@[i].pt()
                == plan::level_sums(entries, views[0])[i] by {
                assert(body.ensures((i as usize,), sums@[(i as usize) as int]));
                assert(first@[i] <= first@[i + 1]);
                assert(first@[i + 1] <= first@[first@.len() - 1]);
                assert(kernels::named_points(
                    points@,
                    order@,
                    first@[i] as int,
                    first@[i + 1] as int,
                ) =~= entries.subrange(first@[i] as int, first@[i + 1] as int));
            }
            assert(views.take(1).drop_last() =~= Seq::empty());
            assert(views.take(1).last() == views[0]);
            assert(plan::plan_sums(entries, views.take(1).drop_last()) == entries);
            assert(plan::plan_sums(entries, views.take(1)) == plan::level_sums(entries, views[0]));
            assert(reference::jacobian_pts(sums@) =~= plan::plan_sums(entries, views.take(1)));
        }
    }
    let mut k: usize = 1;
    while k < levels.len()
        invariant
            1 <= k <= levels@.len(),
            views == plan::views(levels@),
            chained(views, order@.len() as int),
            wf == (forall|i: int| 0 <= i < points@.len() ==> (#[trigger] points@[i]).wf()),
            sums@.len() == views[k - 1].len() - 1,
            wf ==> (forall|i: int| 0 <= i < sums@.len() ==> (#[trigger] sums@[i]).wf()),
            wf ==> reference::jacobian_pts(sums@) == plan::plan_sums(
                entries,
                views.take(k as int),
            ),
        decreases levels@.len() - k,
    {
        let level = &levels[k];
        assert(plan::ranges(views[k as int]));
        let ghost below = sums@;
        let source = &sums;
        let m = level.len() - 1;
        let mut next = reference::identities::<F>(m);
        let body = |b: usize| -> (r: Jacobian<F>)
            requires
                b + 1 < level@.len(),
                plan::ranges(level@),
                level@.last() == source@.len(),
            ensures
                (forall|i: int| 0 <= i < source@.len() ==> (#[trigger] source@[i]).wf()) ==> r.wf()
                    && r.pt() == group::sum(
                    reference::jacobian_pts(source@).subrange(
                        level@[b as int] as int,
                        level@[b + 1] as int,
                    ),
                ),
            {
                assert(level@[b as int] <= level@[b + 1]);
                assert(level@[b + 1] <= level@[level@.len() - 1]);
                kernels::jacobian_sum(b, source, level)
            };
        l.map(&mut next, body);
        proof {
            if wf {
                let prev = reference::jacobian_pts(below);
                assert forall|i: int| 0 <= i < m implies (#[trigger] next@[i]).wf() && next@[i].pt()
                    == plan::level_sums(prev, views[k as int])[i] by {
                    assert(body.ensures((i as usize,), next@[(i as usize) as int]));
                }
                assert(views.take(k + 1).drop_last() =~= views.take(k as int));
                assert(views.take(k + 1).last() == views[k as int]);
                assert(reference::jacobian_pts(next@) =~= plan::plan_sums(
                    entries,
                    views.take(k + 1),
                ));
            }
        }
        sums = next;
        k = k + 1;
    }
    proof {
        assert(views.take(k as int) =~= views);
    }
    sums
}

/// The number of points that 32-bit indices allow.
pub open spec fn countable(n: int) -> bool {
    22 * n <= u32::MAX
}

/// The sum of one range of the layout is the sum of one bucket.
proof fn lemma_msm_bucket<F: Field>(
    p: Seq<Pt<F>>,
    digits: Seq<u32>,
    n: int,
    buckets: int,
    order: Seq<u32>,
    starts: Seq<u32>,
    v: int,
    i: int,
)
    requires
        buckets > 0,
        0 <= v < digits.len() as int / n,
        0 <= i < buckets,
        windows_sorted(digits, n, buckets, order, starts),
    ensures
        0 <= v * buckets + i < starts.len() - 1,
        plan::level_sums(points_at(p, order), starts)[v * buckets + i] == group::sum(
            points_at(p, prover::positions(window(digits, n, v), i + 1)),
        ),
{
    let entries = points_at(p, order);
    let (x, y) = (
        flat_start(digits, n, buckets, v, i),
        flat_start(digits, n, buckets, v, i + 1),
    );
    let win = window(digits, n, v);
    let q = prover::positions(win, i + 1);
    lemma_flat_at(digits, n, buckets, order, starts, v, i);
    lemma_flat_at(digits, n, buckets, order, starts, v, i + 1);
    lemma_flat_pair(
        digits,
        n,
        buckets,
        order,
        starts,
        v * buckets + i,
        v * buckets + (i + 1),
    );
    lemma_flat_pair(
        digits,
        n,
        buckets,
        order,
        starts,
        v * buckets + (i + 1),
        starts.len() - 1,
    );
    assert(order.subrange(x, y) == q);
    assert(entries.subrange(x, y) =~= points_at(p, q)) by {
        assert forall|j: int| 0 <= j < y - x implies #[trigger] entries.subrange(x, y)[j]
            == points_at(p, q)[j] by {
            assert(order.subrange(x, y)[j] == order[x + j]);
        }
    }
}

/// The bucket sums of one window, counted, are the weighted sum of its digits.
proof fn lemma_msm_window<F: Field>(
    p: Seq<Pt<F>>,
    canonical: Seq<[u64; 4]>,
    order: Seq<u32>,
    starts: Seq<u32>,
    v: int,
    b: F,
)
    requires
        curve::smooth(b),
        group::all_on(p, b),
        p.len() == canonical.len(),
        p.len() > 0,
        22 * p.len() <= u32::MAX,
        0 <= v < 22,
        windows_sorted(
            all_digits_of(canonical, 12, 22),
            p.len() as int,
            4095,
            order,
            starts,
        ),
        forall|i: int|
            0 <= i < all_digits_of(canonical, 12, 22).len() ==> #[trigger] all_digits_of(
                canonical,
                12,
                22,
            )[i] <= 4095,
    ensures
        group::counted(
            plan::level_sums(points_at(p, order), starts).subrange(v * 4095, v * 4095 + 4095),
        ) == group::weighted(p, reference::window_digits(canonical, v as nat, 12)),
{
    let n = p.len() as int;
    let d = all_digits_of(canonical, 12, 22);
    let win = window(d, n, v);
    let t = plan::level_sums(points_at(p, order), starts);
    assert(d.len() == 22 * n);
    lemma_fundamental_div_mod_converse(22 * n, n, 22, 0);
    lemma_window_of_digits(canonical, 12, 22, v);
    let sub = t.subrange(v * 4095, v * 4095 + 4095);
    let sums = bucket_sums(p, win, 4095);
    assert(sub =~= sums) by {
        assert forall|i: int| 0 <= i < 4095 implies #[trigger] sub[i] == sums[i] by {
            lemma_msm_bucket(p, d, n, 4095, order, starts, v, i);
        }
    }
    assert forall|i: int| 0 <= i < win.len() implies #[trigger] win[i] <= 4095 by {
        assert(d[v * n + i] <= 4095);
    }
    lemma_bucket_sums(p, win, 4095, n, b);
    assert(win.take(n) =~= win);
    assert(p.take(n) =~= p);
}

/// The sums of the layout's ranges are on the curve.
proof fn lemma_layout_on<F: Field>(
    points: Seq<Affine<F>>,
    order: Seq<u32>,
    starts: Seq<u32>,
    b: F,
)
    requires
        reference::on_curve(points, b),
        plan::ranges(starts),
        starts.last() == order.len(),
        forall|j: int| 0 <= j < order.len() ==> #[trigger] order[j] < points.len(),
    ensures
        group::all_on(reference::pts(points), b),
        group::all_on(points_at(reference::pts(points), order), b),
        group::all_on(
            plan::level_sums(points_at(reference::pts(points), order), starts),
            b,
        ),
{
    let p = reference::pts(points);
    let entries = points_at(p, order);
    assert forall|i: int| 0 <= i < p.len() implies (#[trigger] p[i]).on(b) by {
        assert(points[i].pt().on(b));
    }
    assert forall|j: int| 0 <= j < entries.len() implies (#[trigger] entries[j]).on(b) by {
        assert(order[j] < points.len());
        assert(p[order[j] as int].on(b));
    }
    plan::lemma_level_sums_on(entries, starts, b);
}

/// The planned sums are those of the layout's ranges.
proof fn lemma_planned<F: Field>(
    points: Seq<Affine<F>>,
    order: Seq<u32>,
    starts: Seq<u32>,
    levels: Seq<Seq<u32>>,
    b: F,
)
    requires
        reference::on_curve(points, b),
        plan::ranges(starts),
        plan::indexable(starts, 64),
        plan::plan_of(levels, starts, 64),
        starts.last() == order.len(),
        forall|j: int| 0 <= j < order.len() ==> #[trigger] order[j] < points.len(),
    ensures
        ({
            let entries = points_at(reference::pts(points), order);
            plan::plan_sums(entries, levels) == plan::level_sums(entries, starts)
        }),
{
    lemma_layout_on(points, order, starts, b);
    plan::lemma_plan_sums(
        points_at(reference::pts(points), order),
        levels,
        starts,
        64,
        b,
    );
}

/// Window sums of all windows give the multi-scalar sum.
proof fn lemma_msm_combined<F: Field>(
    p: Seq<Pt<F>>,
    canonical: Seq<[u64; 4]>,
    scalars: Seq<Fr>,
    ws: Seq<Pt<F>>,
    b: F,
)
    requires
        curve::smooth(b),
        group::all_on(p, b),
        p.len() == canonical.len() == scalars.len(),
        forall|i: int|
            0 <= i < scalars.len() ==> limbs::value(#[trigger] canonical[i]) == scalars[i].val(),
        ws.len() == 22,
        forall|v: int|
            0 <= v < 22 ==> #[trigger] ws[v] == group::weighted(
                p,
                reference::window_digits(canonical, v as nat, 12),
            ),
    ensures
        group::all_on(ws, b),
        group::windowed(ws, 12) == group::weighted(p, reference::vals(scalars)),
{
    lemma_windows_combine(p, canonical, scalars, ws, 12, 0, b);
    assert(ws.subrange(0, ws.len() as int) =~= ws);
    assert((0nat) * (12nat) == 0);
    reference::lemma_horner_ends(p, canonical, scalars, 256);
}

/// Digits of twelve bits are at most 4095.
pub(crate) proof fn lemma_all_digits_bound(canonical: Seq<[u64; 4]>)
    requires
        canonical.len() > 0,
    ensures
        all_digits_of(canonical, 12, 22).len() == 22 * canonical.len(),
        all_digits_of(canonical, 12, 22).len() % canonical.len() == 0,
        all_digits_of(canonical, 12, 22).len() / canonical.len() == 22,
        forall|i: int|
            0 <= i < all_digits_of(canonical, 12, 22).len() ==> #[trigger] all_digits_of(
                canonical,
                12,
                22,
            )[i] <= 4095,
{
    let n = canonical.len() as int;
    let d = all_digits_of(canonical, 12, 22);
    lemma2_to64();
    assert(pow2(12) == 4096);
    lemma_fundamental_div_mod_converse(22 * n, n, 22, 0);
    assert forall|i: int| 0 <= i < d.len() implies #[trigger] d[i] <= 4095 by {
        let value = limbs::value(canonical[i % n]) / (pow2(((i / n) as nat) * 12) as int);
        lemma_mod_bound(value, 4096);
    }
}

/// What the host's sort hands to the bucket sums: ranges that a plan can cut, over indices of
/// points.
pub(crate) proof fn lemma_sorted_layout(
    canonical: Seq<[u64; 4]>,
    order: Seq<u32>,
    starts: Seq<u32>,
)
    requires
        canonical.len() > 0,
        countable(canonical.len() as int),
        windows_sorted(
            all_digits_of(canonical, 12, 22),
            canonical.len() as int,
            4095,
            order,
            starts,
        ),
    ensures
        plan::ranges(starts),
        plan::indexable(starts, 64),
        starts.len() == 90091,
        starts.last() == order.len(),
        forall|j: int| 0 <= j < order.len() ==> #[trigger] order[j] < canonical.len(),
{
    lemma_all_digits_bound(canonical);
    lemma_digits_layout(
        all_digits_of(canonical, 12, 22),
        canonical.len() as int,
        order,
        starts,
    );
}

/// The same of any digits, one for each of 22 windows and `n` points.
pub(crate) proof fn lemma_digits_layout(
    digits: Seq<u32>,
    n: int,
    order: Seq<u32>,
    starts: Seq<u32>,
)
    requires
        n > 0,
        countable(n),
        digits.len() == 22 * n,
        windows_sorted(digits, n, 4095, order, starts),
    ensures
        plan::ranges(starts),
        plan::indexable(starts, 64),
        starts.len() == 90091,
        starts.last() == order.len(),
        order.len() <= 22 * n,
        forall|j: int| 0 <= j < order.len() ==> #[trigger] order[j] < n,
{
    lemma_fundamental_div_mod_converse(22 * n, n, 22, 0);
    lemma_flat_ranges(digits, n, 4095, order, starts);
    lemma_window_base_bound(digits, n, 4095, 22);
    lemma_order_bound(digits, n, 4095, order, starts);
    plan::lemma_piece_index_chunks(starts, 64, 90090);
}

/// Where every digit is zero, the sum is the identity.
pub(crate) proof fn lemma_msm_empty<F: Field>(
    points: Seq<Affine<F>>,
    scalars: Seq<Fr>,
    canonical: Seq<[u64; 4]>,
    order: Seq<u32>,
    starts: Seq<u32>,
    b: F,
)
    requires
        reference::on_curve(points, b),
        points.len() > 0,
        points.len() == scalars.len() == canonical.len(),
        countable(points.len() as int),
        forall|i: int|
            0 <= i < scalars.len() ==> limbs::value(#[trigger] canonical[i]) == scalars[i].val(),
        windows_sorted(
            all_digits_of(canonical, 12, 22),
            points.len() as int,
            4095,
            order,
            starts,
        ),
        order.len() == 0,
    ensures
        group::weighted(reference::pts(points), reference::vals(scalars)) == Pt::<F>::Infinity,
{
    lemma_sorted_layout(canonical, order, starts);
    let o = Jacobian::<F>::infinity_spec();
    F::constants_wf();
    assert(o.wf() && o.pt() == Pt::<F>::Infinity);
    let sums = Seq::new(90090, |i: int| o);
    let window_sums = Seq::new(22, |i: int| o);
    let entries = points_at(reference::pts(points), order);
    let t = reference::jacobian_pts(sums);
    let level = plan::level_sums(entries, starts);
    assert forall|i: int| 0 <= i < 90090 implies t[i] == #[trigger] level[i] by {
        assert(starts[i] <= starts[starts.len() - 1]);
        assert(starts[i + 1] <= starts[starts.len() - 1]);
        assert(entries.subrange(starts[i] as int, starts[i + 1] as int) =~= Seq::empty());
    }
    assert(t =~= level);
    assert forall|w: int| 0 <= w < 22 implies (#[trigger] window_sums[w]).wf()
        && window_sums[w].pt() == group::counted(t.subrange(w * 4095, w * 4095 + 4095)) by {
        group::lemma_counted_empty(t.subrange(w * 4095, w * 4095 + 4095));
    }
    lemma_msm_direct(points, scalars, canonical, order, starts, sums, window_sums, b);
    let s = reference::jacobian_pts(window_sums);
    let weights = group::window_weights(s.len(), 12);
    let u = Seq::new(s.len(), |i: int| group::times(s[i], weights[i]));
    assert forall|i: int| 0 <= i < u.len() implies #[trigger] u[i] == Pt::<F>::Infinity by {
        group::lemma_times_identity::<F>(weights[i]);
    }
    group::lemma_sum_identities(u);
}

/// A multi-scalar multiplication over every window at once: one digits
/// launch, one host sort, one bucket-sum launch over pieces of at most
/// [`CHUNK`] points, the levels of `jacobian_sum` the plan needs, then the
/// reduction and Horner on the host.
pub fn msm<L: Launcher, F: Field + Send + Sync>(
    l: &L,
    points: &[Affine<F>],
    scalars: &[Fr],
) -> (r: Jacobian<F>)
    requires
        points@.len() == scalars@.len(),
        points@.len() > 0,
        countable(points@.len() as int),
    ensures
        reference::curve_points(points@) ==> r.wf() && r.pt() == group::weighted(
            reference::pts(points@),
            reference::vals(scalars@),
        ),
{
    let canonical = reference::canonical_scalars(scalars);
    let n = points.len();
    let w = WINDOW_BITS;
    let buckets: usize = 4095;
    let windows: usize = 22;
    let digits = all_digits(l, &canonical, w, windows);
    proof {
        lemma_all_digits_bound(canonical@);
    }
    let (order, starts) = sort_all_windows(&digits, n, buckets);
    proof {
        lemma_sorted_layout(canonical@, order@, starts@);
    }
    let levels = plan_ranges(&starts, CHUNK);
    proof {
        lemma_plan_chained(plan::views(levels@), starts@, 64, order@.len() as int);
    }
    let sums = planned_sums(l, points, &order, &levels);
    let window_sums = reduce_all_windows(&sums, buckets);
    let r = horner(&window_sums, w);
    proof {
        if reference::curve_points(points@) {
            let b = choose|b: F| #[trigger] reference::on_curve(points@, b);
            lemma_msm_pt(
                points@,
                scalars@,
                canonical@,
                order@,
                starts@,
                plan::views(levels@),
                sums@,
                window_sums@,
                b,
            );
        }
    }
    r
}

/// The sums of a plan are on the curve and combine to the multi-scalar sum.
pub(crate) proof fn lemma_msm_pt<F: Field>(
    points: Seq<Affine<F>>,
    scalars: Seq<Fr>,
    canonical: Seq<[u64; 4]>,
    order: Seq<u32>,
    starts: Seq<u32>,
    levels: Seq<Seq<u32>>,
    sums: Seq<Jacobian<F>>,
    window_sums: Seq<Jacobian<F>>,
    b: F,
)
    requires
        reference::on_curve(points, b),
        points.len() > 0,
        points.len() == scalars.len() == canonical.len(),
        countable(points.len() as int),
        forall|i: int|
            0 <= i < scalars.len() ==> limbs::value(#[trigger] canonical[i]) == scalars[i].val(),
        windows_sorted(
            all_digits_of(canonical, 12, 22),
            points.len() as int,
            4095,
            order,
            starts,
        ),
        plan::plan_of(levels, starts, 64),
        sums.len() == 90090,
        forall|i: int| 0 <= i < sums.len() ==> (#[trigger] sums[i]).wf(),
        reference::jacobian_pts(sums) == plan::plan_sums(
            points_at(reference::pts(points), order),
            levels,
        ),
        window_sums.len() == 22,
        reference::jacobians_on_curve(sums, b) ==> forall|w: int|
            0 <= w < 22 ==> (#[trigger] window_sums[w]).wf() && window_sums[w].pt()
                == group::counted(
                reference::jacobian_pts(sums).subrange(w * 4095, w * 4095 + 4095),
            ),
    ensures
        reference::jacobians_on_curve(window_sums, b),
        group::windowed(reference::jacobian_pts(window_sums), 12) == group::weighted(
            reference::pts(points),
            reference::vals(scalars),
        ),
{
    lemma_sorted_layout(canonical, order, starts);
    lemma_planned(points, order, starts, levels, b);
    lemma_msm_direct(points, scalars, canonical, order, starts, sums, window_sums, b);
}

/// The sums of the layout's ranges are on the curve and combine to the multi-scalar sum.
pub(crate) proof fn lemma_msm_direct<F: Field>(
    points: Seq<Affine<F>>,
    scalars: Seq<Fr>,
    canonical: Seq<[u64; 4]>,
    order: Seq<u32>,
    starts: Seq<u32>,
    sums: Seq<Jacobian<F>>,
    window_sums: Seq<Jacobian<F>>,
    b: F,
)
    requires
        reference::on_curve(points, b),
        points.len() > 0,
        points.len() == scalars.len() == canonical.len(),
        countable(points.len() as int),
        forall|i: int|
            0 <= i < scalars.len() ==> limbs::value(#[trigger] canonical[i]) == scalars[i].val(),
        windows_sorted(
            all_digits_of(canonical, 12, 22),
            points.len() as int,
            4095,
            order,
            starts,
        ),
        sums.len() == 90090,
        forall|i: int| 0 <= i < sums.len() ==> (#[trigger] sums[i]).wf(),
        reference::jacobian_pts(sums) == plan::level_sums(
            points_at(reference::pts(points), order),
            starts,
        ),
        window_sums.len() == 22,
        reference::jacobians_on_curve(sums, b) ==> forall|w: int|
            0 <= w < 22 ==> (#[trigger] window_sums[w]).wf() && window_sums[w].pt()
                == group::counted(
                reference::jacobian_pts(sums).subrange(w * 4095, w * 4095 + 4095),
            ),
    ensures
        reference::jacobians_on_curve(window_sums, b),
        group::windowed(reference::jacobian_pts(window_sums), 12) == group::weighted(
            reference::pts(points),
            reference::vals(scalars),
        ),
{
    let p = reference::pts(points);
    let t = reference::jacobian_pts(sums);
    let ws = reference::jacobian_pts(window_sums);
    lemma_all_digits_bound(canonical);
    lemma_sorted_layout(canonical, order, starts);
    lemma_layout_on(points, order, starts, b);
    assert(reference::jacobians_on_curve(sums, b)) by {
        assert forall|i: int| 0 <= i < sums.len() implies (#[trigger] sums[i]).wf()
            && sums[i].pt().on(b) by {
            assert(t[i].on(b));
        }
    }
    assert forall|v: int| 0 <= v < 22 implies #[trigger] ws[v] == group::weighted(
        p,
        reference::window_digits(canonical, v as nat, 12),
    ) by {
        lemma_msm_window(p, canonical, order, starts, v, b);
        assert(window_sums[v].wf());
    }
    lemma_msm_combined(p, canonical, scalars, ws, b);
    assert forall|i: int| 0 <= i < window_sums.len() implies (#[trigger] window_sums[i]).wf()
        && window_sums[i].pt().on(b) by {
        assert(ws[i].on(b));
    }
}

/// The levels of a plan cover each other.
pub(crate) proof fn lemma_plan_chained(levels: Seq<Seq<u32>>, starts: Seq<u32>, chunk: int, entries: int)
    requires
        plan::ranges(starts),
        plan::indexable(starts, chunk),
        chunk >= 2,
        plan::plan_of(levels, starts, chunk),
        starts.last() == entries,
    ensures
        chained(levels, entries),
        levels.last().len() == starts.len(),
{
    assert forall|k: int| 0 <= k < levels.len() implies plan::ranges(#[trigger] levels[k]) by {
        plan::lemma_plan_bounded(levels, starts, chunk, k);
    }
    assert forall|j: int, k: int| 0 <= j && k == j + 1 && k < levels.len() implies (
    #[trigger] levels[k]).last() == (#[trigger] levels[j]).len() - 1 by {
        plan::lemma_plan_bounded(levels, starts, chunk, k);
    }
    plan::lemma_plan_bounded(levels, starts, chunk, 0);
}

/// Sorted indices are below the number of points.
proof fn lemma_order_bound(
    digits: Seq<u32>,
    n: int,
    buckets: int,
    order: Seq<u32>,
    starts: Seq<u32>,
)
    requires
        n > 0,
        buckets > 0,
        n <= u32::MAX,
        digits.len() % (n as nat) == 0,
        windows_sorted(digits, n, buckets, order, starts),
    ensures
        forall|j: int| 0 <= j < order.len() ==> #[trigger] order[j] < n,
{
    let windows = digits.len() as int / n;
    lemma_fundamental_div_mod(digits.len() as int, n);
    lemma_mul_is_commutative(n, windows);
    assert forall|j: int| 0 <= j < order.len() implies #[trigger] order[j] < n by {
        let (w, d) = lemma_find_range(digits, n, buckets, windows, j);
        let win = window(digits, n, w);
        let (x, y) = (
            flat_start(digits, n, buckets, w, d - 1),
            flat_start(digits, n, buckets, w, d),
        );
        lemma_mul_inequality(w + 1, windows, n);
        assert((w + 1) * n == w * n + n) by (nonlinear_arith);
        lemma_mul_nonnegative(w, n);
        assert(order.subrange(x, y) == prover::positions(win, d));
        lemma_flat_at(digits, n, buckets, order, starts, w, d);
        lemma_flat_at(digits, n, buckets, order, starts, w, d - 1);
        lemma_flat_pair(digits, n, buckets, order, starts, w * buckets + d, starts.len() - 1);
        lemma_positions_bound(win, d, j - x);
        assert(order.subrange(x, y)[j - x] == order[j]);
    }
}

/// Every sorted index belongs to a bucket of a window.
proof fn lemma_find_range(digits: Seq<u32>, n: int, buckets: int, windows: int, j: int) -> (r: (
    int,
    int,
))
    requires
        buckets > 0,
        0 <= j < window_base(digits, n, buckets, windows),
    ensures
        0 <= r.0 < windows,
        1 <= r.1 <= buckets,
        flat_start(digits, n, buckets, r.0, r.1 - 1) <= j < flat_start(
            digits,
            n,
            buckets,
            r.0,
            r.1,
        ),
    decreases windows,
{
    reveal(flat_start);
    if windows <= 0 {
        (0, 1)
    } else if j < window_base(digits, n, buckets, windows - 1) {
        lemma_find_range(digits, n, buckets, windows - 1, j)
    } else {
        let w = windows - 1;
        let win = window(digits, n, w);
        let d = lemma_find_bucket(win, buckets, j - window_base(digits, n, buckets, w));
        (w, d)
    }
}

proof fn lemma_find_bucket(win: Seq<u32>, buckets: int, k: int) -> (d: int)
    requires
        0 <= k < prover::sorted_start(win, buckets),
    ensures
        1 <= d <= buckets,
        prover::sorted_start(win, d - 1) <= k < prover::sorted_start(win, d),
    decreases buckets,
{
    if buckets <= 0 {
        1
    } else if k < prover::sorted_start(win, buckets - 1) {
        lemma_find_bucket(win, buckets - 1, k)
    } else {
        buckets
    }
}

// ---- grouped scatter --------------------------------------------------------------------------

/// The sum of `w[signal]·value` over the first `n` coefficients of a list that have constraint `c`.
pub open spec fn list_value(list: Seq<Coefficient>, witness: Seq<Fr>, c: int, n: int) -> Fr
    decreases n,
{
    if n <= 0 {
        Fr::zero_spec()
    } else {
        let rest = list_value(list, witness, c, n - 1);
        let co = list[n - 1];
        if co.constraint == c {
            rest + witness[co.signal as int] * co.value
        } else {
            rest
        }
    }
}

proof fn lemma_list_value_same(
    a: Seq<Coefficient>,
    b: Seq<Coefficient>,
    witness: Seq<Fr>,
    c: int,
    n: int,
)
    requires
        n <= a.len(),
        n <= b.len(),
        forall|i: int| 0 <= i < n ==> a[i] == b[i],
    ensures
        list_value(a, witness, c, n) == list_value(b, witness, c, n),
    decreases n,
{
    if n > 0 {
        lemma_list_value_same(a, b, witness, c, n - 1);
    }
}

/// Picking a matrix first and then its constraint is scattering.
proof fn lemma_scattered_list(
    coefficients: Seq<Coefficient>,
    witness: Seq<Fr>,
    first: bool,
    c: int,
)
    ensures
        prover::scattered(coefficients, witness, first, c) == list_value(
            prover::picked(coefficients, first),
            witness,
            c,
            prover::picked(coefficients, first).len() as int,
        ),
    decreases coefficients.len(),
{
    if coefficients.len() > 0 {
        let rest = coefficients.drop_last();
        lemma_scattered_list(rest, witness, first, c);
        let (x, y) = (prover::picked(coefficients, first), prover::picked(rest, first));
        if (coefficients.last().matrix == 0) == first {
            lemma_list_value_same(x, y, witness, c, y.len() as int);
        }
    }
}

/// Coefficients of other constraints add nothing.
proof fn lemma_list_value_skips(
    list: Seq<Coefficient>,
    witness: Seq<Fr>,
    c: int,
    m: int,
    n: int,
)
    requires
        0 <= m <= n <= list.len(),
        forall|i: int| m <= i < n ==> (#[trigger] list[i]).constraint != c,
    ensures
        list_value(list, witness, c, n) == list_value(list, witness, c, m),
    decreases n - m,
{
    if m < n {
        lemma_list_value_skips(list, witness, c, m, n - 1);
        assert(list[n - 1].constraint != c);
    }
}

/// The coefficients of one run add to the value of its group.
proof fn lemma_list_value_run(
    list: Seq<Coefficient>,
    witness: Seq<Fr>,
    c: int,
    m: int,
    n: int,
)
    requires
        0 <= m <= n <= list.len(),
        forall|i: int| 0 <= i < m ==> (#[trigger] list[i]).constraint != c,
        forall|i: int| m <= i < n ==> (#[trigger] list[i]).constraint == c,
    ensures
        list_value(list, witness, c, n) == kernels::group_value(
            prover::records(list),
            witness,
            m,
            n,
        ),
    decreases n - m,
{
    if m < n {
        lemma_list_value_run(list, witness, c, m, n - 1);
        assert(list[n - 1].constraint == c);
    } else {
        lemma_list_value_skips(list, witness, c, 0, m);
    }
}

pub(crate) proof fn lemma_placed_len(constraints: Seq<u32>, values: Seq<Fr>, domain: nat)
    requires
        forall|g: int| 0 <= g < constraints.len() ==> #[trigger] constraints[g] < domain,
    ensures
        placed(constraints, values, domain).len() == domain,
    decreases constraints.len(),
{
    if constraints.len() > 0 {
        let rest = constraints.drop_last();
        assert forall|g: int| 0 <= g < rest.len() implies #[trigger] rest[g] < domain by {
            assert(constraints[g] < domain);
        }
        lemma_placed_len(rest, values, domain);
        assert(constraints[constraints.len() - 1] < domain);
    }
}

/// Where the last of a list of distinct constraints was placed.
proof fn lemma_placed(constraints: Seq<u32>, values: Seq<Fr>, domain: nat, c: int)
    requires
        0 <= c < domain,
        forall|g: int| 0 <= g < constraints.len() ==> #[trigger] constraints[g] < domain,
    ensures
        placed(constraints, values, domain).len() == domain,
        (forall|g: int| 0 <= g < constraints.len() ==> #[trigger] constraints[g] != c) ==> placed(
            constraints,
            values,
            domain,
        )[c] == Fr::zero_spec(),
        forall|g: int|
            0 <= g < constraints.len() && #[trigger] constraints[g] == c && (forall|h: int|
                g < h < constraints.len() ==> #[trigger] constraints[h] != c) ==> placed(
                constraints,
                values,
                domain,
            )[c] == values[g],
    decreases constraints.len(),
{
    if constraints.len() > 0 {
        let rest = constraints.drop_last();
        let k = constraints.len() - 1;
        assert forall|g: int| 0 <= g < rest.len() implies #[trigger] rest[g] < domain by {
            assert(constraints[g] < domain);
        }
        lemma_placed(rest, values, domain, c);
        assert(constraints[k] < domain);
        assert forall|g: int|
            0 <= g < constraints.len() && #[trigger] constraints[g] == c && (forall|h: int|
                g < h < constraints.len() ==> #[trigger] constraints[h] != c) implies placed(
            constraints,
            values,
            domain,
        )[c] == values[g] by {
            if g < k {
                assert(constraints[k] != c);
                assert(rest[g] == c);
                assert forall|h: int| g < h < rest.len() implies #[trigger] rest[h] != c by {
                    assert(constraints[h] != c);
                }
            }
        }
        if forall|g: int| 0 <= g < constraints.len() ==> #[trigger] constraints[g] != c {
            assert forall|g: int| 0 <= g < rest.len() implies #[trigger] rest[g] != c by {
                assert(constraints[g] != c);
            }
            assert(constraints[k] != c);
        }
    }
}

/// Run `g` of a list that is cut into runs.
proof fn lemma_run(
    list: Seq<Coefficient>,
    starts: Seq<u32>,
    constraints: Seq<u32>,
    g: int,
    i: int,
)
    requires
        prover::runs(list, starts, constraints),
        0 <= g < constraints.len(),
    ensures
        starts.len() == constraints.len() + 1,
        starts[g] < starts[g + 1] <= list.len(),
        starts[g] <= i < starts[g + 1] ==> list[i].constraint == constraints[g],
{
    let open = starts.drop_last();
    assert(open[g] < prover::run_end(list, open, g));
    if starts[g] <= i < starts[g + 1] {
        assert(open[g] <= i < prover::run_end(list, open, g));
        assert(list[i].constraint == constraints[g]);
    }
}

/// Run `g` has at least `g` coefficients before it.
proof fn lemma_run_starts(
    list: Seq<Coefficient>,
    starts: Seq<u32>,
    constraints: Seq<u32>,
    g: int,
)
    requires
        prover::runs(list, starts, constraints),
        constraints.len() > 0,
        0 <= g <= constraints.len(),
    ensures
        g <= starts[g] <= list.len(),
    decreases g,
{
    if g > 0 {
        lemma_run_starts(list, starts, constraints, g - 1);
        lemma_run(list, starts, constraints, g - 1, 0);
    }
}

/// There are at most as many runs as coefficients.
proof fn lemma_runs_count(
    coefficients: Seq<Coefficient>,
    first: bool,
    starts: Seq<u32>,
    constraints: Seq<u32>,
)
    requires
        prover::runs(prover::picked(coefficients, first), starts, constraints),
    ensures
        constraints.len() <= coefficients.len(),
{
    prover::lemma_picked_len(coefficients, first);
    if constraints.len() > 0 {
        lemma_run_starts(
            prover::picked(coefficients, first),
            starts,
            constraints,
            constraints.len() as int,
        );
    }
}

/// The run that an index belongs to.
proof fn lemma_find_run(
    list: Seq<Coefficient>,
    starts: Seq<u32>,
    constraints: Seq<u32>,
    i: int,
    n: int,
) -> (g: int)
    requires
        prover::runs(list, starts, constraints),
        0 < n <= constraints.len(),
        0 <= i < starts[n],
    ensures
        0 <= g < n,
        starts[g] <= i < starts[g + 1],
    decreases n,
{
    lemma_run(list, starts, constraints, n - 1, 0);
    if starts[n - 1] <= i {
        n - 1
    } else {
        assert(n - 1 > 0) by {
            if n == 1 {
                assert(starts.drop_last()[0] == 0);
            }
        }
        lemma_find_run(list, starts, constraints, i, n - 1)
    }
}

/// For a list in ascending order the runs' values, placed at their constraints, are the
/// scattered polynomial.
pub proof fn lemma_grouped_polynomial(
    coefficients: Seq<Coefficient>,
    witness: Seq<Fr>,
    first: bool,
    starts: Seq<u32>,
    constraints: Seq<u32>,
    domain: nat,
)
    requires
        prover::runs(prover::picked(coefficients, first), starts, constraints),
        prover::ascends(prover::picked(coefficients, first)),
        prover::in_range(coefficients, witness.len() as int, domain as int),
    ensures
        placed(
            constraints,
            group_values(
                prover::records(prover::picked(coefficients, first)),
                starts,
                witness,
                constraints.len(),
            ),
            domain,
        ) == prover::polynomial(coefficients, witness, first, domain),
{
    let list = prover::picked(coefficients, first);
    let n = constraints.len() as int;
    let values = group_values(prover::records(list), starts, witness, constraints.len());
    assert forall|g: int| 0 <= g < n implies #[trigger] constraints[g] < domain by {
        lemma_run(list, starts, constraints, g, starts[g] as int);
        let j = prover::lemma_picked(coefficients, first, starts[g] as int);
        assert(coefficients[j].constraint < domain);
    }
    let p = placed(constraints, values, domain);
    assert forall|c: int| 0 <= c < domain implies #[trigger] p[c] == prover::polynomial(
        coefficients,
        witness,
        first,
        domain,
    )[c] by {
        lemma_scattered_list(coefficients, witness, first, c);
        lemma_placed(constraints, values, domain, c);
        if exists|g: int| 0 <= g < n && #[trigger] constraints[g] == c {
            let g = choose|g: int| 0 <= g < n && #[trigger] constraints[g] == c;
            lemma_constraint_once(list, starts, constraints, g, c);
            lemma_run(list, starts, constraints, g, 0);
            lemma_list_value_run(list, witness, c, starts[g] as int, starts[g + 1] as int);
            lemma_list_value_skips(
                list,
                witness,
                c,
                starts[g + 1] as int,
                list.len() as int,
            );
            assert(p[c] == values[g]);
        } else {
            assert forall|i: int| 0 <= i < list.len() implies (#[trigger] list[i]).constraint
                != c by {
                assert(n > 0);
                let g = lemma_find_run(list, starts, constraints, i, n);
                lemma_run(list, starts, constraints, g, i);
                assert(constraints[g] != c);
            }
            lemma_list_value_skips(list, witness, c, 0, list.len() as int);
        }
    }
    lemma_placed_len(constraints, values, domain);
    assert(p =~= prover::polynomial(coefficients, witness, first, domain));
}

/// In an ascending list a constraint has one run, and stands nowhere else.
proof fn lemma_constraint_once(
    list: Seq<Coefficient>,
    starts: Seq<u32>,
    constraints: Seq<u32>,
    g: int,
    c: int,
)
    requires
        prover::runs(list, starts, constraints),
        prover::ascends(list),
        0 <= g < constraints.len(),
        constraints[g] == c,
    ensures
        forall|i: int| 0 <= i < starts[g] ==> (#[trigger] list[i]).constraint != c,
        forall|i: int| starts[g] <= i < starts[g + 1] ==> (#[trigger] list[i]).constraint == c,
        forall|i: int| starts[g + 1] <= i < list.len() ==> (#[trigger] list[i]).constraint != c,
        forall|h: int| g < h < constraints.len() ==> #[trigger] constraints[h] != c,
{
    let n = constraints.len() as int;
    let (x, y) = (starts[g] as int, starts[g + 1] as int);
    lemma_run(list, starts, constraints, g, x);
    assert forall|i: int| x <= i < y implies (#[trigger] list[i]).constraint == c by {
        lemma_run(list, starts, constraints, g, i);
    }
    if g > 0 {
        // the run before has another constraint, which is smaller
        lemma_run(list, starts, constraints, g - 1, x - 1);
        assert(constraints[g - 1] != constraints[g - 1 + 1]);
        assert(list[x - 1].constraint == constraints[g - 1]);
        assert(list[x - 1].constraint <= list[x].constraint);
    } else {
        assert(starts.drop_last()[0] == 0);
    }
    assert forall|i: int| 0 <= i < x implies (#[trigger] list[i]).constraint != c by {
        assert(list[i].constraint <= list[x - 1].constraint);
    }
    if g + 1 < n {
        lemma_run(list, starts, constraints, g + 1, y);
        assert(constraints[g] != constraints[g + 1]);
        assert(list[y].constraint == constraints[g + 1]);
        assert(list[y - 1].constraint <= list[y].constraint);
    } else {
        assert(starts.last() == list.len());
    }
    assert forall|i: int| y <= i < list.len() implies (#[trigger] list[i]).constraint != c by {
        assert(list[y].constraint <= list[i].constraint);
    }
    assert forall|h: int| g < h < n implies #[trigger] constraints[h] != c by {
        lemma_run(list, starts, constraints, h, starts[h] as int);
        lemma_runs_ascend(list, starts, constraints, g + 1, h);
        assert(list[starts[h] as int].constraint == constraints[h]);
    }
}

proof fn lemma_runs_ascend(
    list: Seq<Coefficient>,
    starts: Seq<u32>,
    constraints: Seq<u32>,
    g: int,
    h: int,
)
    requires
        prover::runs(list, starts, constraints),
        0 <= g <= h < constraints.len(),
    ensures
        starts[g] <= starts[h],
    decreases h - g,
{
    if g < h {
        lemma_runs_ascend(list, starts, constraints, g, h - 1);
        lemma_run(list, starts, constraints, h - 1, 0);
    }
}

/// The groups of a key can be scattered.
pub proof fn lemma_key_scatterable(zkey: Zkey, first: bool, starts: Seq<u32>, constraints: Seq<u32>)
    requires
        zkey.consistent(),
        prover::runs(prover::picked(zkey.coefficients@, first), starts, constraints),
    ensures
        scatterable(
            prover::records(prover::picked(zkey.coefficients@, first)),
            starts,
            constraints,
            zkey.num_vars as int,
            zkey.domain_size as int,
        ),
        prover::in_range(
            zkey.coefficients@,
            zkey.num_vars as int,
            zkey.domain_size as int,
        ),
{
    let cs = zkey.coefficients@;
    let list = prover::picked(cs, first);
    let recs = prover::records(list);
    assert forall|g: int| 0 <= g < constraints.len() implies #[trigger] constraints[g]
        < zkey.domain_size && kernels::range_fits(starts, g, recs.len() as int) by {
        lemma_run(list, starts, constraints, g, starts[g] as int);
        let j = prover::lemma_picked(cs, first, starts[g] as int);
        assert(cs[j].constraint < zkey.domain_size);
    }
    assert forall|i: int| 0 <= i < recs.len() implies (#[trigger] recs[i]).signal
        < zkey.num_vars by {
        let j = prover::lemma_picked(cs, first, i);
        assert(cs[j].signal < zkey.num_vars);
    }
}

// ---- proofs ------------------------------------------------------------------------------------

/// Grouped coefficient values are reduced.
pub open spec fn groups_wf(groups: CoefficientGroups) -> bool {
    &&& forall|i: int| 0 <= i < groups.a@.len() ==> (#[trigger] groups.a@[i]).value.wf()
    &&& forall|i: int| 0 <= i < groups.b@.len() ==> (#[trigger] groups.b@[i]).value.wf()
}

proof fn lemma_group_value_wf(coeffs: Seq<kernels::Coeff>, witness: Seq<Fr>, from: int, to: int)
    requires
        0 <= from,
        to <= coeffs.len(),
        dft::all_wf(witness),
        forall|i: int|
            0 <= i < coeffs.len() ==> (#[trigger] coeffs[i]).value.wf() && coeffs[i].signal
                < witness.len(),
    ensures
        kernels::group_value(coeffs, witness, from, to).wf(),
    decreases to - from,
{
    broadcast use ring::group_wf;

    if from < to {
        lemma_group_value_wf(coeffs, witness, from, to - 1);
        assert(coeffs[to - 1].value.wf());
        assert(witness[coeffs[to - 1].signal as int].wf());
    }
}

proof fn lemma_placed_wf(constraints: Seq<u32>, values: Seq<Fr>, domain: nat)
    requires
        constraints.len() <= values.len(),
        forall|g: int| 0 <= g < constraints.len() ==> #[trigger] constraints[g] < domain,
        dft::all_wf(values),
    ensures
        dft::all_wf(placed(constraints, values, domain)),
        placed(constraints, values, domain).len() == domain,
    decreases constraints.len(),
{
    Fr::constants_wf();
    if constraints.len() > 0 {
        let rest = constraints.drop_last();
        assert forall|g: int| 0 <= g < rest.len() implies #[trigger] rest[g] < domain by {
            assert(constraints[g] < domain);
        }
        lemma_placed_wf(rest, values, domain);
        assert(constraints[constraints.len() - 1] < domain);
        assert(values[constraints.len() - 1].wf());
    }
}

/// The polynomial of a matrix from its groups.
pub open spec fn grouped_polynomial(
    coeffs: Seq<kernels::Coeff>,
    starts: Seq<u32>,
    constraints: Seq<u32>,
    witness: Seq<Fr>,
    domain: nat,
) -> Seq<Fr> {
    placed(constraints, group_values(coeffs, starts, witness, constraints.len()), domain)
}

pub(crate) proof fn lemma_grouped_wf(
    coeffs: Seq<kernels::Coeff>,
    starts: Seq<u32>,
    constraints: Seq<u32>,
    witness: Seq<Fr>,
    domain: nat,
)
    requires
        scatterable(coeffs, starts, constraints, witness.len() as int, domain as int),
        dft::all_wf(witness),
        forall|i: int| 0 <= i < coeffs.len() ==> (#[trigger] coeffs[i]).value.wf(),
    ensures
        dft::all_wf(grouped_polynomial(coeffs, starts, constraints, witness, domain)),
        grouped_polynomial(coeffs, starts, constraints, witness, domain).len() == domain,
{
    let values = group_values(coeffs, starts, witness, constraints.len());
    assert forall|g: int| 0 <= g < values.len() implies (#[trigger] values[g]).wf() by {
        assert(constraints[g] < domain);
        lemma_group_value_wf(coeffs, witness, starts[g] as int, starts[g + 1] as int);
    }
    lemma_placed_wf(constraints, values, domain);
}

/// The quotient evaluations from grouped coefficients.
pub open spec fn grouped_quotient(groups: CoefficientGroups, witness: Seq<Fr>, n: nat) -> Seq<Fr> {
    prover::quotient(
        grouped_polynomial(groups.a@, groups.a_starts@, groups.a_constraint@, witness, n),
        grouped_polynomial(groups.b@, groups.b_starts@, groups.b_constraint@, witness, n),
        prover::coset_shift(n),
    )
}

/// The quotient evaluations through the kernels.
fn quotient_of_groups<L: Launcher>(
    l: &L,
    groups: &CoefficientGroups,
    witness: &[Fr],
    n: usize,
) -> (quotient: Vec<Fr>)
    requires
        n >= 2,
        prover::provable_domain(n as nat),
        scatterable(
            groups.a@,
            groups.a_starts@,
            groups.a_constraint@,
            witness@.len() as int,
            n as int,
        ),
        scatterable(
            groups.b@,
            groups.b_starts@,
            groups.b_constraint@,
            witness@.len() as int,
            n as int,
        ),
    ensures
        quotient@.len() == n,
        groups_wf(*groups) && dft::all_wf(witness@) ==> quotient@ == grouped_quotient(
            *groups,
            witness@,
            n as nat,
        ),
{
    let tables = Tables::new(n);
    let a_h = scatter(l, &groups.a, &groups.a_starts, &groups.a_constraint, witness, n);
    let b_h = scatter(l, &groups.b, &groups.b_starts, &groups.b_constraint, witness, n);
    let ghost wf = groups_wf(*groups) && dft::all_wf(witness@);
    let ghost (pa, pb) = (a_h@, b_h@);
    proof {
        lemma_placed_len(
            groups.a_constraint@,
            group_values(
                groups.a@,
                groups.a_starts@,
                witness@,
                groups.a_constraint@.len(),
            ),
            n as nat,
        );
        lemma_placed_len(
            groups.b_constraint@,
            group_values(
                groups.b@,
                groups.b_starts@,
                witness@,
                groups.b_constraint@.len(),
            ),
            n as nat,
        );
        if wf {
            lemma_grouped_wf(
                groups.a@,
                groups.a_starts@,
                groups.a_constraint@,
                witness@,
                n as nat,
            );
            lemma_grouped_wf(
                groups.b@,
                groups.b_starts@,
                groups.b_constraint@,
                witness@,
                n as nat,
            );
            prover::lemma_products_wf(pa, pb);
        }
    }
    let mut c_h = prover::zeros(n);
    let (ra, rb) = (&a_h, &b_h);
    let body = |i: usize| -> (r: Fr)
        requires
            i < ra@.len(),
            i < rb@.len(),
        ensures
            r == ra@[i as int] * rb@[i as int],
        { kernels::pointwise_mul(i, ra, rb) };
    l.map(&mut c_h, body);
    proof {
        assert forall|i: int| 0 <= i < n implies #[trigger] c_h@[i] == prover::products(
            pa,
            pb,
        )[i] by {
            assert(body.ensures((i as usize,), c_h@[(i as usize) as int]));
        }
        assert(c_h@ =~= prover::products(pa, pb));
    }
    let mut scratch = prover::zeros(n);
    let a_c = h_to_coset_with(l, a_h, &mut scratch, &tables);
    let b_c = h_to_coset_with(l, b_h, &mut scratch, &tables);
    let c_c = h_to_coset_with(l, c_h, &mut scratch, &tables);
    let mut quotient = scratch;
    let (x, y, z) = (&a_c, &b_c, &c_c);
    let body = |i: usize| -> (r: Fr)
        requires
            i < x@.len(),
            i < y@.len(),
            i < z@.len(),
        ensures
            r == x@[i as int] * y@[i as int] - z@[i as int],
        { kernels::pointwise_mul_sub(i, x, y, z) };
    l.map(&mut quotient, body);
    proof {
        if wf {
            let q = grouped_quotient(*groups, witness@, n as nat);
            assert forall|i: int| 0 <= i < n implies #[trigger] quotient@[i] == q[i] by {
                assert(body.ensures((i as usize,), quotient@[(i as usize) as int]));
            }
            assert(quotient@ =~= q);
        }
    }
    quotient
}

/// The key fits this pipeline: usable, with at least two domain points, at least one private
/// input, and sizes that 32-bit indices allow.
pub open spec fn launchable(zkey: Zkey) -> bool {
    &&& prover::usable(zkey)
    &&& zkey.domain_size >= 2
    &&& zkey.num_public + 1 < zkey.num_vars
    &&& countable(zkey.num_vars as int)
    &&& countable(zkey.domain_size as int)
}

/// Whether the sizes of an MSM fit 32-bit indices.
pub fn is_countable(n: usize) -> (r: bool)
    requires
        n <= u32::MAX,
    ensures
        r == countable(n as int),
{
    22 * (n as u64) <= u32::MAX as u64
}

/// Whether a key with consistent sizes fits this pipeline.
pub fn is_launchable(zkey: &Zkey) -> (r: bool)
    requires
        zkey.consistent(),
    ensures
        r == launchable(*zkey),
{
    prover::is_usable(zkey) && zkey.domain_size >= 2 && zkey.num_public + 1 < zkey.num_vars
        && is_countable(zkey.num_vars) && is_countable(zkey.domain_size)
}

/// The prover of this pipeline: the kernel sequence on a launcher, the
/// shared assembly on the host.
pub fn prove<L: Launcher>(
    l: &L,
    zkey: &Zkey,
    witness: &[Fr],
    r: &Fr,
    s: &Fr,
) -> (result: Result<Proof, ProveError>)
    requires
        launchable(*zkey),
    ensures
        match result {
            Err(e) => e == (if witness@.len() != zkey.num_vars {
                ProveError::WitnessLength { expected: zkey.num_vars, found: witness.len() }
            } else {
                ProveError::WitnessConstant
            }),
            Ok(proof) => prover::key_reduced(*zkey) && dft::all_wf(witness@) && r.wf() && s.wf()
                && prover::ascends(prover::picked(zkey.coefficients@, true)) && prover::ascends(
                prover::picked(zkey.coefficients@, false),
            ) ==> proof == prover::proof_of(*zkey, witness@, *r, *s),
        },
        result is Ok <==> witness@.len() == zkey.num_vars && witness@[0] == Fr::one_spec(),
        prover::key_reduced(*zkey) && prover::ascends(zkey.coefficients@) && dft::all_wf(witness@)
            && r.wf() && s.wf() ==> result == prover::outcome(*zkey, witness@, *r, *s),
{
    let groups = CoefficientGroups::from_zkey(zkey);
    proof {
        if prover::ascends(zkey.coefficients@) {
            prover::lemma_picked_ascends(zkey.coefficients@, true);
            prover::lemma_picked_ascends(zkey.coefficients@, false);
        }
        lemma_key_preparable(*zkey, groups);
        if witness@.len() == zkey.num_vars {
            lemma_key_quotient(*zkey, groups, witness@);
        }
    }
    prove_grouped(l, zkey, &groups, witness, r, s)
}

/// The groups of a reduced key are reduced.
pub(crate) proof fn lemma_key_groups_wf(zkey: Zkey, groups: CoefficientGroups)
    requires
        groups.of_key(zkey),
        prover::values_wf(zkey.coefficients@),
    ensures
        groups_wf(groups),
{
    let cs = zkey.coefficients@;
    assert forall|i: int| 0 <= i < groups.a@.len() implies (#[trigger] groups.a@[i]).value.wf() by {
        let j = prover::lemma_picked(cs, true, i);
        assert(cs[j].value.wf());
    }
    assert forall|i: int| 0 <= i < groups.b@.len() implies (#[trigger] groups.b@[i]).value.wf() by {
        let j = prover::lemma_picked(cs, false, i);
        assert(cs[j].value.wf());
    }
}

/// The groups of a key can be scattered, and are reduced where the key is.
pub(crate) proof fn lemma_key_preparable(zkey: Zkey, groups: CoefficientGroups)
    requires
        zkey.consistent(),
        groups.of_key(zkey),
    ensures
        scatterable(
            groups.a@,
            groups.a_starts@,
            groups.a_constraint@,
            zkey.num_vars as int,
            zkey.domain_size as int,
        ),
        scatterable(
            groups.b@,
            groups.b_starts@,
            groups.b_constraint@,
            zkey.num_vars as int,
            zkey.domain_size as int,
        ),
        groups.a_constraint@.len() <= zkey.coefficients@.len(),
        groups.b_constraint@.len() <= zkey.coefficients@.len(),
        prover::key_reduced(zkey) ==> groups_wf(groups),
{
    lemma_key_scatterable(zkey, true, groups.a_starts@, groups.a_constraint@);
    lemma_key_scatterable(zkey, false, groups.b_starts@, groups.b_constraint@);
    lemma_runs_count(zkey.coefficients@, true, groups.a_starts@, groups.a_constraint@);
    lemma_runs_count(zkey.coefficients@, false, groups.b_starts@, groups.b_constraint@);
    if prover::key_reduced(zkey) {
        lemma_key_groups_wf(zkey, groups);
    }
}

/// Where the constraints of a key ascend, the proofs from its groups are the proofs of the key.
pub proof fn lemma_key_quotient(zkey: Zkey, groups: CoefficientGroups, witness: Seq<Fr>)
    requires
        zkey.consistent(),
        groups.of_key(zkey),
        witness.len() == zkey.num_vars,
    ensures
        prover::ascends(prover::picked(zkey.coefficients@, true)) && prover::ascends(
            prover::picked(zkey.coefficients@, false),
        ) ==> forall|r: Fr, s: Fr|
            prover::proof_with(
                zkey,
                grouped_quotient(groups, witness, zkey.domain_size as nat),
                witness,
                r,
                s,
            ) == #[trigger] prover::proof_of(zkey, witness, r, s),
{
    let cs = zkey.coefficients@;
    if prover::ascends(prover::picked(cs, true)) && prover::ascends(prover::picked(cs, false)) {
        let n = zkey.domain_size as nat;
        lemma_grouped_polynomial(cs, witness, true, groups.a_starts@, groups.a_constraint@, n);
        lemma_grouped_polynomial(cs, witness, false, groups.b_starts@, groups.b_constraint@, n);
    }
}

/// A key that is another but for its flat list of coefficients, which may have been dropped.
pub open spec fn but_for_list(held: Zkey, zkey: Zkey) -> bool {
    &&& held.num_vars == zkey.num_vars
    &&& held.num_public == zkey.num_public
    &&& held.domain_size == zkey.domain_size
    &&& held.vk == zkey.vk
    &&& held.a@ == zkey.a@
    &&& held.b1@ == zkey.b1@
    &&& held.b2@ == zkey.b2@
    &&& held.c@ == zkey.c@
    &&& held.h@ == zkey.h@
    &&& held.coefficients@ == zkey.coefficients@ || held.coefficients@.len() == 0
}

/// The proof with the quotient of a key's groups, whether or not the key still has its flat list,
/// is the Groth16 proof of the key, where the list ascends by constraint: every key that parses
/// lists its coefficients so.
pub proof fn lemma_grouped_is_core(
    zkey: Zkey,
    held: Zkey,
    groups: CoefficientGroups,
    witness: Seq<Fr>,
    r: Fr,
    s: Fr,
)
    requires
        zkey.consistent(),
        prover::ascends(zkey.coefficients@),
        groups.of_key(zkey),
        but_for_list(held, zkey),
        witness.len() == zkey.num_vars,
    ensures
        prover::proof_with(
            held,
            grouped_quotient(groups, witness, held.domain_size as nat),
            witness,
            r,
            s,
        ) == prover::proof_of(zkey, witness, r, s),
{
    prover::lemma_picked_ascends(zkey.coefficients@, true);
    prover::lemma_picked_ascends(zkey.coefficients@, false);
    lemma_key_quotient(zkey, groups, witness);
    let q = grouped_quotient(groups, witness, zkey.domain_size as nat);
    assert(prover::proof_with(held, q, witness, r, s) == prover::proof_with(
        zkey,
        q,
        witness,
        r,
        s,
    ));
    assert(prover::proof_with(zkey, q, witness, r, s) == prover::proof_of(zkey, witness, r, s));
}

/// [`prove`] with the coefficient groups supplied by the caller (who may have
/// dropped the zkey's flat coefficient list to halve that memory).
pub fn prove_grouped<L: Launcher>(
    l: &L,
    zkey: &Zkey,
    groups: &CoefficientGroups,
    witness: &[Fr],
    r: &Fr,
    s: &Fr,
) -> (result: Result<Proof, ProveError>)
    requires
        launchable(*zkey),
        scatterable(
            groups.a@,
            groups.a_starts@,
            groups.a_constraint@,
            zkey.num_vars as int,
            zkey.domain_size as int,
        ),
        scatterable(
            groups.b@,
            groups.b_starts@,
            groups.b_constraint@,
            zkey.num_vars as int,
            zkey.domain_size as int,
        ),
    ensures
        match result {
            Err(e) => e == (if witness@.len() != zkey.num_vars {
                ProveError::WitnessLength { expected: zkey.num_vars, found: witness.len() }
            } else {
                ProveError::WitnessConstant
            }),
            Ok(proof) => prover::key_reduced(*zkey) && groups_wf(*groups) && dft::all_wf(witness@)
                && r.wf() && s.wf() ==> proof == prover::proof_with(
                *zkey,
                grouped_quotient(*groups, witness@, zkey.domain_size as nat),
                witness@,
                *r,
                *s,
            ),
        },
        result is Ok <==> witness@.len() == zkey.num_vars && witness@[0] == Fr::one_spec(),
{
    if witness.len() != zkey.num_vars {
        return Err(
            ProveError::WitnessLength { expected: zkey.num_vars, found: witness.len() },
        );
    }
    if !witness[0].same(&<Fr as Field>::one()) {
        return Err(ProveError::WitnessConstant);
    }
    let quotient = quotient_of_groups(l, groups, witness, zkey.domain_size);
    let private = vstd::slice::slice_subrange(witness, zkey.num_public + 1, witness.len());
    let msms = Msms {
        h: msm(l, &zkey.h, &quotient),
        a: msm(l, &zkey.a, witness),
        b1: msm(l, &zkey.b1, witness),
        b2: msm(l, &zkey.b2, witness),
        c: msm(l, &zkey.c, private),
    };
    proof {
        if prover::key_reduced(*zkey) {
            prover::lemma_msm_on(zkey.h@, quotient@, ec::g1_b_spec());
            prover::lemma_msm_on(zkey.a@, witness@, ec::g1_b_spec());
            prover::lemma_msm_on(zkey.b1@, witness@, ec::g1_b_spec());
            prover::lemma_msm_on(zkey.b2@, witness@, ec::g2_b_spec());
            prover::lemma_msm_on(zkey.c@, private@, ec::g1_b_spec());
        }
    }
    Ok(assemble(zkey, &msms, r, s))
}

} // verus!
