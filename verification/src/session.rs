//! A proof on a device that is driven from outside: the transforms as a list
//! of launches over four buffers, and the whole proof as a dialogue. A
//! [`Session`] says what the device is to do next and takes its replies; the
//! sort, the reduction, the placement and the assembly are its own.

use vstd::arithmetic::div_mod::*;
use vstd::arithmetic::mul::*;
use vstd::arithmetic::power2::*;
use vstd::prelude::*;

use crate::device;
use crate::device::all_in_buckets;
use crate::ec;
use crate::ec::{Affine, Jacobian};
use crate::field::{Field, Fp, Fr};
use crate::fp2::Fp2;
use crate::kernels;
use crate::limbs;
use crate::math::curve::Pt;
use crate::math::dft;
use crate::math::group;
use crate::math::ring::{FieldLaws, Ring};
use crate::msm;
use crate::ntt;
use crate::pipeline;
use crate::pipeline::{reduce_all_windows, sort_all_windows, CoefficientGroups, Tables};
use crate::plan;
use crate::prover;
use crate::prover::{horner, Msms, Proof, ProveError};
use crate::schedule;
use crate::schedule::{Buf, Schedule, Step};
use crate::zkey::Zkey;

verus! {

// ---- the transforms ----------------------------------------------------------------------------

/// One launch over the four polynomial buffers.
#[derive(Clone, Copy, Debug, PartialEq, Eq, Structural)]
pub enum Launch {
    /// `pointwise_mul`.
    Mul {
        /// First factor.
        a: usize,
        /// Second factor.
        b: usize,
        /// Written.
        dst: usize,
    },
    /// One step of a coset transform.
    Stage {
        /// The step.
        step: Step,
        /// Read.
        src: usize,
        /// Written.
        dst: usize,
    },
    /// `pointwise_mul_sub`.
    MulSub {
        /// First factor.
        a: usize,
        /// Second factor.
        b: usize,
        /// What is subtracted.
        c: usize,
        /// Written.
        dst: usize,
    },
}

impl Launch {
    /// The buffer that is written.
    pub open spec fn target(self) -> int {
        match self {
            Launch::Mul { dst, .. } => dst as int,
            Launch::Stage { dst, .. } => dst as int,
            Launch::MulSub { dst, .. } => dst as int,
        }
    }

    /// What is written, given what the buffers hold.
    pub open spec fn output(self, slots: Seq<Seq<Fr>>, t: Tables) -> Seq<Fr> {
        match self {
            Launch::Mul { a, b, .. } => prover::products(slots[a as int], slots[b as int]),
            Launch::Stage { step, src, .. } => pipeline::step_output(step, slots[src as int], t),
            Launch::MulSub { a, b, c, .. } => Seq::new(
                slots[a as int].len(),
                |i: int| slots[a as int][i] * slots[b as int][i] - slots[c as int][i],
            ),
        }
    }
}

/// What the buffers hold after the launches, in order.
pub open spec fn executed(launches: Seq<Launch>, slots: Seq<Seq<Fr>>, t: Tables) -> Seq<Seq<Fr>>
    decreases launches.len(),
{
    if launches.len() == 0 {
        slots
    } else {
        let before = executed(launches.drop_last(), slots, t);
        before.update(launches.last().target(), launches.last().output(before, t))
    }
}

/// The buffer that plays one of the two roles of a coset transform of `x` with scratch `y`.
pub open spec fn slot(which: Buf, x: usize, y: usize) -> usize {
    match which {
        Buf::A => x,
        Buf::B => y,
    }
}

/// The launches of a coset transform of `x` with scratch `y`.
pub open spec fn coset_launches(lg: int, x: usize, y: usize) -> Seq<Launch> {
    let steps = schedule::coset_steps(lg);
    Seq::new(
        steps.len(),
        |i: int|
            Launch::Stage {
                step: steps[i],
                src: slot(steps[i].reads(), x, y),
                dst: slot(steps[i].writes(), x, y),
            },
    )
}

/// The launches of a transform phase, and the buffer that holds the quotient at the end.
#[derive(Clone, Debug)]
pub struct Program {
    /// The launches, in order.
    pub launches: Vec<Launch>,
    /// Where the quotient is at the end.
    pub result: usize,
}

/// The buffer with the result of a coset transform, and the one left free.
pub open spec fn pair(lg: int, x: usize, y: usize) -> (usize, usize) {
    let r = schedule::coset_result(lg);
    (slot(r, x, y), slot(r.opposite(), x, y))
}

/// `C = A∘B`, the three coset transforms, the pointwise quotient: `A` is in buffer 0, `B` in
/// buffer 1, `C` goes to buffer 2, and buffer 3 is free; each transform's free buffer is the next
/// one's scratch, and the last one takes the quotient.
pub open spec fn program_launches(lg: int) -> Seq<Launch> {
    let (ra, fa) = pair(lg, 0, 3);
    let (rb, fb) = pair(lg, 1, fa);
    let (rc, fc) = pair(lg, 2, fb);
    seq![Launch::Mul { a: 0, b: 1, dst: 2 }] + coset_launches(lg, 0, 3) + coset_launches(lg, 1, fa)
        + coset_launches(lg, 2, fb) + seq![Launch::MulSub { a: ra, b: rb, c: rc, dst: fc }]
}

/// The buffer with the quotient.
pub open spec fn program_result(lg: int) -> usize {
    pair(lg, 2, pair(lg, 1, pair(lg, 0, 3).1).1).1
}

/// The launches of a coset transform of `x` with scratch `y`; the buffer with the result and the
/// one left free.
fn push_coset(launches: &mut Vec<Launch>, sched: &Schedule, x: usize, y: usize) -> (r: (
    usize,
    usize,
))
    requires
        exists|lg: int|
            lg >= 1 && sched.steps@ == #[trigger] schedule::coset_steps(lg) && sched.result
                == schedule::coset_result(lg),
    ensures
        forall|lg: int|
            sched.steps@ == #[trigger] schedule::coset_steps(lg) && sched.result
                == schedule::coset_result(lg) ==> final(launches)@ == old(launches)@
                + coset_launches(lg, x, y) && r == pair(lg, x, y),
{
    let ghost before = launches@;
    let ghost steps = sched.steps@;
    let ghost all = Seq::new(
        steps.len(),
        |i: int|
            Launch::Stage {
                step: steps[i],
                src: slot(steps[i].reads(), x, y),
                dst: slot(steps[i].writes(), x, y),
            },
    );
    let mut k: usize = 0;
    proof {
        assert(before + all.take(0) =~= before);
    }
    while k < sched.steps.len()
        invariant
            k <= steps.len(),
            steps == sched.steps@,
            all.len() == steps.len(),
            forall|i: int|
                0 <= i < steps.len() ==> #[trigger] all[i] == (Launch::Stage {
                    step: steps[i],
                    src: slot(steps[i].reads(), x, y),
                    dst: slot(steps[i].writes(), x, y),
                }),
            launches@ == before + all.take(k as int),
        decreases steps.len() - k,
    {
        let step = sched.steps[k];
        let src = match step.src() {
            Buf::A => x,
            Buf::B => y,
        };
        let dst = match step.dst() {
            Buf::A => x,
            Buf::B => y,
        };
        launches.push(Launch::Stage { step, src, dst });
        k = k + 1;
        proof {
            assert(launches@ =~= before + all.take(k as int));
        }
    }
    proof {
        assert(all.take(k as int) =~= all);
        assert forall|lg: int|
            sched.steps@ == #[trigger] schedule::coset_steps(lg) && sched.result
                == schedule::coset_result(lg) implies launches@ == before + coset_launches(
            lg,
            x,
            y,
        ) by {
            assert(coset_launches(lg, x, y) =~= all);
        }
    }
    match sched.result {
        Buf::A => (x, y),
        Buf::B => (y, x),
    }
}

/// The program of the transform phase for a domain of `n` points.
pub fn transform_program(n: u32) -> (r: Program)
    requires
        n >= 2,
        dft::power_of_two(n as nat),
    ensures
        r.launches@ == program_launches(ntt::lg(n as nat) as int),
        r.result == program_result(ntt::lg(n as nat) as int),
{
    let sched = schedule::coset(n);
    let ghost lg = ntt::lg(n as nat) as int;
    proof {
        lemma_levels(n as nat);
        assert(sched.steps@ == schedule::coset_steps(lg));
    }
    let mut launches: Vec<Launch> = Vec::new();
    launches.push(Launch::Mul { a: 0, b: 1, dst: 2 });
    let (ra, fa) = push_coset(&mut launches, &sched, 0, 3);
    let (rb, fb) = push_coset(&mut launches, &sched, 1, fa);
    let (rc, fc) = push_coset(&mut launches, &sched, 2, fb);
    launches.push(Launch::MulSub { a: ra, b: rb, c: rc, dst: fc });
    proof {
        assert(launches@ =~= program_launches(lg));
    }
    Program { launches, result: fc }
}

/// A domain of two points or more takes a stage or more.
proof fn lemma_levels(n: nat)
    requires
        n >= 2,
        dft::power_of_two(n),
    ensures
        ntt::lg(n) >= 1,
{
    lemma2_to64();
    assert(n == pow2(ntt::lg(n)));
}

/// The launches of a coset transform of `x` with scratch `y`, after others: `x` is carried along
/// the steps, and no third buffer changes.
proof fn lemma_coset_launches(
    before: Seq<Launch>,
    lg: int,
    x: usize,
    y: usize,
    slots: Seq<Seq<Fr>>,
    t: Tables,
    k: int,
)
    requires
        lg >= 1,
        x < 4,
        y < 4,
        x != y,
        executed(before, slots, t).len() == 4,
        0 <= k <= coset_launches(lg, x, y).len(),
    ensures
        ({
            let steps = schedule::coset_steps(lg);
            let held = executed(before, slots, t);
            let after = executed(before + coset_launches(lg, x, y).take(k), slots, t);
            let at = if k == 0 {
                x
            } else {
                slot(steps[k - 1].writes(), x, y)
            };
            &&& after.len() == 4
            &&& after[at as int] == pipeline::run(steps, k, held[x as int], t)
            &&& forall|z: int| 0 <= z < 4 && z != x && z != y ==> #[trigger] after[z] == held[z]
        }),
    decreases k,
{
    let all = coset_launches(lg, x, y);
    let steps = schedule::coset_steps(lg);
    if k == 0 {
        assert(before + all.take(0) =~= before);
    } else {
        lemma_coset_launches(before, lg, x, y, slots, t, k - 1);
        let list = before + all.take(k);
        assert(list.drop_last() =~= before + all.take(k - 1));
        assert(list.last() == all[k - 1]);
        schedule::lemma_schedule_live(lg, k - 1);
    }
}

/// A whole coset transform, after other launches: the result's buffer holds the evaluations on
/// the coset, and no third buffer changes.
proof fn lemma_coset_pair(
    before: Seq<Launch>,
    x: usize,
    y: usize,
    slots: Seq<Seq<Fr>>,
    t: Tables,
    n: nat,
)
    requires
        n >= 2,
        prover::provable_domain(n),
        t.of_size(n),
        x < 4,
        y < 4,
        x != y,
        executed(before, slots, t).len() == 4,
        executed(before, slots, t)[x as int].len() == n,
        dft::all_wf(executed(before, slots, t)[x as int]),
    ensures
        ({
            let lg = ntt::lg(n) as int;
            let held = executed(before, slots, t);
            let after = executed(before + coset_launches(lg, x, y), slots, t);
            &&& after.len() == 4
            &&& after[pair(lg, x, y).0 as int] == ntt::on_coset(
                held[x as int],
                prover::coset_shift(n),
            )
            &&& forall|z: int| 0 <= z < 4 && z != x && z != y ==> #[trigger] after[z] == held[z]
        }),
{
    let lg = ntt::lg(n) as int;
    let all = coset_launches(lg, x, y);
    let steps = schedule::coset_steps(lg);
    ntt::lemma_domain(n);
    lemma_levels(n);
    lemma_coset_launches(before, lg, x, y, slots, t, all.len() as int);
    assert(all.take(all.len() as int) =~= all);
    schedule::lemma_schedule_live(lg, steps.len() - 1);
    pipeline::lemma_run_coset(executed(before, slots, t)[x as int], t);
}

/// Running the program leaves the quotient's evaluations in the result's buffer.
pub proof fn lemma_program(slots: Seq<Seq<Fr>>, t: Tables, n: nat)
    requires
        n >= 2,
        prover::provable_domain(n),
        t.of_size(n),
        slots.len() == 4,
        slots[0].len() == n,
        slots[1].len() == n,
        dft::all_wf(slots[0]),
        dft::all_wf(slots[1]),
    ensures
        executed(
            program_launches(ntt::lg(n) as int),
            slots,
            t,
        )[program_result(ntt::lg(n) as int) as int] == prover::quotient(
            slots[0],
            slots[1],
            prover::coset_shift(n),
        ),
{
    let lg = ntt::lg(n) as int;
    let (ra, fa) = pair(lg, 0, 3);
    let (rb, fb) = pair(lg, 1, fa);
    let (rc, fc) = pair(lg, 2, fb);
    let shift = prover::coset_shift(n);
    let (a, b) = (slots[0], slots[1]);
    let p0 = seq![Launch::Mul { a: 0, b: 1, dst: 2 }];
    let p1 = p0 + coset_launches(lg, 0, 3);
    let p2 = p1 + coset_launches(lg, 1, fa);
    let p3 = p2 + coset_launches(lg, 2, fb);
    let p4 = program_launches(lg);
    prover::lemma_products_wf(a, b);
    assert(p0.drop_last() =~= Seq::empty());
    let s0 = executed(p0, slots, t);
    assert(executed(p0.drop_last(), slots, t) == slots);
    assert(s0 == slots.update(2, prover::products(a, b)));
    lemma_coset_pair(p0, 0, 3, slots, t, n);
    lemma_coset_pair(p1, 1, fa, slots, t, n);
    lemma_coset_pair(p2, 2, fb, slots, t, n);
    let s3 = executed(p3, slots, t);
    assert(s3[ra as int] == ntt::on_coset(a, shift));
    assert(s3[rb as int] == ntt::on_coset(b, shift));
    assert(s3[rc as int] == ntt::on_coset(prover::products(a, b), shift));
    assert(p4.drop_last() =~= p3);
    assert(p4.last() == (Launch::MulSub { a: ra, b: rb, c: rc, dst: fc }));
    assert(executed(p4, slots, t)[fc as int] =~= prover::quotient(a, b, shift));
}

// ---- the dialogue ------------------------------------------------------------------------------

/// One of the five multi-scalar sums of a proof.
#[derive(Clone, Copy, Debug, PartialEq, Eq, Structural)]
pub enum Query {
    /// Over the quotient's evaluations.
    H,
    /// Over the witness, in G1.
    A,
    /// Over the witness, in G1.
    B1,
    /// Over the witness, in G2.
    B2,
    /// Over the private part of the witness.
    C,
}

/// What the device is to do.
#[derive(Clone, Copy, Debug, PartialEq, Eq, Structural)]
pub enum Work {
    /// The values of the A groups.
    ScatterA,
    /// The values of the B groups.
    ScatterB,
    /// The quotient of the two polynomials ([`transform_program`]).
    Transform,
    /// The digits of the canonical scalars, for all windows.
    Digits(Query),
    /// The bucket sums of the layout over the query's points.
    Sums(Query),
    /// Nothing more.
    Done,
}

/// What the device found.
#[derive(Clone, Debug)]
pub enum Reply {
    /// Field elements: group values or a quotient.
    Values(Vec<Fr>),
    /// Digits.
    Digits(Vec<u32>),
    /// Bucket sums in G1.
    G1(Vec<Jacobian<Fp>>),
    /// Bucket sums in G2.
    G2(Vec<Jacobian<Fp2>>),
}

impl Query {
    /// The place in the order of the sums.
    pub open spec fn place(self) -> int {
        match self {
            Query::H => 0,
            Query::A => 1,
            Query::B1 => 2,
            Query::B2 => 3,
            Query::C => 4,
        }
    }

    /// The work after this sum.
    pub open spec fn then_work(self) -> Work {
        match self {
            Query::H => Work::Digits(Query::A),
            Query::A => Work::Digits(Query::B1),
            Query::B1 => Work::Digits(Query::B2),
            Query::B2 => Work::Digits(Query::C),
            Query::C => Work::Done,
        }
    }
}

impl Work {
    /// The place in the order of the work.
    pub open spec fn place(self) -> int {
        match self {
            Work::ScatterA => 0,
            Work::ScatterB => 1,
            Work::Transform => 2,
            Work::Digits(q) => 3 + 2 * q.place(),
            Work::Sums(q) => 4 + 2 * q.place(),
            Work::Done => 13,
        }
    }
}

/// A proof in progress.
pub struct Session {
    /// The key's sizes and verifying key.
    pub meta: Zkey,
    /// The constraints of the A groups.
    pub a_constraint: Vec<u32>,
    /// The constraints of the B groups.
    pub b_constraint: Vec<u32>,
    /// The witness.
    pub witness: Vec<Fr>,
    /// A blinding scalar.
    pub r: Fr,
    /// A blinding scalar.
    pub s: Fr,
    /// What the device is to do.
    pub at: Work,
    /// The A polynomial on the domain.
    pub a_poly: Vec<Fr>,
    /// The B polynomial on the domain.
    pub b_poly: Vec<Fr>,
    /// The quotient's evaluations.
    pub quotient: Vec<Fr>,
    /// The canonical scalars of the sum in progress.
    pub canonical: Vec<[u64; 4]>,
    /// The layout of the sum in progress: which points, bucket after bucket.
    pub order: Vec<u32>,
    /// Where the buckets begin and end.
    pub starts: Vec<u32>,
    /// The sums so far.
    pub msms: Msms,
}

/// The key's sizes fit a session.
pub open spec fn sizes_fit(meta: Zkey) -> bool {
    &&& meta.num_public + 1 < meta.num_vars
    &&& meta.domain_size >= 2
    &&& meta.domain_size <= u32::MAX
    &&& prover::provable_domain(meta.domain_size as nat)
    &&& pipeline::countable(meta.num_vars as int)
    &&& pipeline::countable(meta.domain_size as int)
}

/// The constraints are in the domain.
pub open spec fn constraints_fit(constraints: Seq<u32>, n: int) -> bool {
    forall|g: int| 0 <= g < constraints.len() ==> #[trigger] constraints[g] < n
}

/// A sum is the multi-scalar sum of the points, on their curve.
pub open spec fn sum_right<F: Field>(
    j: Jacobian<F>,
    points: Seq<Affine<F>>,
    scalars: Seq<Fr>,
    b: F,
) -> bool {
    &&& j.wf()
    &&& j.pt().on(b)
    &&& j.pt() == group::weighted(msm::pts(points), msm::vals(scalars))
}

impl Session {
    /// The scalars of a sum.
    pub open spec fn scalars(self, q: Query) -> Seq<Fr> {
        match q {
            Query::H => self.quotient@,
            Query::C => self.witness@.subrange(
                self.meta.num_public + 1,
                self.witness@.len() as int,
            ),
            _ => self.witness@,
        }
    }

    /// The canonical scalars are those of the sum.
    pub open spec fn canonical_of(self, q: Query) -> bool {
        &&& self.canonical@.len() == self.scalars(q).len()
        &&& forall|i: int|
            0 <= i < self.canonical@.len() ==> limbs::value(#[trigger] self.canonical@[i])
                == self.scalars(q)[i].val()
    }

    /// The sizes of what the session holds.
    pub open spec fn wf(self) -> bool {
        let n = self.meta.domain_size;
        &&& sizes_fit(self.meta)
        &&& self.witness@.len() == self.meta.num_vars
        &&& constraints_fit(self.a_constraint@, n as int)
        &&& constraints_fit(self.b_constraint@, n as int)
        &&& self.at.place() > 0 ==> self.a_poly@.len() == n
        &&& self.at.place() > 1 ==> self.b_poly@.len() == n
        &&& self.at.place() > 2 ==> self.quotient@.len() == n
        &&& match self.at {
            Work::Digits(q) => self.canonical_of(q),
            Work::Sums(q) => self.canonical_of(q),
            _ => true,
        }
    }

    /// The reply has the kind and the size of the work.
    pub open spec fn expects(self, reply: Reply) -> bool {
        match self.at {
            Work::ScatterA => reply matches Reply::Values(v) && v@.len()
                == self.a_constraint@.len(),
            Work::ScatterB => reply matches Reply::Values(v) && v@.len()
                == self.b_constraint@.len(),
            Work::Transform => reply matches Reply::Values(v) && v@.len()
                == self.meta.domain_size,
            Work::Digits(_) => reply matches Reply::Digits(d) && d@.len() == 22
                * self.canonical@.len() && forall|i: int|
                0 <= i < d@.len() ==> #[trigger] d@[i] <= 4095,
            Work::Sums(Query::B2) => reply matches Reply::G2(s) && s@.len() == 90090,
            Work::Sums(_) => reply matches Reply::G1(s) && s@.len() == 90090,
            Work::Done => false,
        }
    }

    /// The session is for this key, whose coefficients are in these groups, all reduced.
    pub open spec fn serves(self, key: Zkey, groups: CoefficientGroups) -> bool {
        &&& pipeline::launchable(key)
        &&& prover::key_reduced(key)
        &&& pipeline::groups_wf(groups)
        &&& pipeline::scatterable(
            groups.a@,
            groups.a_starts@,
            groups.a_constraint@,
            key.num_vars as int,
            key.domain_size as int,
        )
        &&& pipeline::scatterable(
            groups.b@,
            groups.b_starts@,
            groups.b_constraint@,
            key.num_vars as int,
            key.domain_size as int,
        )
        &&& self.meta.num_vars == key.num_vars
        &&& self.meta.num_public == key.num_public
        &&& self.meta.domain_size == key.domain_size
        &&& self.meta.vk == key.vk
        &&& self.a_constraint@ == groups.a_constraint@
        &&& self.b_constraint@ == groups.b_constraint@
        &&& dft::all_wf(self.witness@)
        &&& self.r.wf()
        &&& self.s.wf()
    }

    /// What the session holds is right for the key.
    pub open spec fn sound(self, key: Zkey, groups: CoefficientGroups) -> bool {
        let n = key.domain_size as nat;
        let at = self.at.place();
        let (g1, g2) = (ec::g1_b_spec(), ec::g2_b_spec());
        &&& self.serves(key, groups)
        &&& at > 0 ==> self.a_poly@ == pipeline::grouped_polynomial(
            groups.a@,
            groups.a_starts@,
            groups.a_constraint@,
            self.witness@,
            n,
        )
        &&& at > 1 ==> self.b_poly@ == pipeline::grouped_polynomial(
            groups.b@,
            groups.b_starts@,
            groups.b_constraint@,
            self.witness@,
            n,
        )
        &&& at > 2 ==> self.quotient@ == pipeline::grouped_quotient(groups, self.witness@, n)
        &&& self.at matches Work::Sums(_) ==> pipeline::windows_sorted(
            pipeline::all_digits_of(self.canonical@, 12, 22),
            self.canonical@.len() as int,
            4095,
            self.order@,
            self.starts@,
        )
        &&& at > 4 ==> sum_right(self.msms.h, key.h@, self.scalars(Query::H), g1)
        &&& at > 6 ==> sum_right(self.msms.a, key.a@, self.scalars(Query::A), g1)
        &&& at > 8 ==> sum_right(self.msms.b1, key.b1@, self.scalars(Query::B1), g1)
        &&& at > 10 ==> sum_right(self.msms.b2, key.b2@, self.scalars(Query::B2), g2)
        &&& at > 12 ==> sum_right(self.msms.c, key.c@, self.scalars(Query::C), g1)
    }

    /// The reply is what the kernels compute for the key.
    pub open spec fn answered(self, reply: Reply, key: Zkey, groups: CoefficientGroups) -> bool {
        match (self.at, reply) {
            (Work::ScatterA, Reply::Values(v)) => v@ == pipeline::group_values(
                groups.a@,
                groups.a_starts@,
                self.witness@,
                groups.a_constraint@.len(),
            ),
            (Work::ScatterB, Reply::Values(v)) => v@ == pipeline::group_values(
                groups.b@,
                groups.b_starts@,
                self.witness@,
                groups.b_constraint@.len(),
            ),
            (Work::Transform, Reply::Values(v)) => v@ == prover::quotient(
                self.a_poly@,
                self.b_poly@,
                prover::coset_shift(key.domain_size as nat),
            ),
            (Work::Digits(_), Reply::Digits(d)) => d@ == pipeline::all_digits_of(
                self.canonical@,
                12,
                22,
            ),
            (Work::Sums(q), Reply::G1(s)) => device::buckets_summed(
                g1_points(key, q),
                self.order@,
                self.starts@,
                90090,
                s@,
            ),
            (Work::Sums(_), Reply::G2(s)) => device::buckets_summed(
                key.b2@,
                self.order@,
                self.starts@,
                90090,
                s@,
            ),
            _ => false,
        }
    }
}

/// The points of a sum in G1.
pub open spec fn g1_points(key: Zkey, q: Query) -> Seq<Affine<Fp>> {
    match q {
        Query::H => key.h@,
        Query::A => key.a@,
        Query::B1 => key.b1@,
        _ => key.c@,
    }
}

/// Bucket sums of the layout combine to the multi-scalar sum.
proof fn lemma_sum_right<F: Field>(
    points: Seq<Affine<F>>,
    scalars: Seq<Fr>,
    canonical: Seq<[u64; 4]>,
    order: Seq<u32>,
    starts: Seq<u32>,
    sums: Seq<Jacobian<F>>,
    window_sums: Seq<Jacobian<F>>,
    r: Jacobian<F>,
    b: F,
)
    requires
        msm::on_curve(points, b),
        points.len() > 0,
        points.len() == scalars.len() == canonical.len(),
        pipeline::countable(points.len() as int),
        forall|i: int|
            0 <= i < canonical.len() ==> limbs::value(#[trigger] canonical[i])
                == scalars[i].val(),
        pipeline::windows_sorted(
            pipeline::all_digits_of(canonical, 12, 22),
            canonical.len() as int,
            4095,
            order,
            starts,
        ),
        device::buckets_summed(points, order, starts, 90090, sums),
        window_sums.len() == 22,
        msm::jacobians_on_curve(sums, b) ==> forall|w: int|
            0 <= w < 22 ==> (#[trigger] window_sums[w]).wf() && window_sums[w].pt()
                == group::counted(msm::jacobian_pts(sums).subrange(w * 4095, w * 4095 + 4095)),
        msm::jacobians_on_curve(window_sums, b) ==> r.wf() && r.pt() == group::windowed(
            msm::jacobian_pts(window_sums),
            12,
        ),
    ensures
        sum_right(r, points, scalars, b),
{
    let entries = pipeline::points_at(msm::pts(points), order);
    let t = msm::jacobian_pts(sums);
    pipeline::lemma_sorted_layout(canonical, order, starts);
    assert forall|i: int| 0 <= i < points.len() implies (#[trigger] points[i]).wf() by {}
    assert forall|i: int| 0 <= i < 90090 implies #[trigger] t[i] == plan::level_sums(
        entries,
        starts,
    )[i] by {
        assert(sums[i].wf());
        assert(starts[i] <= starts[i + 1]);
        assert(starts[i + 1] <= starts[starts.len() - 1]);
        assert(kernels::named_points(points, order, starts[i] as int, starts[i + 1] as int)
            =~= entries.subrange(starts[i] as int, starts[i + 1] as int));
    }
    assert(t =~= plan::level_sums(entries, starts));
    pipeline::lemma_msm_direct(
        points,
        scalars,
        canonical,
        order,
        starts,
        sums,
        window_sums,
        b,
    );
    prover::lemma_msm_on(points, scalars, b);
}

/// An empty layout is the identity.
proof fn lemma_empty_right<F: Field>(
    points: Seq<Affine<F>>,
    scalars: Seq<Fr>,
    canonical: Seq<[u64; 4]>,
    order: Seq<u32>,
    starts: Seq<u32>,
    r: Jacobian<F>,
    b: F,
)
    requires
        msm::on_curve(points, b),
        points.len() > 0,
        points.len() == scalars.len() == canonical.len(),
        pipeline::countable(points.len() as int),
        forall|i: int|
            0 <= i < canonical.len() ==> limbs::value(#[trigger] canonical[i])
                == scalars[i].val(),
        pipeline::windows_sorted(
            pipeline::all_digits_of(canonical, 12, 22),
            canonical.len() as int,
            4095,
            order,
            starts,
        ),
        order.len() == 0,
        r.wf(),
        r.pt() == Pt::<F>::Infinity,
    ensures
        sum_right(r, points, scalars, b),
{
    pipeline::lemma_msm_empty(points, scalars, canonical, order, starts, b);
}

impl Session {
    /// Begin a proof, if the witness is one of the key's.
    pub fn start(
        meta: &Zkey,
        a_constraint: &[u32],
        b_constraint: &[u32],
        witness: &[Fr],
        r: &Fr,
        s: &Fr,
    ) -> (result: Result<Session, ProveError>)
        requires
            sizes_fit(*meta),
            constraints_fit(a_constraint@, meta.domain_size as int),
            constraints_fit(b_constraint@, meta.domain_size as int),
        ensures
            match result {
                Err(e) => e == (if witness@.len() != meta.num_vars {
                    ProveError::WitnessLength { expected: meta.num_vars, found: witness.len() }
                } else {
                    ProveError::WitnessConstant
                }),
                Ok(x) => {
                    &&& x.wf()
                    &&& x.at == Work::ScatterA
                    &&& x.meta.num_vars == meta.num_vars
                    &&& x.meta.num_public == meta.num_public
                    &&& x.meta.domain_size == meta.domain_size
                    &&& x.meta.vk == meta.vk
                    &&& x.a_constraint@ == a_constraint@
                    &&& x.b_constraint@ == b_constraint@
                    &&& x.witness@ == witness@
                    &&& x.r == *r
                    &&& x.s == *s
                    &&& forall|key: Zkey, groups: CoefficientGroups| #[trigger]
                        x.serves(key, groups) ==> x.sound(key, groups)
                },
            },
            result is Ok <==> witness@.len() == meta.num_vars && witness@[0] == Fr::one_spec(),
    {
        match device::check_witness(meta, witness) {
            Ok(_) => {},
            Err(e) => {
                return Err(e);
            },
        }
        let o = Jacobian::<Fp>::infinity();
        let msms = Msms { h: o, a: o, b1: o, b2: Jacobian::<Fp2>::infinity(), c: o };
        Ok(
            Session {
                meta: device::strip(meta),
                a_constraint: device::copied(a_constraint),
                b_constraint: device::copied(b_constraint),
                witness: device::copied(witness),
                r: *r,
                s: *s,
                at: Work::ScatterA,
                a_poly: Vec::new(),
                b_poly: Vec::new(),
                quotient: Vec::new(),
                canonical: Vec::new(),
                order: Vec::new(),
                starts: Vec::new(),
                msms,
            },
        )
    }
}

/// The sums with one in G1 replaced.
pub open spec fn with_g1(msms: Msms, q: Query, j: Jacobian<Fp>) -> Msms {
    match q {
        Query::H => Msms { h: j, ..msms },
        Query::A => Msms { a: j, ..msms },
        Query::B1 => Msms { b1: j, ..msms },
        _ => Msms { c: j, ..msms },
    }
}

/// The sums where one has no entries.
pub open spec fn passed_over(msms: Msms, q: Query) -> Msms {
    if q == Query::B2 {
        Msms { b2: Jacobian::infinity_spec(), ..msms }
    } else {
        with_g1(msms, q, Jacobian::infinity_spec())
    }
}

/// `window_sums` are the bucket sums `sums` counted window by window, and `r` is their Horner sum,
/// if the bucket sums are on the curve with this `b`.
spec fn combined_on<F: Field>(
    sums: Seq<Jacobian<F>>,
    window_sums: Seq<Jacobian<F>>,
    r: Jacobian<F>,
    b: F,
) -> bool {
    &&& window_sums.len() == 22
    &&& msm::jacobians_on_curve(sums, b) ==> forall|w: int|
        0 <= w < 22 ==> (#[trigger] window_sums[w]).wf() && window_sums[w].pt() == group::counted(
            msm::jacobian_pts(sums).subrange(w * 4095, w * 4095 + 4095),
        )
    &&& msm::jacobians_on_curve(window_sums, b) ==> r.wf() && r.pt() == group::windowed(
        msm::jacobian_pts(window_sums),
        12,
    )
}

/// The window sums of bucket sums, combined.
fn combine<F: Field>(sums: &[Jacobian<F>]) -> (r: (Jacobian<F>, Ghost<Seq<Jacobian<F>>>))
    requires
        sums@.len() == 90090,
    ensures
        forall|b: F| #[trigger] combined_on(sums@, r.1@, r.0, b),
        device::reduced_to(sums@, r.0),
{
    let window_sums = reduce_all_windows(sums, 4095);
    let j = horner(&window_sums, 12);
    proof {
        if exists|b: F| #[trigger] msm::jacobians_on_curve(sums@, b) {
            let b = choose|b: F| #[trigger] msm::jacobians_on_curve(sums@, b);
            device::lemma_reduced(sums@, window_sums@, b);
        }
    }
    (j, Ghost(window_sums@))
}

/// The digits are those of `n` scalars in 22 windows, and each has a bucket.
pub open spec fn layable(digits: Seq<u32>, n: int) -> bool {
    &&& n > 0
    &&& pipeline::countable(n)
    &&& digits.len() == 22 * n
    &&& forall|i: int| 0 <= i < digits.len() ==> #[trigger] digits[i] <= 4095
}

/// The order and the starts of the buckets of `n` scalars' digits, window after window. There are
/// none where the digits are not 22 for each scalar, at least one and at most `u32::MAX` in all,
/// or where one has no bucket.
pub fn laid_out(digits: &[u32], n: usize) -> (r: Option<(Vec<u32>, Vec<u32>)>)
    ensures
        r is Some <==> layable(digits@, n as int),
        r matches Some(x) ==> pipeline::windows_sorted(digits@, n as int, 4095, x.0@, x.1@),
{
    if n == 0 || n > 0xffff_ffff / 22 || digits.len() != 22 * n || !all_in_buckets(digits) {
        return None;
    }
    proof {
        lemma_mod_multiples_basic(22, n as int);
        lemma_mul_is_commutative(22, n as int);
    }
    Some(sort_all_windows(digits, n, 4095))
}

/// The sum that the bucket sums of 22 windows of 4095 buckets make. There is none for any other
/// number of them.
pub fn combined<F: Field>(sums: &[Jacobian<F>]) -> (r: Option<Jacobian<F>>)
    ensures
        r is Some <==> sums@.len() == 90090,
        r matches Some(j) ==> device::reduced_to(sums@, j),
{
    if sums.len() != 90090 {
        return None;
    }
    Some(combine(sums).0)
}

/// A session that turns from a sum in G1 to what follows stays right with the right sum.
proof fn lemma_moved_on_g1(
    was: Session,
    q: Query,
    j: Jacobian<Fp>,
    r: Session,
    key: Zkey,
    groups: CoefficientGroups,
)
    requires
        was.at == Work::Digits(q) || was.at == Work::Sums(q),
        q != Query::B2,
        sum_right(j, g1_points(key, q), was.scalars(q), ec::g1_b_spec()),
        same_proof(was, r),
        same_values(was, r),
        r.at == q.then_work(),
        r.msms == with_g1(was.msms, q, j),
        was.sound(key, groups),
    ensures
        r.sound(key, groups),
{
    assert(r.serves(key, groups));
}

/// A session that turns from the sum in G2 to what follows stays right with the right sum.
proof fn lemma_moved_on_g2(
    was: Session,
    j: Jacobian<Fp2>,
    r: Session,
    key: Zkey,
    groups: CoefficientGroups,
)
    requires
        was.at == Work::Digits(Query::B2) || was.at == Work::Sums(Query::B2),
        sum_right(j, key.b2@, was.scalars(Query::B2), ec::g2_b_spec()),
        same_proof(was, r),
        same_values(was, r),
        r.at == Query::B2.then_work(),
        r.msms == (Msms { b2: j, ..was.msms }),
        was.sound(key, groups),
    ensures
        r.sound(key, groups),
{
    assert(r.serves(key, groups));
}

/// A sum in G1 is right in the session that follows right bucket sums.
proof fn lemma_took_g1(
    was: Session,
    q: Query,
    sums: Vec<Jacobian<Fp>>,
    window_sums: Seq<Jacobian<Fp>>,
    j: Jacobian<Fp>,
    r: Session,
    key: Zkey,
    groups: CoefficientGroups,
)
    requires
        was.wf(),
        was.at == Work::Sums(q),
        q != Query::B2,
        combined_on(sums@, window_sums, j, ec::g1_b_spec()),
        r.wf(),
        r == (Session {
            at: q.then_work(),
            canonical: r.canonical,
            msms: with_g1(was.msms, q, j),
            ..was
        }),
        was.sound(key, groups),
        was.answered(Reply::G1(sums), key, groups),
    ensures
        r.sound(key, groups),
{
    lemma_sum_right(
        g1_points(key, q),
        was.scalars(q),
        was.canonical@,
        was.order@,
        was.starts@,
        sums@,
        window_sums,
        j,
        ec::g1_b_spec(),
    );
    lemma_moved_on_g1(was, q, j, r, key, groups);
}

/// The sum in G2 is right in the session that follows right bucket sums.
proof fn lemma_took_g2(
    was: Session,
    sums: Vec<Jacobian<Fp2>>,
    window_sums: Seq<Jacobian<Fp2>>,
    j: Jacobian<Fp2>,
    r: Session,
    key: Zkey,
    groups: CoefficientGroups,
)
    requires
        was.wf(),
        was.at == Work::Sums(Query::B2),
        combined_on(sums@, window_sums, j, ec::g2_b_spec()),
        r.wf(),
        r == (Session {
            at: Query::B2.then_work(),
            canonical: r.canonical,
            msms: (Msms { b2: j, ..was.msms }),
            ..was
        }),
        was.sound(key, groups),
        was.answered(Reply::G2(sums), key, groups),
    ensures
        r.sound(key, groups),
{
    lemma_sum_right(
        key.b2@,
        was.scalars(Query::B2),
        was.canonical@,
        was.order@,
        was.starts@,
        sums@,
        window_sums,
        j,
        ec::g2_b_spec(),
    );
    lemma_moved_on_g2(was, j, r, key, groups);
}

/// A sum without entries is right in the session that passes over it.
proof fn lemma_took_none(
    was: Session,
    q: Query,
    digits: Vec<u32>,
    r: Session,
    key: Zkey,
    groups: CoefficientGroups,
)
    requires
        was.wf(),
        was.at == Work::Digits(q),
        r.wf(),
        r == (Session {
            at: q.then_work(),
            canonical: r.canonical,
            order: r.order,
            starts: r.starts,
            msms: passed_over(was.msms, q),
            ..was
        }),
        pipeline::windows_sorted(
            digits@,
            was.canonical@.len() as int,
            4095,
            r.order@,
            r.starts@,
        ),
        r.order@.len() == 0,
        was.sound(key, groups),
        was.answered(Reply::Digits(digits), key, groups),
    ensures
        r.sound(key, groups),
{
    Fp::constants_wf();
    Fp2::constants_wf();
    assert(Jacobian::<Fp>::infinity_spec().wf() && Jacobian::<Fp2>::infinity_spec().wf());
    assert(Jacobian::<Fp>::infinity_spec().pt() == Pt::<Fp>::Infinity);
    assert(Jacobian::<Fp2>::infinity_spec().pt() == Pt::<Fp2>::Infinity);
    if q == Query::B2 {
        lemma_empty_right(
            key.b2@,
            was.scalars(q),
            was.canonical@,
            r.order@,
            r.starts@,
            Jacobian::<Fp2>::infinity_spec(),
            ec::g2_b_spec(),
        );
        lemma_moved_on_g2(was, Jacobian::infinity_spec(), r, key, groups);
    } else {
        lemma_empty_right(
            g1_points(key, q),
            was.scalars(q),
            was.canonical@,
            r.order@,
            r.starts@,
            Jacobian::<Fp>::infinity_spec(),
            ec::g1_b_spec(),
        );
        lemma_moved_on_g1(was, q, Jacobian::infinity_spec(), r, key, groups);
    }
}

impl Session {
    /// The sizes that do not depend on the work.
    spec fn based(self) -> bool {
        let n = self.meta.domain_size;
        &&& sizes_fit(self.meta)
        &&& self.witness@.len() == self.meta.num_vars
        &&& constraints_fit(self.a_constraint@, n as int)
        &&& constraints_fit(self.b_constraint@, n as int)
        &&& self.a_poly@.len() == n
        &&& self.b_poly@.len() == n
        &&& self.quotient@.len() == n
    }

    /// Turn to a sum.
    fn turned(self, q: Query) -> (r: Session)
        requires
            self.based(),
        ensures
            r.wf(),
            r == (Session { at: Work::Digits(q), canonical: r.canonical, ..self }),
    {
        let mut x = self;
        x.canonical = match q {
            Query::H => msm::canonical_scalars(&x.quotient),
            Query::C => {
                let from = x.meta.num_public + 1;
                msm::canonical_scalars(
                    vstd::slice::slice_subrange(&x.witness, from, x.witness.len()),
                )
            },
            _ => msm::canonical_scalars(&x.witness),
        };
        x.at = Work::Digits(q);
        x
    }

    /// Turn to what follows a sum.
    fn moved_on(self, q: Query) -> (r: Session)
        requires
            self.based(),
        ensures
            r.wf(),
            r == (Session { at: q.then_work(), canonical: r.canonical, ..self }),
    {
        match q {
            Query::H => self.turned(Query::A),
            Query::A => self.turned(Query::B1),
            Query::B1 => self.turned(Query::B2),
            Query::B2 => self.turned(Query::C),
            Query::C => {
                let mut x = self;
                x.at = Work::Done;
                x
            },
        }
    }

    /// Keep a sum in G1.
    fn kept_g1(self, q: Query, j: Jacobian<Fp>) -> (r: Session)
        requires
            q != Query::B2,
        ensures
            r == (Session { msms: with_g1(self.msms, q, j), ..self }),
    {
        let mut x = self;
        match q {
            Query::H => {
                x.msms.h = j;
            },
            Query::A => {
                x.msms.a = j;
            },
            Query::B1 => {
                x.msms.b1 = j;
            },
            _ => {
                x.msms.c = j;
            },
        }
        x
    }

    /// Take the bucket sums of a sum in G1.
    #[verifier::spinoff_prover]
    fn took_g1(self, q: Query, sums: Vec<Jacobian<Fp>>) -> (r: Session)
        requires
            self.wf(),
            self.at == Work::Sums(q),
            q != Query::B2,
            sums@.len() == 90090,
        ensures
            r.wf(),
            follows(self, Reply::G1(sums), r),
            forall|key: Zkey, groups: CoefficientGroups| #[trigger]
                self.sound(key, groups) && self.answered(Reply::G1(sums), key, groups) ==> r.sound(
                    key,
                    groups,
                ),
    {
        let ghost was = self;
        let (j, Ghost(ws)) = combine(&sums);
        let r = self.kept_g1(q, j).moved_on(q);
        proof {
            assert(combined_on(sums@, ws, j, ec::g1_b_spec()));
            assert(r.msms == with_g1(was.msms, q, j));
            assert forall|key: Zkey, groups: CoefficientGroups| #[trigger]
                was.sound(key, groups) && was.answered(Reply::G1(sums), key, groups) implies r.sound(
                key,
                groups,
            ) by {
                lemma_took_g1(was, q, sums, ws, j, r, key, groups);
            }
        }
        r
    }

    /// Take the bucket sums of the sum in G2.
    #[verifier::spinoff_prover]
    fn took_g2(self, sums: Vec<Jacobian<Fp2>>) -> (r: Session)
        requires
            self.wf(),
            self.at == Work::Sums(Query::B2),
            sums@.len() == 90090,
        ensures
            r.wf(),
            follows(self, Reply::G2(sums), r),
            forall|key: Zkey, groups: CoefficientGroups| #[trigger]
                self.sound(key, groups) && self.answered(Reply::G2(sums), key, groups) ==> r.sound(
                    key,
                    groups,
                ),
    {
        let ghost was = self;
        let (j, Ghost(ws)) = combine(&sums);
        let mut x = self;
        x.msms.b2 = j;
        let r = x.moved_on(Query::B2);
        proof {
            assert(combined_on(sums@, ws, j, ec::g2_b_spec()));
            assert forall|key: Zkey, groups: CoefficientGroups| #[trigger]
                was.sound(key, groups) && was.answered(Reply::G2(sums), key, groups) implies r.sound(
                key,
                groups,
            ) by {
                lemma_took_g2(was, sums, ws, j, r, key, groups);
            }
        }
        r
    }
}

/// What a session keeps from its start to its end.
pub open spec fn same_proof(before: Session, after: Session) -> bool {
    &&& after.meta == before.meta
    &&& after.a_constraint == before.a_constraint
    &&& after.b_constraint == before.b_constraint
    &&& after.witness == before.witness
    &&& after.r == before.r
    &&& after.s == before.s
}

/// The polynomials are as they were.
pub open spec fn same_values(before: Session, after: Session) -> bool {
    after.a_poly == before.a_poly && after.b_poly == before.b_poly && after.quotient
        == before.quotient
}

/// The session after a reply, whatever the reply holds: the work that follows, and what the
/// reply became. Nothing is said of a sum from bucket sums that are on no curve.
pub open spec fn follows(before: Session, reply: Reply, after: Session) -> bool {
    let n = before.meta.domain_size as nat;
    &&& same_proof(before, after)
    &&& match (before.at, reply) {
        (Work::ScatterA, Reply::Values(v)) => {
            &&& after.at == Work::ScatterB
            &&& after.a_poly@ == pipeline::placed(before.a_constraint@, v@, n)
            &&& after.msms == before.msms
        },
        (Work::ScatterB, Reply::Values(v)) => {
            &&& after.at == Work::Transform
            &&& after.a_poly == before.a_poly
            &&& after.b_poly@ == pipeline::placed(before.b_constraint@, v@, n)
            &&& after.msms == before.msms
        },
        (Work::Transform, Reply::Values(v)) => {
            &&& after.at == Work::Digits(Query::H)
            &&& after.quotient == v
            &&& after.a_poly == before.a_poly
            &&& after.b_poly == before.b_poly
            &&& after.msms == before.msms
        },
        (Work::Digits(q), Reply::Digits(d)) => {
            &&& same_values(before, after)
            &&& pipeline::windows_sorted(
                d@,
                before.canonical@.len() as int,
                4095,
                after.order@,
                after.starts@,
            )
            &&& if after.order@.len() > 0 {
                after.at == Work::Sums(q) && after.msms == before.msms
            } else {
                after.at == q.then_work() && after.msms == passed_over(before.msms, q)
            }
        },
        (Work::Sums(q), Reply::G1(sums)) => {
            &&& same_values(before, after)
            &&& after.at == q.then_work()
            &&& exists|j: Jacobian<Fp>|
                device::reduced_to(sums@, j) && after.msms == #[trigger] with_g1(
                    before.msms,
                    q,
                    j,
                )
        },
        (Work::Sums(q), Reply::G2(sums)) => {
            &&& same_values(before, after)
            &&& after.at == q.then_work()
            &&& device::reduced_to(sums@, after.msms.b2)
            &&& after.msms == (Msms { b2: after.msms.b2, ..before.msms })
        },
        _ => false,
    }
}

impl Session {
    /// Take the digits of a sum: lay its buckets out, and pass over a sum with none.
    #[verifier::spinoff_prover]
    fn took_digits(self, q: Query, digits: Vec<u32>) -> (r: Session)
        requires
            self.wf(),
            self.at == Work::Digits(q),
            digits@.len() == 22 * self.canonical@.len(),
            forall|i: int| 0 <= i < digits@.len() ==> #[trigger] digits@[i] <= 4095,
        ensures
            r.wf(),
            follows(self, Reply::Digits(digits), r),
            forall|key: Zkey, groups: CoefficientGroups| #[trigger]
                self.sound(key, groups) && self.answered(Reply::Digits(digits), key, groups)
                    ==> r.sound(key, groups),
    {
        let ghost was = self;
        let n = self.canonical.len();
        proof {
            lemma_mod_multiples_basic(22, n as int);
            lemma_mul_is_commutative(22, n as int);
        }
        let (order, starts) = sort_all_windows(&digits, n, 4095);
        let empty = order.len() == 0;
        let mut x = self;
        x.order = order;
        x.starts = starts;
        if !empty {
            x.at = Work::Sums(q);
            return x;
        }
        let r = match q {
            Query::B2 => {
                let o = Jacobian::<Fp2>::infinity();
                x.msms.b2 = o;
                x.moved_on(q)
            },
            _ => {
                let o = Jacobian::<Fp>::infinity();
                x.kept_g1(q, o).moved_on(q)
            },
        };
        proof {
            assert forall|key: Zkey, groups: CoefficientGroups| #[trigger]
                was.sound(key, groups) && was.answered(
                    Reply::Digits(digits),
                    key,
                    groups,
                ) implies r.sound(key, groups) by {
                lemma_took_none(was, q, digits, r, key, groups);
            }
        }
        r
    }

    /// Whether a reply has the kind and the size of the work.
    pub fn accepts(&self, reply: &Reply) -> (r: bool)
        requires
            self.wf(),
        ensures
            r == self.expects(*reply),
    {
        match (self.at, reply) {
            (Work::ScatterA, Reply::Values(v)) => v.len() == self.a_constraint.len(),
            (Work::ScatterB, Reply::Values(v)) => v.len() == self.b_constraint.len(),
            (Work::Transform, Reply::Values(v)) => v.len() == self.meta.domain_size,
            (Work::Digits(_), Reply::Digits(d)) => d.len() as u64 == 22 * (
            self.canonical.len() as u64) && all_in_buckets(d),
            (Work::Sums(Query::B2), Reply::G2(s)) => s.len() == 90090,
            (Work::Sums(q), Reply::G1(s)) => !matches!(q, Query::B2) && s.len() == 90090,
            _ => false,
        }
    }

    /// Take a reply, and turn to the next work. What is right for a key stays right, if the reply
    /// is what the kernels compute.
    pub fn step(self, reply: Reply) -> (r: Session)
        requires
            self.wf(),
            self.expects(reply),
        ensures
            r.wf(),
            follows(self, reply, r),
            forall|key: Zkey, groups: CoefficientGroups| #[trigger]
                self.sound(key, groups) && self.answered(reply, key, groups) ==> r.sound(
                    key,
                    groups,
                ),
    {
        let n = self.meta.domain_size;
        match (self.at, reply) {
            (Work::ScatterA, Reply::Values(v)) => {
                let mut x = self;
                x.a_poly = pipeline::place(&x.a_constraint, &v, n);
                x.at = Work::ScatterB;
                x
            },
            (Work::ScatterB, Reply::Values(v)) => {
                let mut x = self;
                x.b_poly = pipeline::place(&x.b_constraint, &v, n);
                x.at = Work::Transform;
                x
            },
            (Work::Transform, Reply::Values(v)) => {
                let mut x = self;
                x.quotient = v;
                x.turned(Query::H)
            },
            (Work::Digits(q), Reply::Digits(d)) => self.took_digits(q, d),
            (Work::Sums(q), Reply::G1(sums)) => self.took_g1(q, sums),
            (Work::Sums(_), Reply::G2(sums)) => self.took_g2(sums),
            _ => {
                assert(false);
                self
            },
        }
    }

    /// The proof, when all is done.
    pub fn finish(&self) -> (proof: Proof)
        requires
            self.wf(),
            self.at == Work::Done,
        ensures
            prover::key_points(self.meta.vk) && self.msms.on_curves() ==> proof
                == prover::assembled(
                self.meta.vk,
                self.msms.h.pt(),
                self.msms.a.pt(),
                self.msms.b1.pt(),
                self.msms.b2.pt(),
                self.msms.c.pt(),
                self.r,
                self.s,
            ),
            forall|key: Zkey, groups: CoefficientGroups| #[trigger]
                self.sound(key, groups) ==> proof == prover::proof_with(
                    key,
                    pipeline::grouped_quotient(groups, self.witness@, key.domain_size as nat),
                    self.witness@,
                    self.r,
                    self.s,
                ),
    {
        prover::assemble(&self.meta, &self.msms, &self.r, &self.s)
    }

    /// The proof of a session whose replies were what the kernels compute is the reference
    /// prover's, for every key that parses, whether or not its flat list was dropped.
    pub proof fn lemma_finish_is_core(self, zkey: Zkey, held: Zkey, groups: CoefficientGroups)
        requires
            self.sound(held, groups),
            zkey.consistent(),
            prover::ascends(zkey.coefficients@),
            groups.of_key(zkey),
            pipeline::but_for_list(held, zkey),
            self.witness@.len() == zkey.num_vars,
        ensures
            prover::proof_with(
                held,
                pipeline::grouped_quotient(groups, self.witness@, held.domain_size as nat),
                self.witness@,
                self.r,
                self.s,
            ) == prover::proof_of(zkey, self.witness@, self.r, self.s),
    {
        pipeline::lemma_grouped_is_core(zkey, held, groups, self.witness@, self.r, self.s);
    }
}

} // verus!
