//! The launch schedule of the coset transform (inverse NTT, scale by
//! `n⁻¹·shift^i`, forward NTT) as data: which kernel, reading which of two
//! ping-pong buffers, writing which, with which arguments, and which buffer
//! holds the result at the end.
//!
//! The ping-pong bookkeeping exists once, here; an executor cannot read the
//! stale buffer, because it never chooses a buffer: the schedule does.

use vstd::arithmetic::div_mod::*;
use vstd::arithmetic::power2::*;
use vstd::prelude::*;

use crate::math::dft;
use crate::ntt;

verus! {

/// One of the two ping-pong buffers.
#[derive(Clone, Copy, Debug, PartialEq, Eq, Structural)]
pub enum Buf {
    /// The buffer that holds the input on entry.
    A,
    /// The scratch buffer.
    B,
}

impl Buf {
    /// The other buffer.
    pub open spec fn opposite(self) -> Buf {
        match self {
            Buf::A => Buf::B,
            Buf::B => Buf::A,
        }
    }

    /// The other buffer.
    pub fn other(self) -> (r: Self)
        ensures
            r == self.opposite(),
    {
        match self {
            Buf::A => Buf::B,
            Buf::B => Buf::A,
        }
    }
}

/// Which twiddle table a stage reads.
#[derive(Clone, Copy, Debug, PartialEq, Eq, Structural)]
pub enum Twiddles {
    /// `Tables::inverse` (the inverse NTT).
    Inverse,
    /// `Tables::forward` (the forward NTT).
    Forward,
}

/// One launch of the coset transform.
#[derive(Clone, Copy, Debug, PartialEq, Eq, Structural)]
pub enum Step {
    /// `dst[i] = src[rev(i)]` (`kernels::bit_reverse`).
    BitReverse {
        /// Read.
        src: Buf,
        /// Written.
        dst: Buf,
    },
    /// One radix-2 stage (`kernels::ntt_stage`) of length `len` with twiddle
    /// `stride`.
    NttStage {
        /// Read.
        src: Buf,
        /// Written.
        dst: Buf,
        /// Stage length (a power of two, `2..=n`).
        len: u32,
        /// Twiddle stride: `n / len`.
        stride: u32,
        /// Table.
        twiddles: Twiddles,
    },
    /// `dst[i] = src[i]·shift_powers[i]·n_inv` (`kernels::pointwise_scale`
    /// then `kernels::scale`).
    Scale {
        /// Read.
        src: Buf,
        /// Written.
        dst: Buf,
    },
}

impl Step {
    /// The buffer this step reads.
    pub open spec fn reads(self) -> Buf {
        match self {
            Step::BitReverse { src, .. } => src,
            Step::NttStage { src, .. } => src,
            Step::Scale { src, .. } => src,
        }
    }

    /// The buffer this step writes.
    pub open spec fn writes(self) -> Buf {
        match self {
            Step::BitReverse { dst, .. } => dst,
            Step::NttStage { dst, .. } => dst,
            Step::Scale { dst, .. } => dst,
        }
    }

    /// The buffer this step reads.
    pub fn src(&self) -> (r: Buf)
        ensures
            r == self.reads(),
    {
        match *self {
            Step::BitReverse { src, .. } => src,
            Step::NttStage { src, .. } => src,
            Step::Scale { src, .. } => src,
        }
    }

    /// The buffer this step writes.
    pub fn dst(&self) -> (r: Buf)
        ensures
            r == self.writes(),
    {
        match *self {
            Step::BitReverse { dst, .. } => dst,
            Step::NttStage { dst, .. } => dst,
            Step::Scale { dst, .. } => dst,
        }
    }
}

/// The schedule for a domain of `n = 2^lg_n` points, and the buffer holding
/// the result once every step has run in order.
#[derive(Clone, Debug, PartialEq, Eq)]
pub struct Schedule {
    /// Launches, in order.
    pub steps: Vec<Step>,
    /// Where the coset evaluations are at the end.
    pub result: Buf,
}

/// The buffer that the `j`-th step from `input` reads.
pub open spec fn ping_pong(input: Buf, j: int) -> Buf {
    if j % 2 == 0 {
        input
    } else {
        input.opposite()
    }
}

/// Step `j` of a transform of `2^lg` points: the bit reversal, then the stages of length
/// `2, 4, …, 2^lg` with stride `2^lg / length`, each reading what the one before wrote.
pub open spec fn ntt_step(input: Buf, lg: int, twiddles: Twiddles, j: int) -> Step {
    let src = ping_pong(input, j);
    let dst = src.opposite();
    if j == 0 {
        Step::BitReverse { src, dst }
    } else {
        Step::NttStage {
            src,
            dst,
            len: pow2(j as nat) as u32,
            stride: pow2((lg - j) as nat) as u32,
            twiddles,
        }
    }
}

/// The steps of a transform.
pub open spec fn ntt_steps(input: Buf, lg: int, twiddles: Twiddles) -> Seq<Step> {
    Seq::new((lg + 1) as nat, |j: int| ntt_step(input, lg, twiddles, j))
}

/// The buffer that holds a transform.
pub open spec fn ntt_result(input: Buf, lg: int) -> Buf {
    ping_pong(input, lg + 1)
}

/// The steps of the coset transform.
pub open spec fn coset_steps(lg: int) -> Seq<Step> {
    let evals = ntt_result(Buf::A, lg);
    ntt_steps(Buf::A, lg, Twiddles::Inverse) + seq![
        Step::Scale { src: evals, dst: evals.opposite() },
    ] + ntt_steps(evals.opposite(), lg, Twiddles::Forward)
}

/// The buffer that holds the coset evaluations.
pub open spec fn coset_result(lg: int) -> Buf {
    ntt_result(ntt_result(Buf::A, lg).opposite(), lg)
}

/// Bit-reverse `src` into `dst`, then `lg_n` stages ping-ponging from `dst`;
/// returns the buffer holding the transform.
fn ntt(steps: &mut Vec<Step>, input: Buf, n: u32, twiddles: Twiddles) -> (r: Buf)
    requires
        dft::power_of_two(n as nat),
    ensures
        final(steps)@ == old(steps)@ + ntt_steps(input, ntt::lg(n as nat) as int, twiddles),
        r == ntt_result(input, ntt::lg(n as nat) as int),
{
    let ghost before = steps@;
    let ghost lg = ntt::lg(n as nat) as int;
    let mut src = input;
    let mut dst = input.other();
    steps.push(Step::BitReverse { src, dst });
    let mut half: u32 = 1;
    let ghost mut j: int = 0;
    proof {
        lemma2_to64();
        assert(n == pow2(lg as nat));
        assert(steps@ =~= before + Seq::new(1, |j: int| ntt_step(input, lg, twiddles, j)));
        if lg > 0 {
            lemma_pow2_strictly_increases(0, lg as nat);
        }
    }
    while half < n
        invariant
            0 <= j <= lg,
            half == pow2(j as nat),
            n == pow2(lg as nat),
            half <= n,
            src == ping_pong(input, j),
            dst == src.opposite(),
            steps@ == before + Seq::new(
                (j + 1) as nat,
                |j: int| ntt_step(input, lg, twiddles, j),
            ),
        decreases n - half,
    {
        proof {
            if j == lg {
                assert(half == n);
            }
            lemma_pow2_unfold((j + 1) as nat);
            if j + 1 < lg {
                lemma_pow2_strictly_increases((j + 1) as nat, lg as nat);
            }
            lemma_pow2_adds((lg - j - 1) as nat, (j + 1) as nat);
            lemma_pow2_pos((j + 1) as nat);
            lemma_fundamental_div_mod_converse(
                n as int,
                pow2((j + 1) as nat) as int,
                pow2((lg - j - 1) as nat) as int,
                0,
            );
        }
        let len: u32 = half * 2;
        let turn = src;
        src = dst;
        dst = turn;
        steps.push(Step::NttStage { src, dst, len, stride: n / len, twiddles });
        half = len;
        proof {
            j = j + 1;
            assert(steps@ =~= before + Seq::new(
                (j + 1) as nat,
                |j: int| ntt_step(input, lg, twiddles, j),
            ));
        }
    }
    proof {
        if j < lg {
            lemma_pow2_strictly_increases(j as nat, lg as nat);
        }
    }
    dst
}

/// The coset transform's schedule for `n` points (`n` a power of two, `>= 2`),
/// input in [`Buf::A`].
pub fn coset(n: u32) -> (r: Schedule)
    requires
        n >= 2,
        dft::power_of_two(n as nat),
    ensures
        r.steps@ == coset_steps(ntt::lg(n as nat) as int),
        r.result == coset_result(ntt::lg(n as nat) as int),
{
    let mut steps: Vec<Step> = Vec::new();
    let ghost lg = ntt::lg(n as nat) as int;
    let evals = ntt(&mut steps, Buf::A, n, Twiddles::Inverse);
    steps.push(Step::Scale { src: evals, dst: evals.other() });
    let result = ntt(&mut steps, evals.other(), n, Twiddles::Forward);
    proof {
        assert(steps@ =~= coset_steps(lg));
    }
    Schedule { steps, result }
}

/// Every step reads the buffer that the step before it wrote, the first one the input; none
/// reads the buffer it writes; and the result is where the last one wrote.
pub proof fn lemma_schedule_live(lg: int, i: int)
    requires
        lg >= 1,
        0 <= i < coset_steps(lg).len(),
    ensures
        coset_steps(lg).len() == 2 * (lg + 1) + 1,
        coset_steps(lg)[i].reads() == (if i == 0 {
            Buf::A
        } else {
            coset_steps(lg)[i - 1].writes()
        }),
        coset_steps(lg)[i].reads() != coset_steps(lg)[i].writes(),
        coset_result(lg) == coset_steps(lg).last().writes(),
{
}

} // verus!
