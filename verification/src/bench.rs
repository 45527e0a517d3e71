//! The data of the MSM benchmark: distinct multiples of the generator tiled to
//! the points, pseudo-random full-width scalars, digits and the per-window
//! counting sort as the prover does them, and finer partitions of the bucket
//! ranges.

use vstd::arithmetic::div_mod::*;
use vstd::prelude::*;

use crate::arguments::BenchOptions;
use crate::check;
use crate::ec;
use crate::ec::{Affine, Jacobian};
use crate::field;
use crate::field::{Field, Fp};
use crate::generators;
use crate::generators::g1_generator;
use crate::kernels;
use crate::launch::SerialLauncher;
use crate::limbs;
use crate::math::certificates;
use crate::math::group;
use crate::math::ring::{FieldLaws, Ring};
use crate::msm;
use crate::pipeline;
use crate::pipeline::{sort_all_windows, WINDOW_BITS};
use crate::plan;
use crate::plan::push_pieces;
use crate::prover;

verus! {

/// The number drawn with a new state.
pub open spec fn scrambled(s: u64) -> u64 {
    s.wrapping_mul(0x2545_f491_4f6c_dd1d)
}

/// Draw a number: xorshift with a multiplicative output.
pub fn xorshift(state: &mut u64) -> (r: u64)
    ensures
        *final(state) == check::stepped(*old(state)),
        r == scrambled(*final(state)),
{
    check::next(state).wrapping_mul(0x2545_f491_4f6c_dd1d)
}

/// `starts` with every range cut into pieces of at most `chunk` entries.
pub fn chunked(starts: &[u32], chunk: u32) -> (r: Vec<u32>)
    requires
        plan::ranges(starts@),
        chunk > 0,
    ensures
        r@ == plan::pieces_of(starts@, chunk as int),
{
    let n = starts.len() - 1;
    let mut pieces: Vec<u32> = Vec::with_capacity(starts.len());
    let mut r: usize = 0;
    while r < n
        invariant
            r <= n,
            n == starts@.len() - 1,
            plan::ranges(starts@),
            chunk > 0,
            pieces@ == plan::pieces_before(starts@, chunk as int, r as int),
        decreases n - r,
    {
        assert(starts@[r as int] <= starts@[r + 1]);
        push_pieces(&mut pieces, starts[r], starts[r + 1], chunk);
        r = r + 1;
    }
    pieces.push(starts[n]);
    pieces
}

// ---- points ------------------------------------------------------------------------------------

/// The multiple `k + 1` of the generator.
pub open spec fn multiple(k: int) -> Affine<Fp> {
    prover::affine_of(group::times(generators::g1_spec().pt(), (k + 1) as nat))
}

/// The first `count` multiples of the generator.
fn distinct(count: usize) -> (r: Vec<Affine<Fp>>)
    ensures
        r@ == Seq::new(count as nat, |k: int| multiple(k)),
        msm::on_curve(r@, ec::g1_b_spec()),
{
    let g = g1_generator();
    let mut acc = Jacobian::<Fp>::infinity();
    let mut r: Vec<Affine<Fp>> = Vec::new();
    let mut k: usize = 0;
    proof {
        ec::lemma_g1_smooth();
        group::lemma_times_small(g.pt());
    }
    while k < count
        invariant
            k <= count,
            g == generators::g1_spec(),
            g.wf(),
            g.pt().on(ec::g1_b_spec()),
            crate::math::curve::smooth(ec::g1_b_spec()),
            acc.wf(),
            acc.pt() == group::times(g.pt(), k as nat),
            r@.len() == k,
            forall|j: int| 0 <= j < k ==> #[trigger] r@[j] == multiple(j),
            forall|j: int|
                0 <= j < k ==> (#[trigger] r@[j]).wf() && r@[j].pt().on(ec::g1_b_spec()),
        decreases count - k,
    {
        acc = acc.add_affine(&g);
        proof {
            group::lemma_times_on(g.pt(), (k + 1) as nat, ec::g1_b_spec());
        }
        r.push(acc.to_affine());
        k = k + 1;
    }
    proof {
        assert(r@ =~= Seq::new(count as nat, |k: int| multiple(k)));
    }
    r
}

/// The distinct points over and over, `n` points in all.
fn tiled(points: &Vec<Affine<Fp>>, n: usize) -> (r: Vec<Affine<Fp>>)
    requires
        points@.len() > 0,
    ensures
        r@ == Seq::new(n as nat, |i: int| points@[i % (points@.len() as int)]),
{
    let mut r: Vec<Affine<Fp>> = Vec::with_capacity(n);
    let mut i: usize = 0;
    while i < n
        invariant
            i <= n,
            points@.len() > 0,
            r@ =~= Seq::new(i as nat, |i: int| points@[i % (points@.len() as int)]),
        decreases n - i,
    {
        r.push(points[i % points.len()]);
        i = i + 1;
    }
    r
}

// ---- scalars -----------------------------------------------------------------------------------

/// The state after `k` draws.
pub open spec fn state(k: nat) -> u64
    decreases k,
{
    if k == 0 {
        check::SEED
    } else {
        check::stepped(state((k - 1) as nat))
    }
}

/// The `k`-th number drawn.
pub open spec fn drawn(k: int) -> u64 {
    scrambled(state(k as nat))
}

/// Full-width scalars, four numbers each, below `2^253`.
pub open spec fn scalars_of(n: nat) -> Seq<[u64; 4]> {
    Seq::new(
        n,
        |i: int|
            [
                drawn(4 * i + 1),
                drawn(4 * i + 2),
                drawn(4 * i + 3),
                drawn(4 * i + 4) >> 3u64,
            ],
    )
}

/// The scalars are below `2^253`, and so below the scalar modulus.
pub proof fn lemma_scalars_fit(n: nat, i: int)
    requires
        0 <= i < n,
    ensures
        limbs::value(scalars_of(n)[i])
            < 0x2000000000000000000000000000000000000000000000000000000000000000,
        limbs::value(scalars_of(n)[i]) < certificates::r(),
{
    let l = scalars_of(n)[i];
    let d = drawn(4 * i + 4);
    assert(d >> 3u64 < 0x2000_0000_0000_0000u64) by (bit_vector);
    limbs::lemma_value(l);
    field::lemma_fr_modulus();
}

/// Draw the scalars.
fn scalars(n: usize) -> (r: Vec<[u64; 4]>)
    ensures
        r@ == scalars_of(n as nat),
{
    let mut seed: u64 = check::SEED;
    let mut r: Vec<[u64; 4]> = Vec::with_capacity(n);
    let mut i: usize = 0;
    while i < n
        invariant
            i <= n,
            seed == state((4 * i) as nat),
            r@ =~= scalars_of(i as nat),
        decreases n - i,
    {
        let a = xorshift(&mut seed);
        let b = xorshift(&mut seed);
        let c = xorshift(&mut seed);
        let d = xorshift(&mut seed);
        proof {
            let k = 4 * i;
            assert(a == drawn(k + 1));
            assert(b == drawn(k + 2));
            assert(c == drawn(k + 3));
            assert(d == drawn(k + 4));
        }
        r.push([a, b, c, d >> 3u64]);
        i = i + 1;
    }
    r
}

// ---- the layout --------------------------------------------------------------------------------

/// What a launch of the benchmark reads.
pub struct BenchData {
    /// The points.
    pub points: Vec<Affine<Fp>>,
    /// The order of the points in the ranges.
    pub order: Vec<u32>,
    /// Where the ranges begin and end.
    pub starts: Vec<u32>,
}

/// The options describe work that 32-bit indices allow.
pub open spec fn measurable(o: BenchOptions) -> bool {
    &&& 0 < o.points <= u32::MAX
    &&& 0 < o.n
    &&& pipeline::countable(o.n as int)
    &&& o.chunk <= u32::MAX
}

/// What can be measured: some points and some scalars, where the counts and the digits of the
/// scalars in 22 windows are 32-bit numbers.
pub proof fn lemma_measurable(o: BenchOptions)
    ensures
        measurable(o) <==> o.points > 0 && o.n > 0 && o.points < 0x1_0000_0000 && 22 * o.n
            < 0x1_0000_0000 && o.chunk < 0x1_0000_0000,
{
}

/// Whether the options describe work that 32-bit indices allow.
pub fn is_measurable(o: &BenchOptions) -> (r: bool)
    ensures
        r == measurable(*o),
{
    0 < o.points && o.points as u64 <= u32::MAX as u64 && 0 < o.n && o.n as u64 <= u32::MAX as u64
        && pipeline::is_countable(o.n) && o.chunk as u64 <= u32::MAX as u64
}

/// The ranges of a sorted layout, each cut into pieces of at most `chunk` entries where that is
/// not zero.
pub open spec fn cut(starts: Seq<u32>, chunk: int) -> Seq<u32> {
    if chunk == 0 {
        starts
    } else {
        plan::pieces_of(starts, chunk)
    }
}

/// The data is that of the options.
pub open spec fn described(o: BenchOptions, d: BenchData) -> bool {
    &&& d.points@ == Seq::new(
        if o.tiny {
            o.points as nat
        } else {
            o.n as nat
        },
        |i: int| multiple(i % (o.points as int)),
    )
    &&& exists|order: Seq<u32>, starts: Seq<u32>|
        {
            &&& #[trigger] pipeline::windows_sorted(
                pipeline::all_digits_of(scalars_of(o.n as nat), 12, 22),
                o.n as int,
                4095,
                order,
                starts,
            )
            &&& d.starts@ == cut(starts, o.chunk as int)
            &&& d.order@ == if o.tiny {
                order.map_values(|x: u32| (x % (o.points as u32)) as u32)
            } else {
                order
            }
        }
}

impl BenchData {
    /// Every range is one of the order, every index one of the points, and the points are
    /// reduced points of the curve.
    pub open spec fn wf(self) -> bool {
        &&& self.starts@.len() > 0
        &&& forall|b: int|
            0 <= b < self.starts@.len() - 1 ==> #[trigger] kernels::range_fits(
                self.starts@,
                b,
                self.order@.len() as int,
            )
        &&& forall|j: int|
            0 <= j < self.order@.len() ==> #[trigger] self.order@[j] < self.points@.len()
        &&& msm::on_curve(self.points@, ec::g1_b_spec())
    }

    /// The points, the order and the ranges that the options describe.
    pub fn new(o: &BenchOptions) -> (r: Self)
        requires
            measurable(*o),
        ensures
            described(*o, r),
            r.wf(),
    {
        let base = distinct(o.points);
        let ghost multiples = base@;
        let points = if o.tiny {
            base
        } else {
            tiled(&base, o.n)
        };
        proof {
            let want = Seq::new(
                if o.tiny {
                    o.points as nat
                } else {
                    o.n as nat
                },
                |i: int| multiple(i % (o.points as int)),
            );
            assert forall|i: int| 0 <= i < points@.len() implies points@[i] == #[trigger] want[i] by {
                if o.tiny {
                    lemma_small_mod(i as nat, o.points as nat);
                } else {
                    lemma_mod_bound(i, o.points as int);
                }
            }
            assert(points@ =~= want);
        }
        let ks = scalars(o.n);
        let digits = pipeline::all_digits(&SerialLauncher, &ks, WINDOW_BITS, 22);
        proof {
            pipeline::lemma_all_digits_bound(ks@);
        }
        let (sorted, ranges) = sort_all_windows(&digits, o.n, 4095);
        proof {
            pipeline::lemma_sorted_layout(ks@, sorted@, ranges@);
        }
        let ghost kept = sorted@;
        let order = if o.tiny {
            wrapped_indices(&sorted, o.points as u32)
        } else {
            sorted
        };
        let ghost before = ranges@;
        let starts = if o.chunk > 0 {
            chunked(&ranges, o.chunk as u32)
        } else {
            ranges
        };
        proof {
            assert(pipeline::windows_sorted(
                pipeline::all_digits_of(scalars_of(o.n as nat), 12, 22),
                o.n as int,
                4095,
                kept,
                before,
            ));
            if o.chunk > 0 {
                plan::lemma_pieces_ranges(before, o.chunk as int);
            }
            lemma_ranges_fit(starts@, order@.len() as int);
            assert forall|i: int| 0 <= i < points@.len() implies (#[trigger] points@[i]).wf()
                && points@[i].pt().on(ec::g1_b_spec()) by {
                let k = i % (o.points as int);
                lemma_mod_bound(i, o.points as int);
                assert(multiples[k].wf() && multiples[k].pt().on(ec::g1_b_spec()));
                assert(points@[i] == multiple(k));
            }
            if o.tiny {
                assert forall|j: int| 0 <= j < order@.len() implies #[trigger] order@[j]
                    < points@.len() by {
                    assert(order@[j] == kept[j] % (o.points as u32));
                }
            }
        }
        Self { points, order, starts }
    }
}

/// Ranges that end at a length are ranges of a sequence of that length.
proof fn lemma_ranges_fit(starts: Seq<u32>, len: int)
    requires
        plan::ranges(starts),
        starts.len() > 0,
        starts.last() == len,
    ensures
        forall|b: int|
            0 <= b < starts.len() - 1 ==> #[trigger] kernels::range_fits(starts, b, len),
{
    assert forall|b: int| 0 <= b < starts.len() - 1 implies #[trigger] kernels::range_fits(
        starts,
        b,
        len,
    ) by {
        assert(starts[b] <= starts[b + 1]);
        assert(starts[b + 1] <= starts[starts.len() - 1]);
    }
}

/// Indices modulo the number of points.
fn wrapped_indices(order: &Vec<u32>, points: u32) -> (r: Vec<u32>)
    requires
        points > 0,
    ensures
        r@ == order@.map_values(|x: u32| (x % points) as u32),
{
    let n = order.len();
    let mut r: Vec<u32> = Vec::with_capacity(n);
    let mut i: usize = 0;
    while i < n
        invariant
            i <= n,
            n == order@.len(),
            points > 0,
            r@ =~= order@.take(i as int).map_values(|x: u32| (x % points) as u32),
        decreases n - i,
    {
        r.push(order[i] % points);
        i = i + 1;
    }
    proof {
        assert(order@.take(n as int) =~= order@);
    }
    r
}

// ---- the comparison ----------------------------------------------------------------------------

/// How many of the first `n` sums are not those of their ranges.
pub open spec fn wrong(d: BenchData, sums: Seq<Jacobian<Fp>>, n: int) -> nat
    decreases n,
{
    if n <= 0 {
        0
    } else {
        let b = n - 1;
        let want = group::sum(
            kernels::named_points(
                d.points@,
                d.order@,
                d.starts@[b] as int,
                d.starts@[b + 1] as int,
            ),
        );
        wrong(d, sums, b) + if sums[b].pt() == want {
            0nat
        } else {
            1
        }
    }
}

/// The sum of bucket `b` is that of the points that its range names.
pub open spec fn sum_holds(d: BenchData, sums: Seq<Jacobian<Fp>>, b: int) -> bool {
    let range = d.order@.subrange(d.starts@[b] as int, d.starts@[b + 1] as int);
    sums[b].pt() == group::sum(range.map_values(|k: u32| d.points@[k as int].pt()))
}

/// The points that a range names.
proof fn lemma_range_named(d: BenchData, b: int)
    requires
        d.wf(),
        0 <= b < d.starts@.len() - 1,
    ensures
        kernels::named_points(d.points@, d.order@, d.starts@[b] as int, d.starts@[b + 1] as int)
            == d.order@.subrange(d.starts@[b] as int, d.starts@[b + 1] as int).map_values(
            |k: u32| d.points@[k as int].pt(),
        ),
{
    let (from, to) = (d.starts@[b] as int, d.starts@[b + 1] as int);
    assert(kernels::range_fits(d.starts@, b, d.order@.len() as int));
    assert(kernels::named_points(d.points@, d.order@, from, to) =~= d.order@.subrange(
        from,
        to,
    ).map_values(|k: u32| d.points@[k as int].pt()));
}

/// The count is the number of sums that do not hold.
pub proof fn lemma_wrong_counts(d: BenchData, sums: Seq<Jacobian<Fp>>, n: int)
    requires
        d.wf(),
        0 <= n < d.starts@.len(),
        n <= sums.len(),
    ensures
        ({
            let bad = Set::new(|b: int| 0 <= b < n && !sum_holds(d, sums, b));
            &&& bad.finite()
            &&& wrong(d, sums, n) == bad.len()
        }),
    decreases n,
{
    let bad = Set::new(|b: int| 0 <= b < n && !sum_holds(d, sums, b));
    if n == 0 {
        assert(bad =~= Set::empty());
    } else {
        let b = n - 1;
        lemma_wrong_counts(d, sums, b);
        let fewer = Set::new(|c: int| 0 <= c < b && !sum_holds(d, sums, c));
        lemma_range_named(d, b);
        if sum_holds(d, sums, b) {
            assert(bad =~= fewer);
        } else {
            assert(bad =~= fewer.insert(b));
        }
    }
}

/// How many of the first sums (at most `limit`) differ from the kernel body's.
pub fn differing(d: &BenchData, sums: &[Jacobian<Fp>], limit: usize) -> (r: usize)
    requires
        d.wf(),
        sums@.len() == d.starts@.len() - 1,
    ensures
        r <= limit,
        (forall|b: int| 0 <= b < sums@.len() ==> (#[trigger] sums@[b]).wf()) ==> r == wrong(
            *d,
            sums@,
            if limit < sums@.len() {
                limit as int
            } else {
                sums@.len() as int
            },
        ),
{
    let n = if limit < sums.len() {
        limit
    } else {
        sums.len()
    };
    let ghost wf = forall|b: int| 0 <= b < sums@.len() ==> (#[trigger] sums@[b]).wf();
    let mut count: usize = 0;
    let mut b: usize = 0;
    while b < n
        invariant
            b <= n <= sums@.len(),
            n <= limit,
            count <= b,
            d.wf(),
            sums@.len() == d.starts@.len() - 1,
            wf == (forall|b: int| 0 <= b < sums@.len() ==> (#[trigger] sums@[b]).wf()),
            wf ==> count == wrong(*d, sums@, b as int),
        decreases n - b,
    {
        assert(kernels::range_fits(d.starts@, b as int, d.order@.len() as int));
        let want = kernels::bucket_sum(b, &d.points, &d.order, &d.starts);
        let same = sums[b] == want;
        proof {
            if wf {
                assert(sums@[b as int].wf());
                Jacobian::lemma_eq(sums@[b as int], want);
            }
        }
        if !same {
            count = count + 1;
        }
        b = b + 1;
    }
    count
}

} // verus!
