//! Multiples and sums of points on a smooth curve, where
//! the chord-and-tangent law is a commutative group.

use vstd::arithmetic::power2::*;
use vstd::prelude::*;

use super::curve;
use super::curve::Pt;
use super::ring::FieldLaws;

verus! {

/// `n·P`, by repeated addition.
pub open spec fn times<K: FieldLaws>(p: Pt<K>, n: nat) -> Pt<K>
    decreases n,
{
    if n == 0 {
        Pt::Infinity
    } else {
        times(p, (n - 1) as nat).plus(p)
    }
}

/// `n·P`, by doubling and adding along the bits of `n`.
pub open spec fn doubled<K: FieldLaws>(p: Pt<K>, n: nat) -> Pt<K>
    decreases n,
{
    if n == 0 {
        Pt::Infinity
    } else {
        let h = doubled(p, n / 2);
        let d = h.plus(h);
        if n % 2 == 1 {
            d.plus(p)
        } else {
            d
        }
    }
}

/// Multiples stay on the curve.
pub proof fn lemma_times_on<K: FieldLaws>(p: Pt<K>, n: nat, b: K)
    requires
        curve::smooth(b),
        p.on(b),
    ensures
        times(p, n).on(b),
    decreases n,
{
    if n > 0 {
        lemma_times_on(p, (n - 1) as nat, b);
        curve::lemma_plus_on(times(p, (n - 1) as nat), p, b);
    }
}

/// `(m + n)·P == m·P + n·P`.
pub proof fn lemma_times_adds<K: FieldLaws>(p: Pt<K>, m: nat, n: nat, b: K)
    requires
        curve::smooth(b),
        p.on(b),
    ensures
        times(p, m + n) == times(p, m).plus(times(p, n)),
    decreases n,
{
    lemma_times_on(p, m, b);
    if n > 0 {
        let k = (n - 1) as nat;
        lemma_times_adds(p, m, k, b);
        lemma_times_on(p, k, b);
        curve::lemma_plus_associates(times(p, m), times(p, k), p, b);
        assert(times(p, m + n) == times(p, m + k).plus(p));
    } else {
        lemma_plus_identity(times(p, m));
    }
}

/// The identity is neutral on both sides.
pub proof fn lemma_plus_identity<K: FieldLaws>(p: Pt<K>)
    ensures
        p.plus(Pt::Infinity) == p,
        Pt::<K>::Infinity.plus(p) == p,
{
}

/// `n·(P + Q) == n·P + n·Q`.
pub proof fn lemma_times_distributes<K: FieldLaws>(p: Pt<K>, q: Pt<K>, n: nat, b: K)
    requires
        curve::smooth(b),
        p.on(b),
        q.on(b),
    ensures
        times(p.plus(q), n) == times(p, n).plus(times(q, n)),
    decreases n,
{
    if n > 0 {
        let k = (n - 1) as nat;
        lemma_times_distributes(p, q, k, b);
        lemma_times_on(p, k, b);
        lemma_times_on(q, k, b);
        lemma_exchange(times(p, k), times(q, k), p, q, b);
    }
}

/// `(a + b) + (c + d) == (a + c) + (b + d)`.
pub proof fn lemma_exchange<K: FieldLaws>(p: Pt<K>, q: Pt<K>, r: Pt<K>, s: Pt<K>, b: K)
    requires
        curve::smooth(b),
        p.on(b),
        q.on(b),
        r.on(b),
        s.on(b),
    ensures
        p.plus(q).plus(r.plus(s)) == p.plus(r).plus(q.plus(s)),
{
    curve::lemma_plus_on(r, s, b);
    curve::lemma_plus_on(q, s, b);
    curve::lemma_plus_associates(p, q, r.plus(s), b);
    curve::lemma_plus_associates(q, r, s, b);
    curve::lemma_plus_commutes(q, r, b);
    curve::lemma_plus_associates(r, q, s, b);
    curve::lemma_plus_associates(p, r, q.plus(s), b);
}

/// `n·(m·P) == (m n)·P`.
pub proof fn lemma_times_multiplies<K: FieldLaws>(p: Pt<K>, m: nat, n: nat, b: K)
    requires
        curve::smooth(b),
        p.on(b),
    ensures
        times(times(p, m), n) == times(p, m * n),
    decreases n,
{
    if n > 0 {
        let k = (n - 1) as nat;
        lemma_times_multiplies(p, m, k, b);
        lemma_times_adds(p, m * k, m, b);
        assert(m * k + m == m * n) by (nonlinear_arith)
            requires
                k == n - 1,
        ;
    } else {
        assert(m * n == 0) by (nonlinear_arith)
            requires
                n == 0,
        ;
    }
}

/// Multiples of the identity.
pub proof fn lemma_times_identity<K: FieldLaws>(n: nat)
    ensures
        times(Pt::<K>::Infinity, n) == Pt::<K>::Infinity,
    decreases n,
{
    if n > 0 {
        lemma_times_identity::<K>((n - 1) as nat);
    }
}

/// Small multiples.
pub proof fn lemma_times_small<K: FieldLaws>(p: Pt<K>)
    ensures
        times(p, 0) == Pt::<K>::Infinity,
        times(p, 1) == p,
        times(p, 2) == p.plus(p),
{
    assert(times(p, 0) == Pt::<K>::Infinity);
    assert(times(p, 1) == times(p, 0).plus(p));
    assert(times(p, 2) == times(p, 1).plus(p));
}

/// Doubling and adding computes multiples.
pub proof fn lemma_doubled<K: FieldLaws>(p: Pt<K>, n: nat, b: K)
    requires
        curve::smooth(b),
        p.on(b),
    ensures
        doubled(p, n) == times(p, n),
    decreases n,
{
    if n > 0 {
        let h = n / 2;
        lemma_doubled(p, h, b);
        lemma_times_adds(p, h, h, b);
        lemma_times_small(p);
        if n % 2 == 1 {
            lemma_times_adds(p, h + h, 1, b);
        }
    }
}

/// The sum of a sequence of points, from the first on.
pub open spec fn sum<K: FieldLaws>(s: Seq<Pt<K>>) -> Pt<K>
    decreases s.len(),
{
    if s.len() == 0 {
        Pt::Infinity
    } else {
        sum(s.drop_last()).plus(s.last())
    }
}

/// Every point of the sequence is on the curve.
pub open spec fn all_on<K: FieldLaws>(s: Seq<Pt<K>>, b: K) -> bool {
    forall|i: int| 0 <= i < s.len() ==> (#[trigger] s[i]).on(b)
}

/// Sums stay on the curve.
pub proof fn lemma_sum_on<K: FieldLaws>(s: Seq<Pt<K>>, b: K)
    requires
        curve::smooth(b),
        all_on(s, b),
    ensures
        sum(s).on(b),
    decreases s.len(),
{
    if s.len() > 0 {
        lemma_sum_on(s.drop_last(), b);
        curve::lemma_plus_on(sum(s.drop_last()), s.last(), b);
    }
}

/// The sum of a concatenation.
pub proof fn lemma_sum_concat<K: FieldLaws>(s: Seq<Pt<K>>, t: Seq<Pt<K>>, b: K)
    requires
        curve::smooth(b),
        all_on(s, b),
        all_on(t, b),
    ensures
        sum(s + t) == sum(s).plus(sum(t)),
    decreases t.len(),
{
    if t.len() > 0 {
        lemma_sum_concat(s, t.drop_last(), b);
        assert((s + t).drop_last() =~= s + t.drop_last());
        lemma_sum_on(s, b);
        lemma_sum_on(t.drop_last(), b);
        curve::lemma_plus_associates(sum(s), sum(t.drop_last()), t.last(), b);
    } else {
        assert(s + t =~= s);
    }
}

/// The sum of termwise sums.
pub proof fn lemma_sum_termwise<K: FieldLaws>(
    s: Seq<Pt<K>>,
    t: Seq<Pt<K>>,
    u: Seq<Pt<K>>,
    b: K,
)
    requires
        curve::smooth(b),
        all_on(s, b),
        all_on(t, b),
        s.len() == t.len() == u.len(),
        forall|i: int| 0 <= i < s.len() ==> #[trigger] u[i] == s[i].plus(t[i]),
    ensures
        sum(u) == sum(s).plus(sum(t)),
    decreases s.len(),
{
    if s.len() > 0 {
        lemma_sum_termwise(s.drop_last(), t.drop_last(), u.drop_last(), b);
        lemma_sum_on(s.drop_last(), b);
        lemma_sum_on(t.drop_last(), b);
        lemma_exchange(sum(s.drop_last()), sum(t.drop_last()), s.last(), t.last(), b);
    }
}

/// The sum of a sequence of equal multiples.
pub proof fn lemma_sum_times<K: FieldLaws>(s: Seq<Pt<K>>, u: Seq<Pt<K>>, n: nat, b: K)
    requires
        curve::smooth(b),
        all_on(s, b),
        s.len() == u.len(),
        forall|i: int| 0 <= i < s.len() ==> #[trigger] u[i] == times(s[i], n),
    ensures
        sum(u) == times(sum(s), n),
    decreases s.len(),
{
    if s.len() > 0 {
        lemma_sum_times(s.drop_last(), u.drop_last(), n, b);
        lemma_sum_on(s.drop_last(), b);
        lemma_times_distributes(sum(s.drop_last()), s.last(), n, b);
    } else {
        lemma_times_identity::<K>(n);
    }
}

/// The sum of a sequence of identities.
pub proof fn lemma_sum_identities<K: FieldLaws>(s: Seq<Pt<K>>)
    requires
        forall|i: int| 0 <= i < s.len() ==> #[trigger] s[i] == Pt::<K>::Infinity,
    ensures
        sum(s) == Pt::<K>::Infinity,
    decreases s.len(),
{
    if s.len() > 0 {
        lemma_sum_identities(s.drop_last());
    }
}

/// Adding to one term adds to the sum.
pub proof fn lemma_sum_update<K: FieldLaws>(s: Seq<Pt<K>>, i: int, p: Pt<K>, b: K)
    requires
        curve::smooth(b),
        all_on(s, b),
        p.on(b),
        0 <= i < s.len(),
    ensures
        sum(s.update(i, s[i].plus(p))) == sum(s).plus(p),
    decreases s.len(),
{
    let u = s.update(i, s[i].plus(p));
    lemma_sum_on(s.drop_last(), b);
    if i == s.len() - 1 {
        assert(u.drop_last() =~= s.drop_last());
        curve::lemma_plus_associates(sum(s.drop_last()), s.last(), p, b);
    } else {
        assert(u.drop_last() =~= s.drop_last().update(i, s.drop_last()[i].plus(p)));
        lemma_sum_update(s.drop_last(), i, p, b);
        curve::lemma_plus_associates(sum(s.drop_last()), p, s.last(), b);
        curve::lemma_plus_commutes(p, s.last(), b);
        curve::lemma_plus_associates(sum(s.drop_last()), s.last(), p, b);
    }
}

/// The multi-scalar sum `Σ n_i·P_i`.
pub open spec fn weighted<K: FieldLaws>(points: Seq<Pt<K>>, weights: Seq<nat>) -> Pt<K> {
    sum(Seq::new(points.len(), |i: int| times(points[i], weights[i])))
}

/// Multi-scalar sums stay on the curve.
pub proof fn lemma_weighted_on<K: FieldLaws>(points: Seq<Pt<K>>, weights: Seq<nat>, b: K)
    requires
        curve::smooth(b),
        all_on(points, b),
        points.len() <= weights.len(),
    ensures
        weighted(points, weights).on(b),
        all_on(Seq::new(points.len(), |i: int| times(points[i], weights[i])), b),
{
    let t = Seq::new(points.len(), |i: int| times(points[i], weights[i]));
    assert forall|i: int| 0 <= i < t.len() implies (#[trigger] t[i]).on(b) by {
        lemma_times_on(points[i], weights[i], b);
    }
    lemma_sum_on(t, b);
}

/// One more term.
pub proof fn lemma_weighted_step<K: FieldLaws>(points: Seq<Pt<K>>, weights: Seq<nat>, n: int)
    requires
        0 <= n < points.len(),
        points.len() <= weights.len(),
    ensures
        weighted(points.take(n + 1), weights) == weighted(points.take(n), weights).plus(
            times(points[n], weights[n]),
        ),
{
    let t = Seq::new((n + 1) as nat, |i: int| times(points.take(n + 1)[i], weights[i]));
    assert(t.drop_last() =~= Seq::new(n as nat, |i: int| times(points.take(n)[i], weights[i])));
}

/// Weights that are combined linearly combine the sums.
pub proof fn lemma_weighted_linear<K: FieldLaws>(
    points: Seq<Pt<K>>,
    high: Seq<nat>,
    low: Seq<nat>,
    weights: Seq<nat>,
    m: nat,
    b: K,
)
    requires
        curve::smooth(b),
        all_on(points, b),
        points.len() == high.len() == low.len() == weights.len(),
        forall|i: int| 0 <= i < points.len() ==> #[trigger] weights[i] == high[i] * m + low[i],
    ensures
        weighted(points, weights) == times(weighted(points, high), m).plus(weighted(points, low)),
{
    let n = points.len();
    let h = Seq::new(n, |i: int| times(points[i], high[i]));
    let l = Seq::new(n, |i: int| times(points[i], low[i]));
    let hm = Seq::new(n, |i: int| times(h[i], m));
    let t = Seq::new(n, |i: int| times(points[i], weights[i]));
    lemma_weighted_on(points, high, b);
    lemma_weighted_on(points, low, b);
    assert forall|i: int| 0 <= i < n implies (#[trigger] hm[i]).on(b) && t[i] == hm[i].plus(
        l[i],
    ) by {
        assert(points[i].on(b));
        assert(h[i].on(b));
        lemma_times_on(h[i], m, b);
        lemma_times_multiplies(points[i], high[i], m, b);
        lemma_times_adds(points[i], high[i] * m, low[i], b);
        assert(weights[i] == high[i] * m + low[i]);
    }
    lemma_sum_times(h, hm, m, b);
    lemma_sum_termwise(hm, l, t, b);
}

/// The weights `1, 2, 3, …` of the buckets of a digit.
pub open spec fn counting(n: nat) -> Seq<nat> {
    Seq::new(n, |i: int| (i + 1) as nat)
}

/// `1·S_0 + 2·S_1 + 3·S_2 + …`.
pub open spec fn counted<K: FieldLaws>(s: Seq<Pt<K>>) -> Pt<K> {
    weighted(s, counting(s.len()))
}

/// Adding a point to the bucket of weight `j + 1` adds `(j + 1)·P`.
pub proof fn lemma_counted_update<K: FieldLaws>(s: Seq<Pt<K>>, j: int, p: Pt<K>, b: K)
    requires
        curve::smooth(b),
        all_on(s, b),
        p.on(b),
        0 <= j < s.len(),
    ensures
        counted(s.update(j, s[j].plus(p))) == counted(s).plus(times(p, (j + 1) as nat)),
        all_on(s.update(j, s[j].plus(p)), b),
{
    let n = s.len();
    let c = counting(n);
    let u = s.update(j, s[j].plus(p));
    let t = Seq::new(n, |i: int| times(s[i], c[i]));
    let v = Seq::new(n, |i: int| times(u[i], c[i]));
    lemma_weighted_on(s, c, b);
    lemma_times_distributes(s[j], p, (j + 1) as nat, b);
    lemma_times_on(p, (j + 1) as nat, b);
    assert(v =~= t.update(j, t[j].plus(times(p, (j + 1) as nat))));
    lemma_sum_update(t, j, times(p, (j + 1) as nat), b);
    curve::lemma_plus_on(s[j], p, b);
}

/// Empty buckets count nothing.
pub proof fn lemma_counted_empty<K: FieldLaws>(s: Seq<Pt<K>>)
    requires
        forall|i: int| 0 <= i < s.len() ==> #[trigger] s[i] == Pt::<K>::Infinity,
    ensures
        counted(s) == Pt::<K>::Infinity,
{
    let c = counting(s.len());
    let t = Seq::new(s.len(), |i: int| times(s[i], c[i]));
    assert forall|i: int| 0 <= i < t.len() implies #[trigger] t[i] == Pt::<K>::Infinity by {
        lemma_times_identity::<K>(c[i]);
    }
    lemma_sum_identities(t);
}

/// The running-sum reduction, one bucket further down: with `u` the buckets above, the sum of
/// the buckets from `y` on is added once more.
pub proof fn lemma_counted_below<K: FieldLaws>(y: Pt<K>, u: Seq<Pt<K>>, b: K)
    requires
        curve::smooth(b),
        y.on(b),
        all_on(u, b),
    ensures
        sum(seq![y] + u) == sum(u).plus(y),
        sum(u).plus(y).on(b),
        counted(seq![y] + u) == counted(u).plus(sum(u).plus(y)),
{
    let v = seq![y] + u;
    let n = u.len();
    let one = seq![y];
    assert(one.drop_last() =~= Seq::empty());
    assert(sum(one) == sum(one.drop_last()).plus(y));
    assert(all_on(one, b));
    lemma_sum_concat(one, u, b);
    lemma_sum_on(u, b);
    curve::lemma_plus_commutes(y, sum(u), b);
    curve::lemma_plus_on(sum(u), y, b);
    // Σ (t+2)·u_t == Σ (t+1)·u_t + Σ u_t
    let c = counting(n);
    let t = Seq::new(n, |i: int| times(u[i], c[i]));
    let shifted = Seq::new(n, |i: int| times(u[i], (i + 2) as nat));
    lemma_weighted_on(u, c, b);
    assert forall|i: int| 0 <= i < n implies #[trigger] shifted[i] == t[i].plus(u[i]) by {
        lemma_times_adds(u[i], (i + 1) as nat, 1, b);
        lemma_times_small(u[i]);
    }
    lemma_sum_termwise(t, u, shifted, b);
    assert(all_on(shifted, b)) by {
        assert forall|i: int| 0 <= i < n implies (#[trigger] shifted[i]).on(b) by {
            lemma_times_on(u[i], (i + 2) as nat, b);
        }
    }
    let d = counting(n + 1);
    let w = Seq::new(n + 1, |i: int| times(v[i], d[i]));
    lemma_times_small(y);
    assert(w =~= one + shifted);
    lemma_sum_concat(one, shifted, b);
    // y + (counted(u) + sum(u)) == counted(u) + (sum(u) + y)
    let (p, q) = (counted(u), sum(u));
    curve::lemma_plus_on(p, q, b);
    curve::lemma_plus_commutes(y, p.plus(q), b);
    curve::lemma_plus_associates(p, q, y, b);
}

/// The weights `1, 2^w, 2^(2w), …` of the windows of a scalar.
pub open spec fn window_weights(n: nat, w: nat) -> Seq<nat> {
    Seq::new(n, |i: int| pow2((i as nat) * w))
}

/// `S_0 + 2^w·S_1 + 2^(2w)·S_2 + …`.
pub open spec fn windowed<K: FieldLaws>(s: Seq<Pt<K>>, w: nat) -> Pt<K> {
    weighted(s, window_weights(s.len(), w))
}

/// Horner's rule, one window further down.
pub proof fn lemma_windowed_below<K: FieldLaws>(y: Pt<K>, u: Seq<Pt<K>>, w: nat, b: K)
    requires
        curve::smooth(b),
        y.on(b),
        all_on(u, b),
    ensures
        windowed(seq![y] + u, w) == times(windowed(u, w), pow2(w)).plus(y),
        windowed(u, w).on(b),
        windowed(seq![y] + u, w).on(b),
{
    let v = seq![y] + u;
    let n = u.len();
    let one = seq![y];
    let c = window_weights(n, w);
    let t = Seq::new(n, |i: int| times(u[i], c[i]));
    let shifted = Seq::new(n, |i: int| times(t[i], pow2(w)));
    lemma_weighted_on(u, c, b);
    lemma_sum_times(t, shifted, pow2(w), b);
    assert(all_on(shifted, b)) by {
        assert forall|i: int| 0 <= i < n implies (#[trigger] shifted[i]).on(b) by {
            assert(t[i].on(b));
            lemma_times_on(t[i], pow2(w), b);
        }
    }
    let d = window_weights(n + 1, w);
    let x = Seq::new(n + 1, |i: int| times(v[i], d[i]));
    lemma_times_small(y);
    lemma2_to64();
    assert forall|i: int| 0 <= i <= n implies #[trigger] x[i] == (one + shifted)[i] by {
        if i == 0 {
            assert((0nat) * w == 0) by (nonlinear_arith);
        } else {
            let j = (i - 1) as nat;
            assert((i as nat) * w == j * w + w) by (nonlinear_arith)
                requires
                    i == j + 1,
            ;
            lemma_pow2_adds(j * w, w);
            assert(u[j as int].on(b));
            lemma_times_multiplies(u[j as int], pow2(j * w), pow2(w), b);
        }
    }
    assert(x =~= one + shifted);
    assert(one.drop_last() =~= Seq::empty());
    assert(sum(one) == sum(one.drop_last()).plus(y));
    assert(all_on(one, b));
    lemma_sum_concat(one, shifted, b);
    lemma_sum_on(shifted, b);
    curve::lemma_plus_commutes(y, sum(shifted), b);
    assert(all_on(v, b));
    lemma_weighted_on(v, d, b);
}

} // verus!
