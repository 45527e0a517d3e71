//! Finite sums in a ring.

use vstd::prelude::*;

use super::identity;
use super::identity::Expr;
use super::ring;
use super::ring::{FieldLaws, Ring};

verus! {

/// `f(0) + f(1) + … + f(n-1)`.
pub open spec fn total<R: Ring>(n: nat, f: spec_fn(int) -> R) -> R
    decreases n,
{
    if n == 0 {
        R::zero_spec()
    } else {
        total((n - 1) as nat, f) + f(n - 1)
    }
}

/// All terms are ring elements.
pub open spec fn members<R: Ring>(n: nat, f: spec_fn(int) -> R) -> bool {
    forall|i: int| 0 <= i < n ==> (#[trigger] f(i)).wf()
}

/// Sums are ring elements.
pub proof fn lemma_total_wf<R: Ring>(n: nat, f: spec_fn(int) -> R)
    requires
        members(n, f),
    ensures
        total(n, f).wf(),
    decreases n,
{
    R::constants_wf();
    if n > 0 {
        lemma_total_wf((n - 1) as nat, f);
        R::closed(total((n - 1) as nat, f), f(n - 1));
    }
}

/// Equal terms give equal sums.
pub proof fn lemma_total_same<R: Ring>(n: nat, f: spec_fn(int) -> R, g: spec_fn(int) -> R)
    requires
        forall|i: int| 0 <= i < n ==> #[trigger] f(i) == g(i),
    ensures
        total(n, f) == total(n, g),
    decreases n,
{
    if n > 0 {
        lemma_total_same((n - 1) as nat, f, g);
        assert(f(n - 1) == g(n - 1));
    }
}

/// The sum of termwise sums.
pub proof fn lemma_total_plus<R: Ring>(
    n: nat,
    f: spec_fn(int) -> R,
    g: spec_fn(int) -> R,
    h: spec_fn(int) -> R,
)
    requires
        members(n, f),
        members(n, g),
        forall|i: int| 0 <= i < n ==> #[trigger] h(i) == f(i) + g(i),
    ensures
        total(n, h) == total(n, f) + total(n, g),
    decreases n,
{
    broadcast use ring::group_wf;

    let z = R::zero_spec();
    R::additive(z, z, z);
    if n > 0 {
        let m = (n - 1) as nat;
        lemma_total_plus(m, f, g, h);
        lemma_total_wf(m, f);
        lemma_total_wf(m, g);
        let (a, b, c, d) = (total(m, f), total(m, g), f(n - 1), g(n - 1));
        assert(h(n - 1) == c + d);
        // (a + b) + (c + d) == (a + c) + (b + d)
        R::additive(a, b, c + d);
        R::additive(b, c, d);
        R::additive(c, b, d);
        R::additive(a, c, b + d);
    }
}

/// A common factor leaves the sum.
pub proof fn lemma_total_scale<R: Ring>(
    n: nat,
    c: R,
    f: spec_fn(int) -> R,
    g: spec_fn(int) -> R,
)
    requires
        c.wf(),
        members(n, f),
        forall|i: int| 0 <= i < n ==> #[trigger] g(i) == c * f(i),
    ensures
        total(n, g) == c * total(n, f),
    decreases n,
{
    broadcast use ring::group_wf;

    ring::lemma_mul_zero(c);
    if n > 0 {
        let m = (n - 1) as nat;
        lemma_total_scale(m, c, f, g);
        lemma_total_wf(m, f);
        assert(g(n - 1) == c * f(n - 1));
        R::multiplicative(c, total(m, f), f(n - 1));
    }
}

/// A sum of zeros.
pub proof fn lemma_total_zero<R: Ring>(n: nat, f: spec_fn(int) -> R)
    requires
        forall|i: int| 0 <= i < n ==> #[trigger] f(i) == R::zero_spec(),
    ensures
        total(n, f) == R::zero_spec(),
    decreases n,
{
    if n > 0 {
        lemma_total_zero((n - 1) as nat, f);
        assert(f(n - 1) == R::zero_spec());
        R::constants_wf();
        R::additive(R::zero_spec(), R::zero_spec(), R::zero_spec());
    }
}

/// A sum with one nonzero term.
pub proof fn lemma_total_single<R: Ring>(n: nat, k: int, f: spec_fn(int) -> R)
    requires
        0 <= k < n,
        f(k).wf(),
        forall|i: int| 0 <= i < n && i != k ==> #[trigger] f(i) == R::zero_spec(),
    ensures
        total(n, f) == f(k),
    decreases n,
{
    R::constants_wf();
    let z = R::zero_spec();
    let m = (n - 1) as nat;
    if k == n - 1 {
        lemma_total_zero(m, f);
        R::additive(z, f(k), z);
        R::additive(f(k), z, z);
    } else {
        lemma_total_single(m, k, f);
        assert(f(n - 1) == z);
        R::additive(f(k), z, z);
    }
}

/// Double sums do not depend on the order.
pub proof fn lemma_total_swap<R: Ring>(m: nat, n: nat, f: spec_fn(int, int) -> R)
    requires
        forall|i: int, j: int| 0 <= i < m && 0 <= j < n ==> (#[trigger] f(i, j)).wf(),
    ensures
        total(m, |i: int| total(n, |j: int| f(i, j))) == total(
            n,
            |j: int| total(m, |i: int| f(i, j)),
        ),
    decreases m,
{
    let rows = |i: int| total(n, |j: int| f(i, j));
    let columns = |j: int| total(m, |i: int| f(i, j));
    if m == 0 {
        lemma_total_zero(n, columns);
    } else {
        let k = (m - 1) as nat;
        lemma_total_swap(k, n, f);
        let shorter = |j: int| total(k, |i: int| f(i, j));
        let last = |j: int| f(m - 1, j);
        assert(members(n, last));
        assert forall|j: int| 0 <= j < n implies (#[trigger] shorter(j)).wf() by {
            lemma_total_wf(k, |i: int| f(i, j));
        }
        assert forall|j: int| 0 <= j < n implies #[trigger] columns(j) == shorter(j) + last(j) by {
            lemma_total_same(k, |i: int| f(i, j), |i: int| f(i, j));
        }
        lemma_total_plus(n, shorter, last, columns);
        assert(rows(m - 1) == total(n, last)) by {
            lemma_total_same(n, |j: int| f(m - 1, j), last);
        }
    }
}

/// `(y - 1)·(1 + y + … + y^(n-1)) == y^n - 1`.
pub proof fn lemma_geometric<R: Ring>(y: R, n: nat)
    requires
        y.wf(),
    ensures
        (y - R::one_spec()) * total(n, |j: int| ring::power(y, j as nat)) == ring::power(y, n)
            - R::one_spec(),
    decreases n,
{
    broadcast use {ring::group_wf, ring::lemma_wf_power};

    let one = R::one_spec();
    let f = |j: int| ring::power(y, j as nat);
    ring::lemma_mul_zero(y - one);
    ring::lemma_sub_zero(one, one);
    if n > 0 {
        let m = (n - 1) as nat;
        lemma_geometric(y, m);
        lemma_total_wf(m, f);
        let p = ring::power(y, m);
        R::multiplicative(y - one, total(m, f), p);
        telescoped(p, y);
        assert(total(n, f) == total(m, f) + p);
    }
}

/// One step of a telescoping sum.
proof fn telescoped<R: Ring>(p: R, y: R)
    requires
        p.wf(),
        y.wf(),
    ensures
        (p - R::one_spec()) + (y - R::one_spec()) * p == p * y - R::one_spec(),
{
    reveal_with_fuel(identity::eval, 8);
    reveal_with_fuel(identity::int_eval, 8);
    ring::lemma_embed_one::<R>();
    let env = seq![p, y];
    let (lhs, rhs) = {
        let (p, y) = (Expr::Var(0), Expr::Var(1));
        let one = Expr::Int(1);
        ((p - one) + (y - one) * p, p * y - one)
    };
    assert forall|v: Seq<int>| v.len() == env.len() implies #[trigger] identity::int_eval(lhs, v)
        == identity::int_eval(rhs, v) by {
        let (p, y) = (v[0], v[1]);
        assert((p - 1) + (y - 1) * p == p * y - 1) by (nonlinear_arith);
    }
    identity::lemma_identity(lhs, rhs, env);
}

/// A sum of ones counts.
pub proof fn lemma_total_ones<R: Ring>(n: nat, f: spec_fn(int) -> R)
    requires
        forall|i: int| 0 <= i < n ==> #[trigger] f(i) == R::one_spec(),
    ensures
        total(n, f) == ring::embed::<R>(n as int),
    decreases n,
{
    if n > 0 {
        lemma_total_ones((n - 1) as nat, f);
        assert(f(n - 1) == R::one_spec());
    }
}

/// The powers of an element of finite order other than one add to zero.
pub proof fn lemma_unity<K: FieldLaws>(y: K, n: nat)
    requires
        y.wf(),
        y != K::one_spec(),
        ring::power(y, n) == K::one_spec(),
    ensures
        total(n, |j: int| ring::power(y, j as nat)) == K::zero_spec(),
{
    broadcast use {ring::group_wf, ring::lemma_wf_power};

    lemma_geometric(y, n);
    ring::lemma_sub_zero(y, K::one_spec());
    ring::lemma_sub_zero(K::one_spec(), K::one_spec());
    let f = |j: int| ring::power(y, j as nat);
    lemma_total_wf(n, f);
    ring::lemma_domain(y - K::one_spec(), total(n, f));
}

} // verus!
