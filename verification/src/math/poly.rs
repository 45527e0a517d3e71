//! Products of polynomials, given by their coefficients.

use vstd::prelude::*;

use super::dft;
use super::ring;
use super::ring::Ring;
use super::sums;

verus! {

/// The coefficients of a product, with zeros above.
pub open spec fn product<R: Ring>(a: Seq<R>, b: Seq<R>) -> Seq<R>
    decreases a.len(),
{
    if a.len() == 0 {
        Seq::new(b.len(), |k: int| R::zero_spec())
    } else {
        let m = a.len() - 1;
        let rest = product(a.drop_last(), b);
        Seq::new(
            a.len() + b.len(),
            |k: int| low(rest, k) + raised(a[m], b, m, k),
        )
    }
}

/// A coefficient, zero above the last.
pub open spec fn low<R: Ring>(a: Seq<R>, k: int) -> R {
    if k < a.len() {
        a[k]
    } else {
        R::zero_spec()
    }
}

/// Coefficient `k` of `c·x^m·b`.
pub open spec fn raised<R: Ring>(c: R, b: Seq<R>, m: int, k: int) -> R {
    if m <= k < m + b.len() {
        c * b[k - m]
    } else {
        R::zero_spec()
    }
}

/// The coefficients of a product are ring elements.
pub proof fn lemma_product_wf<R: Ring>(a: Seq<R>, b: Seq<R>)
    requires
        dft::all_wf(a),
        dft::all_wf(b),
    ensures
        product(a, b).len() == a.len() + b.len(),
        dft::all_wf(product(a, b)),
    decreases a.len(),
{
    broadcast use ring::group_wf;

    if a.len() > 0 {
        let m = a.len() - 1;
        let front = a.drop_last();
        assert forall|i: int| 0 <= i < front.len() implies (#[trigger] front[i]).wf() by {
            assert(a[i].wf());
        }
        lemma_product_wf(front, b);
        let rest = product(front, b);
        let p = product(a, b);
        assert forall|k: int| 0 <= k < p.len() implies (#[trigger] p[k]).wf() by {
            if k < rest.len() {
                assert(rest[k].wf());
            }
            if m <= k < m + b.len() {
                assert(a[m].wf());
                assert(b[k - m].wf());
            }
        }
    }
}

/// A sum in two parts.
pub proof fn lemma_total_split<R: Ring>(m: nat, n: nat, f: spec_fn(int) -> R)
    requires
        sums::members(m + n, f),
    ensures
        sums::total(m + n, f) == sums::total(m, f) + sums::total(n, |i: int| f(m + i)),
    decreases n,
{
    broadcast use ring::group_wf;

    let g = |i: int| f(m + i);
    sums::lemma_total_wf(m, f);
    let z = R::zero_spec();
    if n == 0 {
        R::additive(sums::total(m, f), z, z);
    } else {
        let k = (n - 1) as nat;
        assert(sums::members((m + k) as nat, f));
        lemma_total_split(m, k, f);
        assert forall|i: int| 0 <= i < k implies (#[trigger] g(i)).wf() by {
            assert(f(m + i).wf());
        }
        sums::lemma_total_wf(k, g);
        assert(f((m + k) as int).wf());
        assert(g(k as int) == f((m + k) as int));
        R::additive(sums::total(m, f), sums::total(k, g), f((m + k) as int));
    }
}

/// The values of a sum of polynomials.
pub proof fn lemma_eval_plus<R: Ring>(a: Seq<R>, b: Seq<R>, c: Seq<R>, x: R)
    requires
        dft::all_wf(a),
        dft::all_wf(b),
        x.wf(),
        a.len() == b.len(),
        c.len() == a.len(),
        forall|i: int| 0 <= i < a.len() ==> #[trigger] c[i] == a[i] + b[i],
    ensures
        dft::eval(c, x) == dft::eval(a, x) + dft::eval(b, x),
{
    broadcast use {ring::group_wf, ring::lemma_wf_power};

    let f = |j: int| a[j] * ring::power(x, j as nat);
    let g = |j: int| b[j] * ring::power(x, j as nat);
    let h = |j: int| c[j] * ring::power(x, j as nat);
    assert forall|j: int| 0 <= j < a.len() implies #[trigger] h(j) == f(j) + g(j) && f(j).wf()
        && g(j).wf() by {
        assert(a[j].wf() && b[j].wf());
        assert(c[j] == a[j] + b[j]);
        let p = ring::power(x, j as nat);
        R::multiplicative(p, a[j], b[j]);
        R::multiplicative(a[j] + b[j], p, p);
        R::multiplicative(a[j], p, p);
        R::multiplicative(b[j], p, p);
    }
    assert forall|j: int| 0 <= j < a.len() implies (#[trigger] f(j)).wf() by {
        assert(h(j) == f(j) + g(j));
    }
    assert forall|j: int| 0 <= j < a.len() implies (#[trigger] g(j)).wf() by {
        assert(h(j) == f(j) + g(j));
    }
    sums::lemma_total_plus(a.len(), f, g, h);
}

/// The value of a polynomial from its low and its high coefficients.
pub proof fn lemma_eval_split<R: Ring>(p: Seq<R>, n: nat, x: R)
    requires
        dft::all_wf(p),
        x.wf(),
        n <= p.len(),
    ensures
        dft::eval(p, x) == dft::eval(p.take(n as int), x) + ring::power(x, n) * dft::eval(
            p.skip(n as int),
            x,
        ),
{
    broadcast use {ring::group_wf, ring::lemma_wf_power};

    let m = (p.len() - n) as nat;
    let f = |j: int| p[j] * ring::power(x, j as nat);
    assert forall|j: int| 0 <= j < p.len() implies (#[trigger] f(j)).wf() by {
        assert(p[j].wf());
    }
    assert(p.len() == n + m);
    lemma_total_split(n, m, f);
    let lo = p.take(n as int);
    let hi = p.skip(n as int);
    let fl = |j: int| lo[j] * ring::power(x, j as nat);
    let fh = |j: int| hi[j] * ring::power(x, j as nat);
    let g = |i: int| f(n + i);
    assert forall|j: int| 0 <= j < n implies #[trigger] f(j) == fl(j) by {}
    sums::lemma_total_same(n, f, fl);
    let xn = ring::power(x, n);
    assert forall|j: int| 0 <= j < m implies #[trigger] g(j) == xn * fh(j) && fh(j).wf() by {
        assert(p[n + j].wf());
        let (c, q) = (p[n + j], ring::power(x, j as nat));
        assert(hi[j] == c);
        ring::lemma_power_adds(x, n, j as nat);
        R::multiplicative(c, xn, q);
        R::multiplicative(xn, c, q);
    }
    assert forall|j: int| 0 <= j < m implies (#[trigger] fh(j)).wf() by {
        assert(g(j) == xn * fh(j));
    }
    sums::lemma_total_scale(m, xn, fh, g);
}

/// The values of `c·x^m·b`.
proof fn lemma_raised_total<R: Ring>(c: R, b: Seq<R>, m: nat, x: R)
    requires
        c.wf(),
        dft::all_wf(b),
        x.wf(),
    ensures
        sums::total(
            m + 1 + b.len(),
            |k: int| raised(c, b, m as int, k) * ring::power(x, k as nat),
        ) == (c * ring::power(x, m)) * dft::eval(b, x),
        sums::members(
            m + 1 + b.len(),
            |k: int| raised(c, b, m as int, k) * ring::power(x, k as nat),
        ),
{
    broadcast use {ring::group_wf, ring::lemma_wf_power};

    let z = R::zero_spec();
    let n = b.len();
    let f = |k: int| raised(c, b, m as int, k) * ring::power(x, k as nat);
    assert forall|k: int| 0 <= k < m + 1 + n implies (#[trigger] f(k)).wf() by {
        if m <= k < m + n {
            assert(b[k - m].wf());
        }
    }
    assert(m + 1 + n == m + (n + 1));
    lemma_total_split(m, n + 1, f);
    assert forall|k: int| 0 <= k < m implies #[trigger] f(k) == z by {
        ring::lemma_mul_zero(ring::power(x, k as nat));
    }
    sums::lemma_total_zero(m, f);
    let g = |i: int| f(m + i);
    let h = |i: int| b[i] * ring::power(x, i as nat);
    let s = c * ring::power(x, m);
    assert forall|i: int| 0 <= i < n implies #[trigger] g(i) == s * h(i) && h(i).wf() by {
        assert(b[i].wf());
        let (p, q) = (ring::power(x, m), ring::power(x, i as nat));
        ring::lemma_power_adds(x, m, i as nat);
        assert(raised(c, b, m as int, m + i) == c * b[i]);
        // (c b)(p q) == (c p)(b q)
        R::multiplicative(c, b[i], p * q);
        R::multiplicative(b[i], p, q);
        R::multiplicative(p, b[i], q);
        R::multiplicative(c, p, b[i] * q);
    }
    assert forall|i: int| 0 <= i < n implies (#[trigger] h(i)).wf() by {
        assert(g(i) == s * h(i));
    }
    sums::lemma_total_scale(n, s, h, g);
    sums::lemma_total_wf(n, h);
    assert(g(n as int) == z) by {
        ring::lemma_mul_zero(ring::power(x, (m + n) as nat));
    }
    let t = s * sums::total(n, h);
    R::additive(t, z, z);
    R::additive(z, t, z);
    assert(sums::total(n + 1, g) == sums::total(n, g) + g(n as int));
}

/// The values of a product are the products of the values.
pub proof fn lemma_product_eval<R: Ring>(a: Seq<R>, b: Seq<R>, x: R)
    requires
        dft::all_wf(a),
        dft::all_wf(b),
        x.wf(),
    ensures
        dft::eval(product(a, b), x) == dft::eval(a, x) * dft::eval(b, x),
    decreases a.len(),
{
    broadcast use {ring::group_wf, ring::lemma_wf_power};

    let z = R::zero_spec();
    let p = product(a, b);
    dft::lemma_eval_wf(b, x);
    let eb = dft::eval(b, x);
    if a.len() == 0 {
        ring::lemma_mul_zero(eb);
        let f = |j: int| p[j] * ring::power(x, j as nat);
        assert forall|j: int| 0 <= j < p.len() implies #[trigger] f(j) == z by {
            ring::lemma_mul_zero(ring::power(x, j as nat));
        }
        sums::lemma_total_zero(p.len(), f);
    } else {
        let m = (a.len() - 1) as nat;
        let front = a.drop_last();
        assert forall|i: int| 0 <= i < front.len() implies (#[trigger] front[i]).wf() by {
            assert(a[i].wf());
        }
        assert(a[m as int].wf());
        lemma_product_wf(front, b);
        lemma_product_eval(front, b, x);
        let rest = product(front, b);
        let n = (m + 1 + b.len()) as nat;
        let f = |k: int| p[k] * ring::power(x, k as nat);
        let f1 = |k: int| low(rest, k) * ring::power(x, k as nat);
        let f2 = |k: int| raised(a[m as int], b, m as int, k) * ring::power(x, k as nat);
        lemma_raised_total(a[m as int], b, m, x);
        assert forall|k: int| 0 <= k < n implies (#[trigger] f1(k)).wf() by {
            if k < rest.len() {
                assert(rest[k].wf());
            }
        }
        assert forall|k: int| 0 <= k < n implies #[trigger] f(k) == f1(k) + f2(k) by {
            let (u, v, q) = (
                low(rest, k),
                raised(a[m as int], b, m as int, k),
                ring::power(x, k as nat),
            );
            if k < rest.len() {
                assert(rest[k].wf());
            }
            if m <= k < m + b.len() {
                assert(b[k - m].wf());
            }
            R::multiplicative(q, u, v);
            R::multiplicative(u + v, q, q);
            R::multiplicative(u, q, q);
            R::multiplicative(v, q, q);
        }
        sums::lemma_total_plus(n, f1, f2, f);
        // the part below: one zero more than the product of the front
        let fr = |k: int| rest[k] * ring::power(x, k as nat);
        sums::lemma_total_same(rest.len(), f1, fr);
        ring::lemma_mul_zero(ring::power(x, rest.len()));
        dft::lemma_eval_wf(rest, x);
        R::additive(dft::eval(rest, x), z, z);
        assert(n == rest.len() + 1);
        assert(sums::total(n, f1) == dft::eval(rest, x));
        // together
        dft::lemma_eval_last(a, x);
        dft::lemma_eval_wf(front, x);
        let (ef, l) = (dft::eval(front, x), a[m as int] * ring::power(x, m));
        R::multiplicative(eb, ef, l);
        R::multiplicative(ef + l, eb, eb);
        R::multiplicative(ef, eb, eb);
        R::multiplicative(l, eb, eb);
    }
}

} // verus!
