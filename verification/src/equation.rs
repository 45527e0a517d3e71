//! Why a proof verifies. A key from a setup stands for exponents of the two
//! generators; for a witness that satisfies the constraints, the exponents of
//! the proof meet the verification equation
//! `a·b = α·β + (Σ wᵢ·icᵢ)·γ + c·δ` in the scalar field.

use vstd::prelude::*;

use crate::ec;
use crate::ec::Affine;
use crate::field;
use crate::field::{Field, Fr};
use crate::generators;
use crate::math::curve;
use crate::math::curve::Pt;
use crate::math::dft;
use crate::math::group;
use crate::math::identity;
use crate::math::identity::Expr;
use crate::math::poly;
use crate::math::ring;
use crate::math::ring::{FieldLaws, Ring};
use crate::math::sums;
use crate::msm;
use crate::ntt;
use crate::prover;
use crate::prover::Proof;
use crate::zkey::{Coefficient, Zkey};

verus! {

// ---- division by the vanishing polynomial ------------------------------------------------------

/// The polynomial `(A·B − C) / (x^n − 1)`, for the polynomials with the values `a`, `b` and
/// `a∘b` on the domain.
pub open spec fn cofactor(a: Seq<Fr>, b: Seq<Fr>) -> Seq<Fr> {
    poly::product(ntt::interpolated(a), ntt::interpolated(b)).skip(a.len() as int)
}

/// The vanishing polynomial divides `A·B − C`: the cofactor times `x^n − 1` is `A·B − C`,
/// everywhere.
pub proof fn lemma_vanishing_divides(a: Seq<Fr>, b: Seq<Fr>, x: Fr)
    requires
        ntt::domain(a.len()),
        a.len() == b.len(),
        dft::all_wf(a),
        dft::all_wf(b),
        x.wf(),
    ensures
        cofactor(a, b).len() == a.len(),
        dft::all_wf(cofactor(a, b)),
        dft::eval(ntt::interpolated(a), x) * dft::eval(ntt::interpolated(b), x) - dft::eval(
            ntt::interpolated(prover::products(a, b)),
            x,
        ) == (ring::power(x, a.len()) - Fr::one_spec()) * dft::eval(cofactor(a, b), x),
{
    broadcast use {ring::group_wf, ring::lemma_wf_power};

    let n = a.len();
    let (pa, pb) = (ntt::interpolated(a), ntt::interpolated(b));
    let c = prover::products(a, b);
    ntt::lemma_interpolated_wf(a);
    ntt::lemma_interpolated_wf(b);
    prover::lemma_products_wf(a, b);
    let p = poly::product(pa, pb);
    poly::lemma_product_wf(pa, pb);
    let (lo, hi) = (p.take(n as int), p.skip(n as int));
    assert forall|i: int| 0 <= i < n implies (#[trigger] lo[i]).wf() by {
        assert(p[i].wf());
    }
    assert forall|i: int| 0 <= i < n implies (#[trigger] hi[i]).wf() by {
        assert(p[n + i].wf());
    }
    let folded = Seq::new(n, |i: int| lo[i] + hi[i]);
    assert forall|i: int| 0 <= i < n implies (#[trigger] folded[i]).wf() by {
        assert(lo[i].wf() && hi[i].wf());
    }
    // on the domain the folded product takes the values of the product
    ntt::lemma_domain(n);
    let w = ntt::omega(n);
    ntt::lemma_transforms_invert(a);
    ntt::lemma_transforms_invert(b);
    let values = dft::dft(folded, w);
    assert forall|k: int| 0 <= k < n implies #[trigger] values[k] == c[k] by {
        let y = ring::power(w, k as nat);
        poly::lemma_product_eval(pa, pb, y);
        poly::lemma_eval_split(p, n, y);
        poly::lemma_eval_plus(lo, hi, folded, y);
        lemma_domain_power(n, k as nat);
        dft::lemma_eval_wf(hi, y);
        Fr::multiplicative(dft::eval(hi, y), Fr::one_spec(), y);
        Fr::multiplicative(Fr::one_spec(), dft::eval(hi, y), y);
        assert(dft::dft(pa, w)[k] == a[k]);
        assert(dft::dft(pb, w)[k] == b[k]);
    }
    assert(values =~= c);
    ntt::lemma_transforms_invert(folded);
    assert(ntt::interpolated(c) == folded);
    // everywhere
    poly::lemma_product_eval(pa, pb, x);
    poly::lemma_eval_split(p, n, x);
    poly::lemma_eval_plus(lo, hi, folded, x);
    dft::lemma_eval_wf(lo, x);
    dft::lemma_eval_wf(hi, x);
    folding(dft::eval(lo, x), dft::eval(hi, x), ring::power(x, n));
}

/// A polynomial less its folding.
proof fn folding<R: Ring>(lo: R, hi: R, q: R)
    requires
        lo.wf(),
        hi.wf(),
        q.wf(),
    ensures
        (lo + q * hi) - (lo + hi) == (q - R::one_spec()) * hi,
{
    reveal_with_fuel(identity::eval, 8);
    reveal_with_fuel(identity::int_eval, 8);
    ring::lemma_embed_one::<R>();
    let env = seq![lo, hi, q];
    let (lhs, rhs) = {
        let (lo, hi, q) = (Expr::Var(0), Expr::Var(1), Expr::Var(2));
        let one = Expr::Int(1);
        ((lo + q * hi) - (lo + hi), (q - one) * hi)
    };
    assert forall|v: Seq<int>| v.len() == env.len() implies #[trigger] identity::int_eval(lhs, v)
        == identity::int_eval(rhs, v) by {
        let (lo, hi, q) = (v[0], v[1], v[2]);
        assert((lo + q * hi) - (lo + hi) == (q - 1) * hi) by (nonlinear_arith);
    }
    identity::lemma_identity(lhs, rhs, env);
}

/// The points of the domain are roots of `x^n − 1`.
proof fn lemma_domain_power(n: nat, k: nat)
    requires
        ntt::domain(n),
    ensures
        ring::power(ring::power(ntt::omega(n), k), n) == Fr::one_spec(),
{
    let w = ntt::omega(n);
    ntt::lemma_domain(n);
    field::lemma_two_adic_root(ntt::lg(n));
    ring::lemma_power_multiplies(w, k, n);
    ring::lemma_power_multiplies(w, n, k);
    assert(k * n == n * k) by (nonlinear_arith);
    ring::lemma_power_one::<Fr>(k);
}

// ---- Lagrange polynomials ----------------------------------------------------------------------

/// One at `k`, zero elsewhere.
pub open spec fn unit(n: nat, k: int) -> Seq<Fr> {
    Seq::new(n, |i: int| if i == k { Fr::one_spec() } else { Fr::zero_spec() })
}

/// The value at `t` of the polynomial that is one at point `k` of the domain and zero at the
/// others.
pub open spec fn lagrange(n: nat, k: int, t: Fr) -> Fr {
    dft::eval(ntt::interpolated(unit(n, k)), t)
}

/// The coefficients of a Lagrange polynomial.
proof fn lemma_unit_interpolated(n: nat, k: int, i: int)
    requires
        ntt::domain(n),
        0 <= k < n,
        0 <= i < n,
    ensures
        ntt::interpolated(unit(n, k))[i] == ring::power(
            ring::power(ntt::omega(n).inv_spec(), i as nat),
            k as nat,
        ) * Fr::of(n as int).inv_spec(),
        dft::all_wf(unit(n, k)),
{
    broadcast use {ring::group_wf, ring::lemma_wf_power};

    ntt::lemma_domain(n);
    let (one, z) = (Fr::one_spec(), Fr::zero_spec());
    let u = unit(n, k);
    let x = ring::power(ntt::omega(n).inv_spec(), i as nat);
    let f = |j: int| u[j] * ring::power(x, j as nat);
    assert forall|j: int| 0 <= j < n && j != k implies #[trigger] f(j) == z by {
        ring::lemma_mul_zero(ring::power(x, j as nat));
    }
    let p = ring::power(x, k as nat);
    Fr::multiplicative(one, p, p);
    Fr::multiplicative(p, one, p);
    sums::lemma_total_single(n, k, f);
}

/// A polynomial is the sum of its values on the domain times the Lagrange polynomials.
pub proof fn lemma_lagrange(v: Seq<Fr>, t: Fr)
    requires
        ntt::domain(v.len()),
        dft::all_wf(v),
        t.wf(),
    ensures
        sums::total(v.len(), |k: int| v[k] * lagrange(v.len(), k, t)) == dft::eval(
            ntt::interpolated(v),
            t,
        ),
        sums::members(v.len(), |k: int| v[k] * lagrange(v.len(), k, t)),
{
    broadcast use {ring::group_wf, ring::lemma_wf_power};

    let n = v.len();
    ntt::lemma_domain(n);
    let winv = ntt::omega(n).inv_spec();
    let s = Fr::of(n as int).inv_spec();
    let entry = |k: int, i: int|
        (v[k] * ring::power(ring::power(winv, i as nat), k as nat)) * s * ring::power(
            t,
            i as nat,
        );
    assert forall|k: int, i: int| 0 <= k < n && 0 <= i < n implies (#[trigger] entry(k, i)).wf() by {
        assert(v[k].wf());
    }
    sums::lemma_total_swap(n, n, entry);
    // rows: one Lagrange polynomial each
    let rows = |k: int| sums::total(n, |i: int| entry(k, i));
    let parts = |k: int| v[k] * lagrange(n, k, t);
    assert forall|k: int| 0 <= k < n implies #[trigger] rows(k) == parts(k) && parts(k).wf() by {
        assert(v[k].wf());
        let u = ntt::interpolated(unit(n, k));
        let f = |i: int| u[i] * ring::power(t, i as nat);
        let g = |i: int| entry(k, i);
        lemma_unit_interpolated(n, k, 0);
        ntt::lemma_interpolated_wf(unit(n, k));
        assert forall|i: int| 0 <= i < n implies #[trigger] g(i) == v[k] * f(i) && f(i).wf() by {
            lemma_unit_interpolated(n, k, i);
            let (c, p, q) = (
                v[k],
                ring::power(ring::power(winv, i as nat), k as nat),
                ring::power(t, i as nat),
            );
            assert(u[i] == p * s);
            // ((c p) s) q == c ((p s) q)
            Fr::multiplicative(c, p, s);
            Fr::multiplicative(c, p * s, q);
        }
        assert forall|i: int| 0 <= i < n implies (#[trigger] f(i)).wf() by {
            assert(g(i) == v[k] * f(i));
        }
        sums::lemma_total_scale(n, v[k], f, g);
        sums::lemma_total_wf(n, f);
    }
    sums::lemma_total_same(n, rows, parts);
    assert(sums::members(n, parts)) by {
        assert forall|k: int| 0 <= k < n implies (#[trigger] parts(k)).wf() by {
            assert(rows(k) == parts(k));
        }
    }
    // columns: one coefficient each
    let columns = |i: int| sums::total(n, |k: int| entry(k, i));
    let c = ntt::interpolated(v);
    let terms = |i: int| c[i] * ring::power(t, i as nat);
    assert forall|i: int| 0 <= i < n implies #[trigger] columns(i) == terms(i) by {
        let x = ring::power(winv, i as nat);
        let f = |k: int| v[k] * ring::power(x, k as nat);
        let g = |k: int| entry(k, i);
        let q = ring::power(t, i as nat);
        assert forall|k: int| 0 <= k < n implies #[trigger] g(k) == (s * q) * f(k) && f(k).wf() by {
            assert(v[k].wf());
            // (y s) q == (s q) y
            let y = f(k);
            Fr::multiplicative(y, s, q);
            Fr::multiplicative(s * q, y, y);
        }
        assert forall|k: int| 0 <= k < n implies (#[trigger] f(k)).wf() by {
            assert(g(k) == (s * q) * f(k));
        }
        sums::lemma_total_scale(n, s * q, f, g);
        sums::lemma_total_wf(n, f);
        let e = sums::total(n, f);
        Fr::multiplicative(e, s, q);
        Fr::multiplicative(s * q, e, e);
    }
    sums::lemma_total_same(n, columns, terms);
}

/// A polynomial is the sum of its values on the coset `g·H` times the Lagrange polynomials at
/// `t/g`.
pub proof fn lemma_coset_lagrange(h: Seq<Fr>, g: Fr, t: Fr)
    requires
        ntt::domain(h.len()),
        dft::all_wf(h),
        g.wf(),
        g != Fr::zero_spec(),
        t.wf(),
    ensures
        ({
            let n = h.len();
            let value = |k: int| dft::eval(h, g * ring::power(ntt::omega(n), k as nat));
            &&& sums::total(n, |k: int| value(k) * lagrange(n, k, t * g.inv_spec())) == dft::eval(
                h,
                t,
            )
            &&& sums::members(n, |k: int| value(k) * lagrange(n, k, t * g.inv_spec()))
        }),
{
    broadcast use {ring::group_wf, ring::lemma_wf_power};

    let n = h.len();
    ntt::lemma_domain(n);
    Fr::inverse_law(g);
    let w = ntt::omega(n);
    let hg = Seq::new(n, |i: int| h[i] * ring::power(g, i as nat));
    assert forall|i: int| 0 <= i < n implies (#[trigger] hg[i]).wf() by {
        assert(h[i].wf());
    }
    let v = dft::dft(hg, w);
    ntt::lemma_dft_wf(hg, w);
    ntt::lemma_transforms_invert(hg);
    let u = t * g.inv_spec();
    lemma_lagrange(v, u);
    dft::lemma_shifted_eval(h, hg, g, u);
    // g (t / g) == t
    Fr::multiplicative(g, t, g.inv_spec());
    Fr::multiplicative(t, g, g.inv_spec());
    Fr::multiplicative(t, Fr::one_spec(), g);
    assert(g * u == t);
    let value = |k: int| dft::eval(h, g * ring::power(w, k as nat));
    let f = |k: int| v[k] * lagrange(n, k, u);
    let q = |k: int| value(k) * lagrange(n, k, u);
    assert forall|k: int| 0 <= k < n implies #[trigger] f(k) == q(k) by {
        dft::lemma_shifted_eval(h, hg, g, ring::power(w, k as nat));
    }
    sums::lemma_total_same(n, f, q);
    assert forall|k: int| 0 <= k < n implies (#[trigger] q(k)).wf() by {
        assert(f(k) == q(k));
    }
}

// ---- matrices ----------------------------------------------------------------------------------

/// The value at `t` of the polynomial of signal `i` in the A matrix (`first`) or the B matrix:
/// the sum of its coefficients times the Lagrange polynomials of their constraints.
pub open spec fn column(cs: Seq<Coefficient>, first: bool, i: int, n: nat, t: Fr) -> Fr
    decreases cs.len(),
{
    if cs.len() == 0 {
        Fr::zero_spec()
    } else {
        let co = cs.last();
        let rest = column(cs.drop_last(), first, i, n, t);
        if (co.matrix == 0) == first && co.signal == i {
            rest + co.value * lagrange(n, co.constraint as int, t)
        } else {
            rest
        }
    }
}

/// Lagrange polynomials take values in the field.
proof fn lemma_lagrange_wf(n: nat, k: int, t: Fr)
    requires
        ntt::domain(n),
        0 <= k < n,
        t.wf(),
    ensures
        lagrange(n, k, t).wf(),
{
    lemma_unit_interpolated(n, k, 0);
    ntt::lemma_interpolated_wf(unit(n, k));
    dft::lemma_eval_wf(ntt::interpolated(unit(n, k)), t);
}

/// Columns take values in the field.
proof fn lemma_column_wf(cs: Seq<Coefficient>, first: bool, i: int, n: nat, t: Fr, signals: int)
    requires
        ntt::domain(n),
        prover::values_wf(cs),
        prover::in_range(cs, signals, n as int),
        t.wf(),
    ensures
        column(cs, first, i, n, t).wf(),
    decreases cs.len(),
{
    broadcast use ring::group_wf;

    if cs.len() > 0 {
        let co = cs.last();
        assert(cs[cs.len() - 1] == co);
        assert(co.value.wf() && co.constraint < n);
        lemma_front(cs, signals, n as int);
        lemma_column_wf(cs.drop_last(), first, i, n, t, signals);
        lemma_lagrange_wf(n, co.constraint as int, t);
    }
}

/// All coefficients but the last.
proof fn lemma_front(cs: Seq<Coefficient>, signals: int, domain: int)
    requires
        cs.len() > 0,
        prover::values_wf(cs),
        prover::in_range(cs, signals, domain),
    ensures
        prover::values_wf(cs.drop_last()),
        prover::in_range(cs.drop_last(), signals, domain),
{
    let front = cs.drop_last();
    assert forall|i: int| 0 <= i < front.len() implies (#[trigger] front[i]).value.wf()
        && front[i].constraint < domain && front[i].signal < signals by {
        assert(cs[i].value.wf());
    }
}

/// A sum with one term changed.
proof fn lemma_total_change(
    n: nat,
    k: int,
    d: Fr,
    f: spec_fn(int) -> Fr,
    g: spec_fn(int) -> Fr,
)
    requires
        0 <= k < n,
        d.wf(),
        sums::members(n, f),
        g(k) == f(k) + d,
        forall|i: int| 0 <= i < n && i != k ==> #[trigger] g(i) == f(i),
    ensures
        sums::total(n, g) == sums::total(n, f) + d,
{
    broadcast use ring::group_wf;

    let z = Fr::zero_spec();
    let e = |i: int| if i == k { d } else { z };
    assert(sums::members(n, e));
    assert forall|i: int| 0 <= i < n implies #[trigger] g(i) == f(i) + e(i) by {
        assert(f(i).wf());
        Fr::additive(f(i), z, z);
    }
    sums::lemma_total_plus(n, f, e, g);
    sums::lemma_total_single(n, k, e);
}

/// Weighing the columns by the witness is weighing the Lagrange polynomials by the matrix's
/// polynomial.
proof fn lemma_columns(cs: Seq<Coefficient>, first: bool, w: Seq<Fr>, n: nat, t: Fr)
    requires
        ntt::domain(n),
        prover::values_wf(cs),
        prover::in_range(cs, w.len() as int, n as int),
        dft::all_wf(w),
        t.wf(),
    ensures
        sums::total(w.len(), |i: int| w[i] * column(cs, first, i, n, t)) == sums::total(
            n,
            |c: int| prover::scattered(cs, w, first, c) * lagrange(n, c, t),
        ),
    decreases cs.len(),
{
    broadcast use ring::group_wf;

    let z = Fr::zero_spec();
    let f = |i: int| w[i] * column(cs, first, i, n, t);
    let g = |c: int| prover::scattered(cs, w, first, c) * lagrange(n, c, t);
    if cs.len() == 0 {
        assert forall|i: int| 0 <= i < w.len() implies #[trigger] f(i) == z by {
            assert(w[i].wf());
            ring::lemma_mul_zero(w[i]);
        }
        assert forall|c: int| 0 <= c < n implies #[trigger] g(c) == z by {
            lemma_lagrange_wf(n, c, t);
            ring::lemma_mul_zero(lagrange(n, c, t));
        }
        sums::lemma_total_zero(w.len(), f);
        sums::lemma_total_zero(n, g);
    } else {
        let co = cs.last();
        let front = cs.drop_last();
        assert(cs[cs.len() - 1] == co);
        assert(co.value.wf() && co.constraint < n && co.signal < w.len());
        lemma_front(cs, w.len() as int, n as int);
        lemma_columns(front, first, w, n, t);
        let f0 = |i: int| w[i] * column(front, first, i, n, t);
        let g0 = |c: int| prover::scattered(front, w, first, c) * lagrange(n, c, t);
        assert forall|i: int| 0 <= i < w.len() implies (#[trigger] f0(i)).wf() by {
            assert(w[i].wf());
            lemma_column_wf(front, first, i, n, t, w.len() as int);
        }
        assert forall|c: int| 0 <= c < n implies (#[trigger] g0(c)).wf() by {
            prover::lemma_scattered_wf(front, w, first, c, n as int);
            lemma_lagrange_wf(n, c, t);
        }
        if (co.matrix == 0) == first {
            let (s, k) = (co.signal as int, co.constraint as int);
            let l = lagrange(n, k, t);
            lemma_lagrange_wf(n, k, t);
            assert(w[s].wf());
            let d = w[s] * (co.value * l);
            lemma_column_wf(front, first, s, n, t, w.len() as int);
            Fr::multiplicative(w[s], column(front, first, s, n, t), co.value * l);
            lemma_total_change(w.len(), s, d, f0, f);
            prover::lemma_scattered_wf(front, w, first, k, n as int);
            let (p, q) = (prover::scattered(front, w, first, k), w[s] * co.value);
            Fr::multiplicative(l, p, q);
            Fr::multiplicative(p + q, l, l);
            Fr::multiplicative(p, l, l);
            Fr::multiplicative(q, l, l);
            Fr::multiplicative(w[s], co.value, l);
            lemma_total_change(n, k, d, g0, g);
        } else {
            sums::lemma_total_same(w.len(), f0, f);
            sums::lemma_total_same(n, g0, g);
        }
    }
}

/// The sum of the columns, weighed by the witness, is the value of the matrix's polynomial.
proof fn lemma_matrix(cs: Seq<Coefficient>, first: bool, w: Seq<Fr>, n: nat, t: Fr)
    requires
        ntt::domain(n),
        prover::values_wf(cs),
        prover::in_range(cs, w.len() as int, n as int),
        dft::all_wf(w),
        t.wf(),
    ensures
        dft::all_wf(prover::polynomial(cs, w, first, n)),
        sums::total(w.len(), |i: int| w[i] * column(cs, first, i, n, t)) == dft::eval(
            ntt::interpolated(prover::polynomial(cs, w, first, n)),
            t,
        ),
        sums::members(w.len(), |i: int| w[i] * column(cs, first, i, n, t)),
{
    broadcast use ring::group_wf;

    let p = prover::polynomial(cs, w, first, n);
    assert forall|c: int| 0 <= c < n implies (#[trigger] p[c]).wf() by {
        prover::lemma_scattered_wf(cs, w, first, c, n as int);
    }
    lemma_columns(cs, first, w, n, t);
    lemma_lagrange(p, t);
    let g = |c: int| prover::scattered(cs, w, first, c) * lagrange(n, c, t);
    let h = |k: int| p[k] * lagrange(p.len(), k, t);
    assert forall|c: int| 0 <= c < n implies #[trigger] g(c) == h(c) by {}
    sums::lemma_total_same(n, g, h);
    let f = |i: int| w[i] * column(cs, first, i, n, t);
    assert forall|i: int| 0 <= i < w.len() implies (#[trigger] f(i)).wf() by {
        assert(w[i].wf());
        lemma_column_wf(cs, first, i, n, t, w.len() as int);
    }
}

// ---- exponents ---------------------------------------------------------------------------------

/// `q + n·p = m·p`.
pub open spec fn balanced<K: FieldLaws>(q: Pt<K>, p: Pt<K>, m: nat, n: nat) -> bool {
    q.plus(group::times(p, n)) == group::times(p, m)
}

/// `q` is the multiple of `p` by an integer that stands for `v` in the scalar field.
pub open spec fn stands_for<K: FieldLaws>(q: Pt<K>, p: Pt<K>, v: Fr) -> bool {
    exists|m: nat, n: nat|
        #[trigger] balanced(q, p, m, n) && ring::embed::<Fr>(m as int) - ring::embed::<Fr>(
            n as int,
        ) == v
}

/// A field element is the image of its residue.
proof fn lemma_embed_val(x: Fr)
    requires
        x.wf(),
    ensures
        0 <= x.val(),
        ring::embed::<Fr>(x.val()) == x,
{
    Fr::lemma_val(x);
    ntt::lemma_embed(x.val());
}

/// The sum of products of exponents and weights.
spec fn dot(weights: Seq<nat>, exponents: Seq<nat>, n: int) -> nat
    decreases n,
{
    if n <= 0 {
        0
    } else {
        dot(weights, exponents, n - 1) + exponents[n - 1] * weights[n - 1]
    }
}

/// A weighted sum of multiples is a multiple.
proof fn lemma_weighted_dot<K: FieldLaws>(
    points: Seq<Pt<K>>,
    weights: Seq<nat>,
    exponents: Seq<nat>,
    p: Pt<K>,
    n: int,
    b: K,
)
    requires
        curve::smooth(b),
        p.on(b),
        points.len() == weights.len() == exponents.len(),
        forall|i: int|
            0 <= i < points.len() ==> #[trigger] points[i] == group::times(p, exponents[i]),
        0 <= n <= points.len(),
    ensures
        group::weighted(points.take(n), weights) == group::times(
            p,
            dot(weights, exponents, n),
        ),
    decreases n,
{
    if n == 0 {
        group::lemma_times_small(p);
    } else {
        lemma_weighted_dot(points, weights, exponents, p, n - 1, b);
        group::lemma_weighted_step(points, weights, n - 1);
        assert(points[n - 1] == group::times(p, exponents[n - 1]));
        group::lemma_times_multiplies(p, exponents[n - 1], weights[n - 1], b);
        group::lemma_times_adds(
            p,
            dot(weights, exponents, n - 1),
            exponents[n - 1] * weights[n - 1],
            b,
        );
    }
}

/// The image of such a sum.
proof fn lemma_embed_dot(w: Seq<Fr>, u: Seq<Fr>, n: int)
    requires
        dft::all_wf(w),
        dft::all_wf(u),
        w.len() == u.len(),
        0 <= n <= w.len(),
    ensures
        ring::embed::<Fr>(dot(msm::vals(w), msm::vals(u), n) as int) == sums::total(
            n as nat,
            |i: int| w[i] * u[i],
        ),
    decreases n,
{
    if n > 0 {
        lemma_embed_dot(w, u, n - 1);
        let (x, y) = (u[n - 1], w[n - 1]);
        assert(x.wf() && y.wf());
        lemma_embed_val(x);
        lemma_embed_val(y);
        ring::lemma_embed_mul::<Fr>(x.val(), y.val());
        ring::lemma_embed_add::<Fr>(
            dot(msm::vals(w), msm::vals(u), n - 1) as int,
            x.val() * y.val(),
        );
        Fr::multiplicative(x, y, x);
        assert((x.val() as nat) * (y.val() as nat) == x.val() * y.val());
    }
}

/// The multi-scalar sum over multiples of `p`, as a multiple of `p`.
proof fn lemma_sum_exponent<K: FieldLaws>(
    points: Seq<Pt<K>>,
    w: Seq<Fr>,
    u: Seq<Fr>,
    p: Pt<K>,
    b: K,
) -> (e: nat)
    requires
        curve::smooth(b),
        p.on(b),
        points.len() == w.len() == u.len(),
        dft::all_wf(w),
        dft::all_wf(u),
        forall|i: int|
            0 <= i < points.len() ==> #[trigger] points[i] == group::times(p, u[i].val() as nat),
    ensures
        group::weighted(points, msm::vals(w)) == group::times(p, e),
        ring::embed::<Fr>(e as int) == sums::total(w.len(), |i: int| w[i] * u[i]),
{
    let n = points.len() as int;
    let (ks, es) = (msm::vals(w), msm::vals(u));
    lemma_weighted_dot(points, ks, es, p, n, b);
    assert(points.take(n) =~= points);
    lemma_embed_dot(w, u, n);
    dot(ks, es, n)
}

// ---- exponents of the proof --------------------------------------------------------------------

/// `Σ wᵢ·uᵢ`.
pub open spec fn inner(w: Seq<Fr>, u: Seq<Fr>) -> Fr {
    sums::total(w.len(), |i: int| w[i] * u[i])
}

/// Inner products are field elements.
proof fn lemma_inner_wf(w: Seq<Fr>, u: Seq<Fr>)
    requires
        dft::all_wf(w),
        dft::all_wf(u),
        w.len() == u.len(),
    ensures
        sums::members(w.len(), |i: int| w[i] * u[i]),
        inner(w, u).wf(),
{
    broadcast use ring::group_wf;

    let f = |i: int| w[i] * u[i];
    assert forall|i: int| 0 <= i < w.len() implies (#[trigger] f(i)).wf() by {
        assert(w[i].wf() && u[i].wf());
    }
    sums::lemma_total_wf(w.len(), f);
}

/// One term of a weighted sum of combinations.
proof fn weighing<R: Ring>(w: R, u: R, v: R, t: R, a: R, b: R)
    requires
        w.wf(),
        u.wf(),
        v.wf(),
        t.wf(),
        a.wf(),
        b.wf(),
    ensures
        w * ((b * u + a * v) + t) == (b * (w * u) + a * (w * v)) + w * t,
{
    reveal_with_fuel(identity::eval, 8);
    reveal_with_fuel(identity::int_eval, 8);
    ring::lemma_embed_one::<R>();
    let env = seq![w, u, v, t, a, b];
    let (lhs, rhs) = {
        let (w, u, v, t, a, b) = (
            Expr::Var(0),
            Expr::Var(1),
            Expr::Var(2),
            Expr::Var(3),
            Expr::Var(4),
            Expr::Var(5),
        );
        let one = Expr::Int(1);
        (w * ((b * u + a * v) + t), (b * (w * u) + a * (w * v)) + w * t)
    };
    assert forall|v: Seq<int>| v.len() == env.len() implies #[trigger] identity::int_eval(lhs, v)
        == identity::int_eval(rhs, v) by {
        let (w, u, v, t, a, b) = (v[0], v[1], v[2], v[3], v[4], v[5]);
        assert(w * ((b * u + a * v) + t) == (b * (w * u) + a * (w * v)) + w * t) by (nonlinear_arith);
    }
    identity::lemma_identity(lhs, rhs, env);
}

/// A factor taken out of a term.
proof fn moved<R: Ring>(w: R, x: R, k: R)
    requires
        w.wf(),
        x.wf(),
        k.wf(),
    ensures
        w * (x * k) == k * (w * x),
{
    reveal_with_fuel(identity::eval, 8);
    reveal_with_fuel(identity::int_eval, 8);
    ring::lemma_embed_one::<R>();
    let env = seq![w, x, k];
    let (lhs, rhs) = {
        let (w, x, k) = (Expr::Var(0), Expr::Var(1), Expr::Var(2));
        let one = Expr::Int(1);
        (w * (x * k), k * (w * x))
    };
    assert forall|v: Seq<int>| v.len() == env.len() implies #[trigger] identity::int_eval(lhs, v)
        == identity::int_eval(rhs, v) by {
        let (w, x, k) = (v[0], v[1], v[2]);
        assert(w * (x * k) == k * (w * x)) by (nonlinear_arith);
    }
    identity::lemma_identity(lhs, rhs, env);
}

/// Exponents whose multiples by `k` are given combinations.
pub open spec fn scaled_to(x: Seq<Fr>, k: Fr, y: Seq<Fr>) -> bool {
    x.len() == y.len() && forall|i: int| 0 <= i < x.len() ==> #[trigger] x[i] * k == y[i]
}

/// Weighing exponents that are scaled to `y`.
proof fn lemma_inner_scaled(w: Seq<Fr>, x: Seq<Fr>, k: Fr, y: Seq<Fr>)
    requires
        dft::all_wf(w),
        dft::all_wf(x),
        k.wf(),
        w.len() == x.len(),
        scaled_to(x, k, y),
    ensures
        inner(w, y) == inner(w, x) * k,
{
    lemma_inner_wf(w, x);
    let f = |i: int| w[i] * x[i];
    let g = |i: int| w[i] * y[i];
    assert forall|i: int| 0 <= i < w.len() implies #[trigger] g(i) == k * f(i) by {
        assert(w[i].wf() && x[i].wf());
        assert(x[i] * k == y[i]);
        moved(w[i], x[i], k);
    }
    sums::lemma_total_scale(w.len(), k, f, g);
    Fr::multiplicative(k, inner(w, x), k);
}

/// `β·uᵢ + α·vᵢ + tᵢ`.
pub open spec fn combined(u: Seq<Fr>, v: Seq<Fr>, t: Seq<Fr>, alpha: Fr, beta: Fr) -> Seq<Fr> {
    Seq::new(u.len(), |i: int| (beta * u[i] + alpha * v[i]) + t[i])
}

/// Weighing combinations is combining weighted sums, and the sum over all signals is the sum over
/// the public ones and the sum over the others.
proof fn lemma_inner_combined(
    w: Seq<Fr>,
    u: Seq<Fr>,
    v: Seq<Fr>,
    t: Seq<Fr>,
    alpha: Fr,
    beta: Fr,
    l: int,
)
    requires
        w.len() == u.len() == v.len() == t.len(),
        dft::all_wf(w),
        dft::all_wf(u),
        dft::all_wf(v),
        dft::all_wf(t),
        alpha.wf(),
        beta.wf(),
        0 <= l <= w.len(),
    ensures
        inner(w.take(l), combined(u, v, t, alpha, beta).take(l)) + inner(
            w.skip(l),
            combined(u, v, t, alpha, beta).skip(l),
        ) == (beta * inner(w, u) + alpha * inner(w, v)) + inner(w, t),
{
    broadcast use ring::group_wf;

    let n = w.len();
    let y = combined(u, v, t, alpha, beta);
    lemma_inner_wf(w, u);
    lemma_inner_wf(w, v);
    lemma_inner_wf(w, t);
    let fu = |i: int| w[i] * u[i];
    let fv = |i: int| w[i] * v[i];
    let ft = |i: int| w[i] * t[i];
    let gu = |i: int| beta * fu(i);
    let gv = |i: int| alpha * fv(i);
    let guv = |i: int| gu(i) + gv(i);
    let f = |i: int| w[i] * y[i];
    assert forall|i: int| 0 <= i < n implies (#[trigger] gu(i)).wf() && gv(i).wf() && guv(i).wf()
        && f(i) == guv(i) + ft(i) by {
        assert(w[i].wf() && u[i].wf() && v[i].wf() && t[i].wf());
        assert(fu(i).wf() && fv(i).wf());
        weighing(w[i], u[i], v[i], t[i], alpha, beta);
    }
    assert(sums::members(n, gu));
    assert forall|i: int| 0 <= i < n implies (#[trigger] gv(i)).wf() by {
        assert(gu(i).wf());
    }
    assert forall|i: int| 0 <= i < n implies (#[trigger] guv(i)).wf() by {
        assert(gu(i).wf());
    }
    assert forall|i: int| 0 <= i < n implies #[trigger] f(i) == guv(i) + ft(i) && f(i).wf() by {
        assert(gu(i).wf());
        assert(ft(i).wf());
    }
    assert forall|i: int| 0 <= i < n implies (#[trigger] f(i)).wf() by {}
    sums::lemma_total_scale(n, beta, fu, gu);
    sums::lemma_total_scale(n, alpha, fv, gv);
    sums::lemma_total_plus(n, gu, gv, guv);
    sums::lemma_total_plus(n, guv, ft, f);
    let m = (n - l) as nat;
    assert(l as nat + m == n);
    poly::lemma_total_split(l as nat, m, f);
    let head = |i: int| w.take(l)[i] * y.take(l)[i];
    let tail = |i: int| w.skip(l)[i] * y.skip(l)[i];
    sums::lemma_total_same(l as nat, head, f);
    sums::lemma_total_same(m, tail, |i: int| f(l as nat + i));
}

/// The constant of the coset, moved to the query.
proof fn cleared<R: Ring>(d: R, v: R, h: R, k: R)
    requires
        d.wf(),
        v.wf(),
        h.wf(),
        k.wf(),
    ensures
        d * ((k * v) * h) == v * ((h * d) * k),
{
    reveal_with_fuel(identity::eval, 8);
    reveal_with_fuel(identity::int_eval, 8);
    ring::lemma_embed_one::<R>();
    let env = seq![d, v, h, k];
    let (lhs, rhs) = {
        let (d, v, h, k) = (Expr::Var(0), Expr::Var(1), Expr::Var(2), Expr::Var(3));
        let one = Expr::Int(1);
        (d * ((k * v) * h), v * ((h * d) * k))
    };
    assert forall|v: Seq<int>| v.len() == env.len() implies #[trigger] identity::int_eval(lhs, v)
        == identity::int_eval(rhs, v) by {
        let (d, v, h, k) = (v[0], v[1], v[2], v[3]);
        assert(d * ((k * v) * h) == v * ((h * d) * k)) by (nonlinear_arith);
    }
    identity::lemma_identity(lhs, rhs, env);
}

/// A common factor taken out of a term.
proof fn regrouped<R: Ring>(v: R, l: R, z: R)
    requires
        v.wf(),
        l.wf(),
        z.wf(),
    ensures
        v * (l * z) == z * (v * l),
{
    reveal_with_fuel(identity::eval, 8);
    reveal_with_fuel(identity::int_eval, 8);
    ring::lemma_embed_one::<R>();
    let env = seq![v, l, z];
    let (lhs, rhs) = {
        let (v, l, z) = (Expr::Var(0), Expr::Var(1), Expr::Var(2));
        let one = Expr::Int(1);
        (v * (l * z), z * (v * l))
    };
    assert forall|v: Seq<int>| v.len() == env.len() implies #[trigger] identity::int_eval(lhs, v)
        == identity::int_eval(rhs, v) by {
        let (v, l, z) = (v[0], v[1], v[2]);
        assert(v * (l * z) == z * (v * l)) by (nonlinear_arith);
    }
    identity::lemma_identity(lhs, rhs, env);
}

/// What the H query of a key stands for: `h_k·δ` is the value at `τ` of the polynomial that is
/// one at point `k` of the coset and zero at the others and on the domain, the product of
/// `x^n − 1` and a Lagrange polynomial over `−2`.
pub open spec fn divides(h: Seq<Fr>, n: nat, delta: Fr, tau: Fr) -> bool {
    let one = Fr::one_spec();
    let t = tau * prover::coset_shift(n).inv_spec();
    h.len() == n && forall|k: int|
        0 <= k < n ==> (#[trigger] h[k] * delta) * (-one - one) == lagrange(n, k, t) * (
        ring::power(tau, n) - one)
}

/// The quotient's evaluations, weighing the H query, give `(A·B − C)(τ)/δ`.
proof fn lemma_quotient_share(a: Seq<Fr>, b: Seq<Fr>, h: Seq<Fr>, delta: Fr, tau: Fr)
    requires
        prover::provable_domain(a.len()),
        a.len() == b.len(),
        dft::all_wf(a),
        dft::all_wf(b),
        dft::all_wf(h),
        delta.wf(),
        tau.wf(),
        divides(h, a.len(), delta, tau),
    ensures
        dft::all_wf(prover::quotient(a, b, prover::coset_shift(a.len()))),
        inner(prover::quotient(a, b, prover::coset_shift(a.len())), h) * delta == dft::eval(
            ntt::interpolated(a),
            tau,
        ) * dft::eval(ntt::interpolated(b), tau) - dft::eval(
            ntt::interpolated(prover::products(a, b)),
            tau,
        ),
{
    broadcast use {ring::group_wf, ring::lemma_wf_power};

    let n = a.len();
    let one = Fr::one_spec();
    let g = prover::coset_shift(n);
    ntt::lemma_domain(n);
    field::lemma_two_adic_root((ntt::lg(n) + 1) as nat);
    lemma_vanishing_divides(a, b, tau);
    let p = cofactor(a, b);
    lemma_shift_nonzero(n);
    lemma_coset_lagrange(p, g, tau);
    let w = ntt::omega(n);
    let value = |k: int| dft::eval(p, g * ring::power(w, k as nat));
    let t = tau * g.inv_spec();
    let parts = |k: int| value(k) * lagrange(n, k, t);
    let z = ring::power(tau, n) - one;
    let q = prover::quotient(a, b, g);
    prover::lemma_products_wf(a, b);
    assert forall|k: int| 0 <= k < n implies (#[trigger] q[k]) == (-one - one) * value(k)
        && q[k].wf() by {
        let x = g * ring::power(w, k as nat);
        lemma_vanishing_divides(a, b, x);
        prover::lemma_vanishing_constant(n, k as nat);
        dft::lemma_eval_wf(p, x);
    }
    assert(dft::all_wf(q));
    lemma_inner_wf(q, h);
    let f = |k: int| q[k] * h[k];
    let scaled = |k: int| delta * f(k);
    assert forall|k: int| 0 <= k < n implies #[trigger] scaled(k) == z * parts(k) by {
        let v = value(k);
        let l = lagrange(n, k, t);
        lemma_lagrange_wf(n, k, t);
        dft::lemma_eval_wf(p, g * ring::power(w, k as nat));
        assert(h[k].wf());
        assert(q[k] == (-one - one) * v);
        cleared(delta, v, h[k], -one - one);
        assert((h[k] * delta) * (-one - one) == l * z);
        regrouped(v, l, z);
    }
    sums::lemma_total_scale(n, delta, f, scaled);
    sums::lemma_total_scale(n, z, parts, scaled);
    Fr::multiplicative(delta, inner(q, h), delta);
}

/// The shift of the coset is not zero.
proof fn lemma_shift_nonzero(n: nat)
    requires
        prover::provable_domain(n),
    ensures
        prover::coset_shift(n).wf(),
        prover::coset_shift(n) != Fr::zero_spec(),
{
    broadcast use {ring::group_wf, ring::lemma_wf_power};

    let (one, z) = (Fr::one_spec(), Fr::zero_spec());
    let g = prover::coset_shift(n);
    field::lemma_two_adic_root((ntt::lg(n) + 1) as nat);
    prover::lemma_vanishing_constant(n, 0);
    Fr::multiplicative(g, one, one);
    if g == z {
        ntt::lemma_domain(n);
        let m = (n - 1) as nat;
        assert(ring::power(z, n) == z) by {
            ring::lemma_mul_zero(ring::power(z, m));
            Fr::multiplicative(ring::power(z, m), z, z);
        }
        ring::lemma_neg_neg(one);
        Fr::additive(one, z, z);
        assert(false);
    }
}

/// `e·P + x·P + k·(y·P)` as a multiple of `P`.
proof fn lemma_blinded_exponent<K: FieldLaws>(p: Pt<K>, e: nat, x: nat, y: nat, k: nat, b: K)
    requires
        curve::smooth(b),
        p.on(b),
    ensures
        group::times(p, e).plus(group::times(p, x)).plus(group::times(group::times(p, y), k))
            == group::times(p, e + x + y * k),
{
    group::lemma_times_multiplies(p, y, k, b);
    group::lemma_times_adds(p, e, x, b);
    group::lemma_times_adds(p, e + x, y * k, b);
}

/// The image of such an exponent.
proof fn lemma_blinded_value(e: nat, x: Fr, y: Fr, k: Fr)
    requires
        x.wf(),
        y.wf(),
        k.wf(),
    ensures
        ring::embed::<Fr>(
            (e + (x.val() as nat) + (y.val() as nat) * (k.val() as nat)) as int,
        ) == (ring::embed::<Fr>(e as int) + x) + y * k,
{
    lemma_embed_val(x);
    lemma_embed_val(y);
    lemma_embed_val(k);
    assert((y.val() as nat) * (k.val() as nat) == y.val() * k.val());
    ring::lemma_embed_mul::<Fr>(y.val(), k.val());
    ring::lemma_embed_add::<Fr>(e as int, x.val());
    ring::lemma_embed_add::<Fr>(e + x.val(), y.val() * k.val());
}

/// A multiple of `P` stands for the image of its exponent.
proof fn lemma_multiple_stands<K: FieldLaws>(p: Pt<K>, e: nat)
    ensures
        stands_for(group::times(p, e), p, ring::embed::<Fr>(e as int)),
{
    let q = group::times(p, e);
    group::lemma_times_small(p);
    group::lemma_plus_identity(q);
    assert(balanced(q, p, e, 0));
    ring::lemma_embed_wf::<Fr>(e as int);
    let v = ring::embed::<Fr>(e as int);
    let z = Fr::zero_spec();
    assert(ring::embed::<Fr>(0) == z);
    ring::lemma_sub_zero(v, v);
    less_nothing(v);
}

/// Taking away a difference of equals.
proof fn less_nothing<R: Ring>(v: R)
    requires
        v.wf(),
    ensures
        v - (v - v) == v,
{
    reveal_with_fuel(identity::eval, 8);
    reveal_with_fuel(identity::int_eval, 8);
    ring::lemma_embed_one::<R>();
    let env = seq![v];
    let (lhs, rhs) = {
        let (v) = (Expr::Var(0));
        let one = Expr::Int(1);
        (v - (v - v), v)
    };
    assert forall|v: Seq<int>| v.len() == env.len() implies #[trigger] identity::int_eval(lhs, v)
        == identity::int_eval(rhs, v) by {
        let (v) = (v[0]);
        assert(v - (v - v) == v) by (nonlinear_arith);
    }
    identity::lemma_identity(lhs, rhs, env);
}

/// A multiple of `P` less another stands for the difference of the images.
proof fn lemma_difference_stands<K: FieldLaws>(p: Pt<K>, m: nat, n: nat, b: K)
    requires
        curve::smooth(b),
        p.on(b),
    ensures
        stands_for(
            group::times(p, m).plus(group::times(p, n).negated()),
            p,
            ring::embed::<Fr>(m as int) - ring::embed::<Fr>(n as int),
        ),
{
    let (x, d) = (group::times(p, m), group::times(p, n));
    group::lemma_times_on(p, m, b);
    group::lemma_times_on(p, n, b);
    curve::lemma_negated(d, b);
    curve::lemma_plus_associates(x, d.negated(), d, b);
    curve::lemma_plus_negated(d, b);
    group::lemma_plus_identity(x);
    assert(balanced(x.plus(d.negated()), p, m, n));
}

/// `C` as a difference of multiples of `P`.
proof fn lemma_c_exponent<K: FieldLaws>(
    p: Pt<K>,
    c: nat,
    h: nat,
    a: nat,
    s: nat,
    e: nat,
    r: nat,
    b: K,
)
    requires
        curve::smooth(b),
        p.on(b),
    ensures
        group::times(p, c).plus(group::times(p, h)).plus(
            group::times(group::times(p, a), s),
        ).plus(group::times(group::times(p, e), r)) == group::times(p, c + h + a * s + e * r),
{
    lemma_blinded_exponent(p, c, h, a, s, b);
    group::lemma_times_multiplies(p, e, r, b);
    group::lemma_times_adds(p, c + h + a * s, e * r, b);
}

/// The image of the exponent of `C` before the blinding of `δ` is taken off.
proof fn lemma_c_value(c: nat, h: nat, a: nat, s: Fr, e: nat, r: Fr)
    requires
        s.wf(),
        r.wf(),
    ensures
        ring::embed::<Fr>(
            (c + h + a * (s.val() as nat) + e * (r.val() as nat)) as int,
        ) == ((ring::embed::<Fr>(c as int) + ring::embed::<Fr>(h as int)) + ring::embed::<Fr>(
            a as int,
        ) * s) + ring::embed::<Fr>(e as int) * r,
{
    lemma_embed_val(s);
    lemma_embed_val(r);
    assert(a * (s.val() as nat) == (a as int) * s.val());
    assert(e * (r.val() as nat) == (e as int) * r.val());
    ring::lemma_embed_mul::<Fr>(a as int, s.val());
    ring::lemma_embed_mul::<Fr>(e as int, r.val());
    ring::lemma_embed_add::<Fr>(c as int, h as int);
    ring::lemma_embed_add::<Fr>((c + h) as int, a * s.val());
    ring::lemma_embed_add::<Fr>(c + h + a * s.val(), e * r.val());
}

// ---- the verification equation -----------------------------------------------------------------

/// The exponents that a key of a setup stands for.
pub struct Setup {
    /// Where the polynomials are evaluated.
    pub tau: Fr,
    /// The exponent of α.
    pub alpha: Fr,
    /// The exponent of β.
    pub beta: Fr,
    /// The exponent of γ.
    pub gamma: Fr,
    /// The exponent of δ.
    pub delta: Fr,
    /// The exponents of the `IC` points.
    pub ic: Seq<Fr>,
    /// The exponents of the C query.
    pub c: Seq<Fr>,
    /// The exponents of the H query.
    pub h: Seq<Fr>,
}

impl Setup {
    /// All exponents are reduced.
    pub open spec fn wf(self) -> bool {
        &&& self.tau.wf()
        &&& self.alpha.wf()
        &&& self.beta.wf()
        &&& self.gamma.wf()
        &&& self.delta.wf()
        &&& dft::all_wf(self.ic)
        &&& dft::all_wf(self.c)
        &&& dft::all_wf(self.h)
    }
}

/// The columns of a matrix at `t`, one for each of `m` signals.
pub open spec fn columns(
    cs: Seq<Coefficient>,
    first: bool,
    m: nat,
    n: nat,
    t: Fr,
) -> Seq<Fr> {
    Seq::new(m, |i: int| column(cs, first, i, n, t))
}

/// The points are the multiples of `g` by the exponents.
pub open spec fn multiples<F: Field>(points: Seq<Affine<F>>, g: Pt<F>, e: Seq<Fr>) -> bool {
    points.len() == e.len() && forall|i: int|
        0 <= i < points.len() ==> (#[trigger] points[i]).pt() == group::times(g, e[i].val() as nat)
}

/// The key comes from a setup with the given exponents, for the constraints whose A and B
/// matrices are the key's and whose C matrix is `third` (entries of matrix zero).
pub open spec fn set_up(zkey: Zkey, third: Seq<Coefficient>, e: Setup) -> bool {
    let (g1, g2) = (generators::g1_spec().pt(), generators::g2_spec().pt());
    let (m, n, l) = (zkey.num_vars as nat, zkey.domain_size as nat, zkey.num_public + 1);
    let u = columns(zkey.coefficients@, true, m, n, e.tau);
    let v = columns(zkey.coefficients@, false, m, n, e.tau);
    let t = columns(third, true, m, n, e.tau);
    let y = combined(u, v, t, e.alpha, e.beta);
    &&& e.wf()
    &&& zkey.vk.alpha_g1.pt() == group::times(g1, e.alpha.val() as nat)
    &&& zkey.vk.beta_g1.pt() == group::times(g1, e.beta.val() as nat)
    &&& zkey.vk.beta_g2.pt() == group::times(g2, e.beta.val() as nat)
    &&& zkey.vk.gamma_g2.pt() == group::times(g2, e.gamma.val() as nat)
    &&& zkey.vk.delta_g1.pt() == group::times(g1, e.delta.val() as nat)
    &&& zkey.vk.delta_g2.pt() == group::times(g2, e.delta.val() as nat)
    &&& multiples(zkey.a@, g1, u)
    &&& multiples(zkey.b1@, g1, v)
    &&& multiples(zkey.b2@, g2, v)
    &&& multiples(zkey.ic@, g1, e.ic)
    &&& multiples(zkey.c@, g1, e.c)
    &&& multiples(zkey.h@, g1, e.h)
    &&& scaled_to(e.ic, e.gamma, y.take(l))
    &&& scaled_to(e.c, e.delta, y.skip(l))
    &&& divides(e.h, n, e.delta, e.tau)
}

/// The witness satisfies the constraints: on every row, A times B is C.
pub open spec fn satisfied(zkey: Zkey, third: Seq<Coefficient>, witness: Seq<Fr>) -> bool {
    let n = zkey.domain_size as nat;
    prover::products(
        prover::polynomial(zkey.coefficients@, witness, true, n),
        prover::polynomial(zkey.coefficients@, witness, false, n),
    ) == prover::polynomial(third, witness, true, n)
}

/// The exponents `a`, `b`, `c` meet the verification equation
/// `a·b = α·β + (Σ wᵢ·icᵢ)·γ + c·δ` for the public part of the witness.
pub open spec fn balances(e: Setup, public: Seq<Fr>, a: Fr, b: Fr, c: Fr) -> bool {
    a * b == (e.alpha * e.beta + inner(public, e.ic) * e.gamma) + c * e.delta
}

/// The proof stands for exponents that meet the verification equation.
pub open spec fn verifies(e: Setup, public: Seq<Fr>, claim: Proof) -> bool {
    exists|a: Fr, b: Fr, c: Fr|
        #[trigger] balances(e, public, a, b, c) && stands_for(
            claim.a.pt(),
            generators::g1_spec().pt(),
            a,
        ) && stands_for(claim.b.pt(), generators::g2_spec().pt(), b) && stands_for(
            claim.c.pt(),
            generators::g1_spec().pt(),
            c,
        )
}

/// The product by `δ`, spread over the parts of `C`.
proof fn spread<R: Ring>(x: R, y: R, s: R, h: R, z: R, d: R)
    requires
        x.wf(),
        y.wf(),
        s.wf(),
        h.wf(),
        z.wf(),
        d.wf(),
    ensures
        (x + s) + (((y + h) + z) * d) == (x + (s + y * d)) + (h * d + z * d),
{
    reveal_with_fuel(identity::eval, 8);
    reveal_with_fuel(identity::int_eval, 8);
    ring::lemma_embed_one::<R>();
    let env = seq![x, y, s, h, z, d];
    let (lhs, rhs) = {
        let (x, y, s, h, z, d) = (
            Expr::Var(0),
            Expr::Var(1),
            Expr::Var(2),
            Expr::Var(3),
            Expr::Var(4),
            Expr::Var(5),
        );
        let one = Expr::Int(1);
        ((x + s) + (((y + h) + z) * d), (x + (s + y * d)) + (h * d + z * d))
    };
    assert forall|v: Seq<int>| v.len() == env.len() implies #[trigger] identity::int_eval(lhs, v)
        == identity::int_eval(rhs, v) by {
        let (x, y, s, h, z, d) = (v[0], v[1], v[2], v[3], v[4], v[5]);
        assert((x + s) + (((y + h) + z) * d)
            == (x + (s + y * d)) + (h * d + z * d)) by (nonlinear_arith);
    }
    identity::lemma_identity(lhs, rhs, env);
}

/// The product of blinded exponents.
proof fn unfolded<R: Ring>(x: R, y: R, d: R, r: R, s: R)
    requires
        x.wf(),
        y.wf(),
        d.wf(),
        r.wf(),
        s.wf(),
    ensures
        (x + d * r) * (y + d * s) == x * y + (((x + d * r) * s + (y + d * s) * r) - d * (r * s)) * d,
{
    reveal_with_fuel(identity::eval, 8);
    reveal_with_fuel(identity::int_eval, 8);
    ring::lemma_embed_one::<R>();
    let env = seq![x, y, d, r, s];
    let (lhs, rhs) = {
        let (x, y, d, r, s) = (Expr::Var(0), Expr::Var(1), Expr::Var(2), Expr::Var(3), Expr::Var(4));
        let one = Expr::Int(1);
        ((x + d * r) * (y + d * s), x * y + (((x + d * r) * s + (y + d * s) * r) - d * (r * s)) * d)
    };
    assert forall|v: Seq<int>| v.len() == env.len() implies #[trigger] identity::int_eval(lhs, v)
        == identity::int_eval(rhs, v) by {
        let (x, y, d, r, s) = (v[0], v[1], v[2], v[3], v[4]);
        let (p, q) = (d * r, d * s);
        assert((x + p) * (y + q) == x * y + x * q + y * p + p * q) by (nonlinear_arith);
        assert((((x + p) * s + (y + q) * r) - d * (r * s)) * d == ((x + p) * s) * d + ((y + q)
            * r) * d - (d * (r * s)) * d) by (nonlinear_arith);
        assert(((x + p) * s) * d == x * q + p * q) by (nonlinear_arith)
            requires
                q == d * s,
        ;
        assert(((y + q) * r) * d == y * p + p * q) by (nonlinear_arith)
            requires
                p == d * r,
        ;
        assert((d * (r * s)) * d == p * q) by (nonlinear_arith)
            requires
                p == d * r,
                q == d * s,
        ;
    }
    identity::lemma_identity(lhs, rhs, env);
}

/// The product of the exponents of `A` and `B` before they are blinded.
proof fn crossed<R: Ring>(u: R, v: R, t: R, al: R, be: R)
    requires
        u.wf(),
        v.wf(),
        t.wf(),
        al.wf(),
        be.wf(),
    ensures
        (u + al) * (v + be) == (al * be + ((be * u + al * v) + t)) + (u * v - t),
{
    reveal_with_fuel(identity::eval, 8);
    reveal_with_fuel(identity::int_eval, 8);
    ring::lemma_embed_one::<R>();
    let env = seq![u, v, t, al, be];
    let (lhs, rhs) = {
        let (u, v, t, al, be) = (Expr::Var(0), Expr::Var(1), Expr::Var(2), Expr::Var(3), Expr::Var(4));
        let one = Expr::Int(1);
        ((u + al) * (v + be), (al * be + ((be * u + al * v) + t)) + (u * v - t))
    };
    assert forall|v: Seq<int>| v.len() == env.len() implies #[trigger] identity::int_eval(lhs, v)
        == identity::int_eval(rhs, v) by {
        let (u, v, t, al, be) = (v[0], v[1], v[2], v[3], v[4]);
        assert((u + al) * (v + be)
            == (al * be + ((be * u + al * v) + t)) + (u * v - t)) by (nonlinear_arith);
    }
    identity::lemma_identity(lhs, rhs, env);
}

/// The exponent of `C`, its blinding gathered.
proof fn gathered<R: Ring>(c: R, h: R, x: R, y: R, z: R)
    requires
        c.wf(),
        h.wf(),
        x.wf(),
        y.wf(),
        z.wf(),
    ensures
        (((c + h) + x) + y) - z == (c + h) + ((x + y) - z),
{
    reveal_with_fuel(identity::eval, 8);
    reveal_with_fuel(identity::int_eval, 8);
    ring::lemma_embed_one::<R>();
    let env = seq![c, h, x, y, z];
    let (lhs, rhs) = {
        let (c, h, x, y, z) = (Expr::Var(0), Expr::Var(1), Expr::Var(2), Expr::Var(3), Expr::Var(4));
        let one = Expr::Int(1);
        ((((c + h) + x) + y) - z, (c + h) + ((x + y) - z))
    };
    assert forall|v: Seq<int>| v.len() == env.len() implies #[trigger] identity::int_eval(lhs, v)
        == identity::int_eval(rhs, v) by {
        let (c, h, x, y, z) = (v[0], v[1], v[2], v[3], v[4]);
        assert((((c + h) + x) + y) - z == (c + h) + ((x + y) - z)) by (nonlinear_arith);
    }
    identity::lemma_identity(lhs, rhs, env);
}

/// The equation in the exponents of a proof.
proof fn lemma_balances(
    e: Setup,
    public: Seq<Fr>,
    u: Fr,
    v: Fr,
    t: Fr,
    cs: Fr,
    hs: Fr,
    r: Fr,
    s: Fr,
)
    requires
        e.wf(),
        u.wf(),
        v.wf(),
        t.wf(),
        cs.wf(),
        hs.wf(),
        r.wf(),
        s.wf(),
        inner(public, e.ic).wf(),
        inner(public, e.ic) * e.gamma + cs * e.delta == (e.beta * u + e.alpha * v) + t,
        hs * e.delta == u * v - t,
    ensures
        ({
            let a = (u + e.alpha) + e.delta * r;
            let b = (v + e.beta) + e.delta * s;
            balances(e, public, a, b, (((cs + hs) + a * s) + b * r) - e.delta * (r * s))
        }),
{
    broadcast use ring::group_wf;

    let a = (u + e.alpha) + e.delta * r;
    let b = (v + e.beta) + e.delta * s;
    let z = (a * s + b * r) - e.delta * (r * s);
    gathered(cs, hs, a * s, b * r, e.delta * (r * s));
    spread(e.alpha * e.beta, cs, inner(public, e.ic) * e.gamma, hs, z, e.delta);
    unfolded(u + e.alpha, v + e.beta, e.delta, r, s);
    crossed(u, v, t, e.alpha, e.beta);
    Fr::additive(e.alpha * e.beta + ((e.beta * u + e.alpha * v) + t), u * v - t, z * e.delta);
}

/// The columns are field elements, and weigh to the value of the matrix's polynomial.
proof fn lemma_columns_weighed(cs: Seq<Coefficient>, first: bool, w: Seq<Fr>, n: nat, t: Fr)
    requires
        ntt::domain(n),
        prover::values_wf(cs),
        prover::in_range(cs, w.len() as int, n as int),
        dft::all_wf(w),
        t.wf(),
    ensures
        dft::all_wf(columns(cs, first, w.len(), n, t)),
        dft::all_wf(prover::polynomial(cs, w, first, n)),
        inner(w, columns(cs, first, w.len(), n, t)) == dft::eval(
            ntt::interpolated(prover::polynomial(cs, w, first, n)),
            t,
        ),
        inner(w, columns(cs, first, w.len(), n, t)).wf(),
{
    let u = columns(cs, first, w.len(), n, t);
    assert forall|i: int| 0 <= i < u.len() implies (#[trigger] u[i]).wf() by {
        lemma_column_wf(cs, first, i, n, t, w.len() as int);
    }
    lemma_matrix(cs, first, w, n, t);
    sums::lemma_total_same(
        w.len(),
        |i: int| w[i] * u[i],
        |i: int| w[i] * column(cs, first, i, n, t),
    );
    lemma_inner_wf(w, u);
}

/// A multi-scalar sum over points that are multiples of `g`.
proof fn lemma_query<F: Field>(
    points: Seq<Affine<F>>,
    w: Seq<Fr>,
    u: Seq<Fr>,
    g: Pt<F>,
    b: F,
) -> (e: nat)
    requires
        curve::smooth(b),
        g.on(b),
        multiples(points, g, u),
        w.len() == u.len(),
        dft::all_wf(w),
        dft::all_wf(u),
    ensures
        group::weighted(msm::pts(points), msm::vals(w)) == group::times(g, e),
        ring::embed::<Fr>(e as int) == inner(w, u),
{
    let q = msm::pts(points);
    assert forall|i: int| 0 <= i < q.len() implies #[trigger] q[i] == group::times(
        g,
        u[i].val() as nat,
    ) by {
        assert(points[i].pt() == group::times(g, u[i].val() as nat));
    }
    lemma_sum_exponent(q, w, u, g, b)
}

/// A key from a setup proves what the witness satisfies: whatever the blinding scalars, the proof
/// stands for exponents that meet the verification equation.
pub proof fn lemma_proof_verifies(
    zkey: Zkey,
    third: Seq<Coefficient>,
    e: Setup,
    witness: Seq<Fr>,
    r: Fr,
    s: Fr,
)
    requires
        prover::usable(zkey),
        prover::values_wf(zkey.coefficients@),
        prover::values_wf(third),
        prover::in_range(third, zkey.num_vars as int, zkey.domain_size as int),
        set_up(zkey, third, e),
        witness.len() == zkey.num_vars,
        dft::all_wf(witness),
        satisfied(zkey, third, witness),
        r.wf(),
        s.wf(),
    ensures
        verifies(
            e,
            witness.take(zkey.num_public + 1),
            prover::proof_of(zkey, witness, r, s),
        ),
{
    broadcast use ring::group_wf;

    let (g1, g2) = (generators::g1_spec().pt(), generators::g2_spec().pt());
    let (b1, b2) = (ec::g1_b_spec(), ec::g2_b_spec());
    generators::lemma_g1_generator();
    generators::lemma_g2_generator();
    ec::lemma_g1_smooth();
    ec::lemma_g2_smooth();
    let (m, n, l) = (witness.len(), zkey.domain_size as nat, zkey.num_public + 1);
    let cs = zkey.coefficients@;
    let (u, v, t) = (
        columns(cs, true, m, n, e.tau),
        columns(cs, false, m, n, e.tau),
        columns(third, true, m, n, e.tau),
    );
    let y = combined(u, v, t, e.alpha, e.beta);
    lemma_columns_weighed(cs, true, witness, n, e.tau);
    lemma_columns_weighed(cs, false, witness, n, e.tau);
    lemma_columns_weighed(third, true, witness, n, e.tau);
    let (public, private) = (witness.take(l), witness.skip(l));
    assert(private =~= witness.subrange(l, m as int));
    assert forall|i: int| 0 <= i < public.len() implies (#[trigger] public[i]).wf() by {
        assert(witness[i].wf());
    }
    assert forall|i: int| 0 <= i < private.len() implies (#[trigger] private[i]).wf() by {
        assert(witness[l + i].wf());
    }
    // the shares of the public signals, the others and the quotient
    lemma_inner_combined(witness, u, v, t, e.alpha, e.beta, l);
    lemma_inner_scaled(public, e.ic, e.gamma, y.take(l));
    lemma_inner_scaled(private, e.c, e.delta, y.skip(l));
    lemma_inner_wf(public, e.ic);
    lemma_inner_wf(private, e.c);
    let (pa, pb) = (
        prover::polynomial(cs, witness, true, n),
        prover::polynomial(cs, witness, false, n),
    );
    let q = prover::quotient_of(zkey, witness);
    lemma_quotient_share(pa, pb, e.h, e.delta, e.tau);
    lemma_inner_wf(q, e.h);
    let (us, vs, ts) = (inner(witness, u), inner(witness, v), inner(witness, t));
    let (c, h) = (inner(private, e.c), inner(q, e.h));
    lemma_balances(e, public, us, vs, ts, c, h, r, s);
    // the points
    let xa = lemma_query(zkey.a@, witness, u, g1, b1);
    let xb1 = lemma_query(zkey.b1@, witness, v, g1, b1);
    let xb2 = lemma_query(zkey.b2@, witness, v, g2, b2);
    let xh = lemma_query(zkey.h@, q, e.h, g1, b1);
    let xc = lemma_query(zkey.c@, private, e.c, g1, b1);
    lemma_points(zkey, e, xa, xb1, xb2, xh, xc, r, s);
    let a = (us + e.alpha) + e.delta * r;
    let b = (vs + e.beta) + e.delta * s;
    let x = (((c + h) + a * s) + b * r) - e.delta * (r * s);
    assert(balances(e, public, a, b, x));
}

/// The exponents of an assembled proof.
proof fn lemma_points(
    zkey: Zkey,
    e: Setup,
    xa: nat,
    xb1: nat,
    xb2: nat,
    xh: nat,
    xc: nat,
    r: Fr,
    s: Fr,
)
    requires
        e.wf(),
        r.wf(),
        s.wf(),
        zkey.vk.alpha_g1.pt() == group::times(generators::g1_spec().pt(), e.alpha.val() as nat),
        zkey.vk.beta_g1.pt() == group::times(generators::g1_spec().pt(), e.beta.val() as nat),
        zkey.vk.beta_g2.pt() == group::times(generators::g2_spec().pt(), e.beta.val() as nat),
        zkey.vk.delta_g1.pt() == group::times(generators::g1_spec().pt(), e.delta.val() as nat),
        zkey.vk.delta_g2.pt() == group::times(generators::g2_spec().pt(), e.delta.val() as nat),
        ring::embed::<Fr>(xb1 as int) == ring::embed::<Fr>(xb2 as int),
    ensures
        ({
            let (g1, g2) = (generators::g1_spec().pt(), generators::g2_spec().pt());
            let claim = prover::assembled(
                zkey.vk,
                group::times(g1, xh),
                group::times(g1, xa),
                group::times(g1, xb1),
                group::times(g2, xb2),
                group::times(g1, xc),
                r,
                s,
            );
            let a = (ring::embed::<Fr>(xa as int) + e.alpha) + e.delta * r;
            let b = (ring::embed::<Fr>(xb1 as int) + e.beta) + e.delta * s;
            let x = (((ring::embed::<Fr>(xc as int) + ring::embed::<Fr>(xh as int)) + a * s) + b
                * r) - e.delta * (r * s);
            &&& stands_for(claim.a.pt(), g1, a)
            &&& stands_for(claim.b.pt(), g2, b)
            &&& stands_for(claim.c.pt(), g1, x)
        }),
{
    broadcast use ring::group_wf;

    let (g1, g2) = (generators::g1_spec().pt(), generators::g2_spec().pt());
    let (b1, b2) = (ec::g1_b_spec(), ec::g2_b_spec());
    generators::lemma_g1_generator();
    generators::lemma_g2_generator();
    ec::lemma_g1_smooth();
    ec::lemma_g2_smooth();
    let (al, be, de) = (e.alpha.val() as nat, e.beta.val() as nat, e.delta.val() as nat);
    let (rn, sn, rs) = (r.val() as nat, s.val() as nat, (r * s).val() as nat);
    let na = xa + al + de * rn;
    let nb1 = xb1 + be + de * sn;
    let nb2 = xb2 + be + de * sn;
    lemma_blinded_exponent(g1, xa, al, de, rn, b1);
    lemma_blinded_exponent(g1, xb1, be, de, sn, b1);
    lemma_blinded_exponent(g2, xb2, be, de, sn, b2);
    lemma_blinded_value(xa, e.alpha, e.delta, r);
    lemma_blinded_value(xb1, e.beta, e.delta, s);
    lemma_blinded_value(xb2, e.beta, e.delta, s);
    lemma_multiple_stands(g1, na);
    lemma_multiple_stands(g2, nb2);
    lemma_c_exponent(g1, xc, xh, na, sn, nb1, rn, b1);
    lemma_c_value(xc, xh, na, s, nb1, r);
    let nc = xc + xh + na * sn + nb1 * rn;
    group::lemma_times_multiplies(g1, de, rs, b1);
    lemma_difference_stands(g1, nc, de * rs, b1);
    lemma_embed_val(e.delta);
    lemma_embed_val(r * s);
    assert(de * rs == e.delta.val() * (r * s).val());
    ring::lemma_embed_mul::<Fr>(e.delta.val(), (r * s).val());
}

} // verus!
