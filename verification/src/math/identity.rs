//! The transfer principle: expressions in ring variables are normalised to
//! nested polynomials with integer coefficients; a polynomial that vanishes at
//! all integers has only zero coefficients, hence vanishes in every ring.

use vstd::arithmetic::mul::*;
use vstd::prelude::*;

use super::ring;
use super::ring::{Ring, Z};

verus! {

/// A ring expression over numbered variables.
pub enum Expr {
    /// The variable with this number.
    Var(nat),
    /// An integer constant.
    Int(int),
    /// A sum.
    Sum(Box<Expr>, Box<Expr>),
    /// A difference.
    Diff(Box<Expr>, Box<Expr>),
    /// A product.
    Prod(Box<Expr>, Box<Expr>),
}

impl Expr {
    /// `a + b`.
    pub open spec fn spec_add(self, other: Expr) -> Expr {
        Expr::Sum(Box::new(self), Box::new(other))
    }

    /// `a - b`.
    pub open spec fn spec_sub(self, other: Expr) -> Expr {
        Expr::Diff(Box::new(self), Box::new(other))
    }

    /// `a * b`.
    pub open spec fn spec_mul(self, other: Expr) -> Expr {
        Expr::Prod(Box::new(self), Box::new(other))
    }
}

/// The value of an expression in a ring.
pub open spec fn eval<R: Ring>(e: Expr, env: Seq<R>) -> R
    decreases e,
{
    match e {
        Expr::Var(i) => if i < env.len() {
            env[i as int]
        } else {
            R::zero_spec()
        },
        Expr::Int(c) => ring::embed::<R>(c),
        Expr::Sum(a, b) => eval(*a, env) + eval(*b, env),
        Expr::Diff(a, b) => eval(*a, env) - eval(*b, env),
        Expr::Prod(a, b) => eval(*a, env) * eval(*b, env),
    }
}

/// The value of an expression over the integers.
pub open spec fn int_eval(e: Expr, env: Seq<int>) -> int
    decreases e,
{
    match e {
        Expr::Var(i) => if i < env.len() {
            env[i as int]
        } else {
            0
        },
        Expr::Int(c) => c,
        Expr::Sum(a, b) => int_eval(*a, env) + int_eval(*b, env),
        Expr::Diff(a, b) => int_eval(*a, env) - int_eval(*b, env),
        Expr::Prod(a, b) => int_eval(*a, env) * int_eval(*b, env),
    }
}

/// All entries are ring members.
pub open spec fn all_wf<R: Ring>(env: Seq<R>) -> bool {
    forall|i: int| 0 <= i < env.len() ==> (#[trigger] env[i]).wf()
}

// ---- nested polynomials -----------------------------------------------------

/// A polynomial in `n` variables: an integer for `n == 0`, otherwise the
/// coefficients (polynomials in `n - 1` variables) of the powers of the last one.
enum Poly {
    Const(int),
    Coeffs(Seq<Poly>),
}

spec fn constant(p: Poly) -> int {
    match p {
        Poly::Const(c) => c,
        Poly::Coeffs(_) => 0,
    }
}

spec fn coeffs(p: Poly) -> Seq<Poly> {
    match p {
        Poly::Const(_) => Seq::empty(),
        Poly::Coeffs(s) => s,
    }
}

spec fn value<R: Ring>(p: Poly, n: nat, env: Seq<R>) -> R
    decreases n, 1nat, 0nat,
{
    if n == 0 {
        ring::embed::<R>(constant(p))
    } else {
        horner(coeffs(p), n, env)
    }
}

spec fn horner<R: Ring>(s: Seq<Poly>, n: nat, env: Seq<R>) -> R
    decreases n, 0nat, s.len(),
{
    if n == 0 || s.len() == 0 {
        R::zero_spec()
    } else {
        value(s[0], (n - 1) as nat, env) + env[n - 1] * horner(s.skip(1), n, env)
    }
}

proof fn lemma_value_wf<R: Ring>(p: Poly, n: nat, env: Seq<R>)
    requires
        n <= env.len(),
        all_wf(env),
    ensures
        value(p, n, env).wf(),
    decreases n, 1nat, 0nat,
{
    if n == 0 {
        ring::lemma_embed_wf::<R>(constant(p));
    } else {
        lemma_horner_wf(coeffs(p), n, env);
    }
}

proof fn lemma_horner_wf<R: Ring>(s: Seq<Poly>, n: nat, env: Seq<R>)
    requires
        n <= env.len(),
        all_wf(env),
    ensures
        horner(s, n, env).wf(),
    decreases n, 0nat, s.len(),
{
    R::constants_wf();
    if n > 0 && s.len() > 0 {
        lemma_value_wf(s[0], (n - 1) as nat, env);
        lemma_horner_wf(s.skip(1), n, env);
        R::closed(env[n - 1], horner(s.skip(1), n, env));
        R::closed(value(s[0], (n - 1) as nat, env), env[n - 1] * horner(s.skip(1), n, env));
    }
}

// sums

spec fn poly_add(p: Poly, q: Poly, n: nat) -> Poly
    decreases n, 1nat, 0nat,
{
    if n == 0 {
        Poly::Const(constant(p) + constant(q))
    } else {
        Poly::Coeffs(coeffs_add(coeffs(p), coeffs(q), n))
    }
}

spec fn coeffs_add(s: Seq<Poly>, t: Seq<Poly>, n: nat) -> Seq<Poly>
    decreases n, 0nat, s.len(),
{
    if n == 0 || s.len() == 0 {
        t
    } else if t.len() == 0 {
        s
    } else {
        seq![poly_add(s[0], t[0], (n - 1) as nat)] + coeffs_add(s.skip(1), t.skip(1), n)
    }
}

proof fn lemma_poly_add<R: Ring>(p: Poly, q: Poly, n: nat, env: Seq<R>)
    requires
        n <= env.len(),
        all_wf(env),
    ensures
        value(poly_add(p, q, n), n, env) == value(p, n, env) + value(q, n, env),
    decreases n, 1nat, 0nat,
{
    if n == 0 {
        ring::lemma_embed_add::<R>(constant(p), constant(q));
    } else {
        lemma_coeffs_add(coeffs(p), coeffs(q), n, env);
    }
}

proof fn lemma_coeffs_add<R: Ring>(s: Seq<Poly>, t: Seq<Poly>, n: nat, env: Seq<R>)
    requires
        0 < n <= env.len(),
        all_wf(env),
    ensures
        horner(coeffs_add(s, t, n), n, env) == horner(s, n, env) + horner(t, n, env),
    decreases n, 0nat, s.len(),
{
    let z = R::zero_spec();
    R::constants_wf();
    lemma_horner_wf(s, n, env);
    lemma_horner_wf(t, n, env);
    R::additive(horner(s, n, env), z, z);
    R::additive(horner(t, n, env), z, z);
    R::additive(z, horner(t, n, env), z);
    if s.len() > 0 && t.len() > 0 {
        let m = (n - 1) as nat;
        let head = poly_add(s[0], t[0], m);
        let tail = coeffs_add(s.skip(1), t.skip(1), n);
        let u = seq![head] + tail;
        assert(u.skip(1) =~= tail);
        assert(u[0] == head);
        lemma_poly_add(s[0], t[0], m, env);
        lemma_coeffs_add(s.skip(1), t.skip(1), n, env);
        let (a, b) = (value(s[0], m, env), value(t[0], m, env));
        let (f, g) = (horner(s.skip(1), n, env), horner(t.skip(1), n, env));
        let x = env[n - 1];
        lemma_value_wf(s[0], m, env);
        lemma_value_wf(t[0], m, env);
        lemma_horner_wf(s.skip(1), n, env);
        lemma_horner_wf(t.skip(1), n, env);
        R::closed(x, f);
        R::closed(x, g);
        R::closed(x * f, x * g);
        R::closed(a, b);
        R::multiplicative(x, f, g);
        // (a + b) + (xf + xg) == (a + xf) + (b + xg)
        R::closed(b, x * g);
        R::additive(a, b, x * f + x * g);
        R::additive(b, x * f, x * g);
        R::additive(x * f, b, x * g);
        R::additive(a, x * f, b + x * g);
    }
}

// products

spec fn poly_mul(p: Poly, q: Poly, n: nat) -> Poly
    decreases n, 2nat, 0nat,
{
    if n == 0 {
        Poly::Const(constant(p) * constant(q))
    } else {
        Poly::Coeffs(coeffs_mul(coeffs(p), coeffs(q), n))
    }
}

spec fn zero_poly(n: nat) -> Poly
    decreases n,
{
    if n == 0 {
        Poly::Const(0)
    } else {
        Poly::Coeffs(Seq::empty())
    }
}

spec fn coeffs_scale(p: Poly, t: Seq<Poly>, n: nat) -> Seq<Poly>
    decreases n, 0nat, t.len(),
{
    if n == 0 || t.len() == 0 {
        Seq::empty()
    } else {
        seq![poly_mul(p, t[0], (n - 1) as nat)] + coeffs_scale(p, t.skip(1), n)
    }
}

spec fn coeffs_mul(s: Seq<Poly>, t: Seq<Poly>, n: nat) -> Seq<Poly>
    decreases n, 1nat, s.len(),
{
    if n == 0 || s.len() == 0 {
        Seq::empty()
    } else {
        coeffs_add(
            coeffs_scale(s[0], t, n),
            seq![zero_poly((n - 1) as nat)] + coeffs_mul(s.skip(1), t, n),
            n,
        )
    }
}

proof fn lemma_zero_poly<R: Ring>(n: nat, env: Seq<R>)
    ensures
        value(zero_poly(n), n, env) == R::zero_spec(),
{
}

proof fn lemma_poly_mul<R: Ring>(p: Poly, q: Poly, n: nat, env: Seq<R>)
    requires
        n <= env.len(),
        all_wf(env),
    ensures
        value(poly_mul(p, q, n), n, env) == value(p, n, env) * value(q, n, env),
    decreases n, 2nat, 0nat,
{
    if n == 0 {
        ring::lemma_embed_mul::<R>(constant(p), constant(q));
    } else {
        lemma_coeffs_mul(coeffs(p), coeffs(q), n, env);
    }
}

proof fn lemma_coeffs_scale<R: Ring>(p: Poly, t: Seq<Poly>, n: nat, env: Seq<R>)
    requires
        0 < n <= env.len(),
        all_wf(env),
    ensures
        horner(coeffs_scale(p, t, n), n, env) == value(p, (n - 1) as nat, env) * horner(t, n, env),
    decreases n, 0nat, t.len(),
{
    let m = (n - 1) as nat;
    let c = value(p, m, env);
    lemma_value_wf(p, m, env);
    ring::lemma_mul_zero(c);
    if t.len() > 0 {
        let head = poly_mul(p, t[0], m);
        let tail = coeffs_scale(p, t.skip(1), n);
        let u = seq![head] + tail;
        assert(u.skip(1) =~= tail);
        assert(u[0] == head);
        lemma_poly_mul(p, t[0], m, env);
        lemma_coeffs_scale(p, t.skip(1), n, env);
        let a = value(t[0], m, env);
        let g = horner(t.skip(1), n, env);
        let x = env[n - 1];
        lemma_value_wf(t[0], m, env);
        lemma_horner_wf(t.skip(1), n, env);
        R::closed(x, g);
        R::multiplicative(c, a, x * g);
        R::multiplicative(c, x, g);
        R::multiplicative(x, c, g);
    }
}

proof fn lemma_coeffs_mul<R: Ring>(s: Seq<Poly>, t: Seq<Poly>, n: nat, env: Seq<R>)
    requires
        0 < n <= env.len(),
        all_wf(env),
    ensures
        horner(coeffs_mul(s, t, n), n, env) == horner(s, n, env) * horner(t, n, env),
    decreases n, 1nat, s.len(),
{
    let z = R::zero_spec();
    let y = horner(t, n, env);
    lemma_horner_wf(t, n, env);
    ring::lemma_mul_zero(y);
    if s.len() > 0 {
        let m = (n - 1) as nat;
        let rest = coeffs_mul(s.skip(1), t, n);
        let u = seq![zero_poly(m)] + rest;
        assert(u.skip(1) =~= rest);
        assert(u[0] == zero_poly(m));
        lemma_zero_poly(m, env);
        lemma_coeffs_mul(s.skip(1), t, n, env);
        lemma_coeffs_scale(s[0], t, n, env);
        lemma_coeffs_add(coeffs_scale(s[0], t, n), u, n, env);
        let a = value(s[0], m, env);
        let f = horner(s.skip(1), n, env);
        let x = env[n - 1];
        lemma_value_wf(s[0], m, env);
        lemma_horner_wf(s.skip(1), n, env);
        R::constants_wf();
        R::closed(x, f);
        R::closed(f, y);
        R::closed(x, f * y);
        R::additive(z, x * (f * y), z);
        R::additive(x * (f * y), z, z);
        R::multiplicative(x, f, y);
        R::closed(a, x * f);
        R::multiplicative(y, a, x * f);
        R::multiplicative(a, y, y);
        R::multiplicative(x * f, y, y);
        R::multiplicative(a + x * f, y, y);
    }
}

// ---- expressions as polynomials -------------------------------------------------

spec fn const_poly(c: int, n: nat) -> Poly
    decreases n,
{
    if n == 0 {
        Poly::Const(c)
    } else {
        Poly::Coeffs(seq![const_poly(c, (n - 1) as nat)])
    }
}

spec fn var_poly(i: nat, n: nat) -> Poly
    decreases n,
{
    if n == 0 {
        Poly::Const(0)
    } else if i == n - 1 {
        Poly::Coeffs(seq![const_poly(0, (n - 1) as nat), const_poly(1, (n - 1) as nat)])
    } else {
        Poly::Coeffs(seq![var_poly(i, (n - 1) as nat)])
    }
}

spec fn to_poly(e: Expr, n: nat) -> Poly
    decreases e,
{
    match e {
        Expr::Var(i) => var_poly(i, n),
        Expr::Int(c) => const_poly(c, n),
        Expr::Sum(a, b) => poly_add(to_poly(*a, n), to_poly(*b, n), n),
        Expr::Diff(a, b) => poly_add(
            to_poly(*a, n),
            poly_mul(const_poly(-1, n), to_poly(*b, n), n),
            n,
        ),
        Expr::Prod(a, b) => poly_mul(to_poly(*a, n), to_poly(*b, n), n),
    }
}

proof fn lemma_singleton<R: Ring>(p: Poly, n: nat, env: Seq<R>)
    requires
        0 < n <= env.len(),
        all_wf(env),
    ensures
        horner(seq![p], n, env) == value(p, (n - 1) as nat, env),
{
    reveal_with_fuel(horner, 2);
    let s = seq![p];
    let v = value(p, (n - 1) as nat, env);
    lemma_value_wf(p, (n - 1) as nat, env);
    assert(s.skip(1).len() == 0);
    ring::lemma_mul_zero(env[n - 1]);
    R::additive(v, v, v);
}

proof fn lemma_const_poly<R: Ring>(c: int, n: nat, env: Seq<R>)
    requires
        n <= env.len(),
        all_wf(env),
    ensures
        value(const_poly(c, n), n, env) == ring::embed::<R>(c),
    decreases n,
{
    if n > 0 {
        lemma_const_poly(c, (n - 1) as nat, env);
        lemma_singleton(const_poly(c, (n - 1) as nat), n, env);
    }
}

proof fn lemma_var_poly<R: Ring>(i: nat, n: nat, env: Seq<R>)
    requires
        n <= env.len(),
        all_wf(env),
    ensures
        value(var_poly(i, n), n, env) == (if i < n {
            env[i as int]
        } else {
            R::zero_spec()
        }),
    decreases n,
{
    if n > 0 {
        let m = (n - 1) as nat;
        if i == m {
            let (a, b) = (const_poly(0, m), const_poly(1, m));
            let s = seq![a, b];
            assert(s.skip(1) =~= seq![b]);
            lemma_singleton(b, n, env);
            lemma_const_poly(0, m, env);
            lemma_const_poly(1, m, env);
            let x = env[n - 1];
            let one = R::one_spec();
            let z = R::zero_spec();
            R::constants_wf();
            assert(ring::embed::<R>(1) == ring::embed::<R>(0) + one);
            R::additive(one, z, z);
            R::additive(z, one, z);
            R::multiplicative(x, one, one);
            R::additive(z, x, z);
            R::additive(x, z, z);
        } else {
            lemma_var_poly(i, m, env);
            lemma_singleton(var_poly(i, m), n, env);
        }
    }
}

proof fn lemma_to_poly<R: Ring>(e: Expr, env: Seq<R>)
    requires
        all_wf(env),
    ensures
        eval(e, env) == value(to_poly(e, env.len()), env.len(), env),
        eval(e, env).wf(),
    decreases e,
{
    let n = env.len();
    lemma_value_wf(to_poly(e, n), n, env);
    match e {
        Expr::Var(i) => lemma_var_poly(i, n, env),
        Expr::Int(c) => lemma_const_poly(c, n, env),
        Expr::Sum(a, b) => {
            lemma_to_poly(*a, env);
            lemma_to_poly(*b, env);
            lemma_poly_add(to_poly(*a, n), to_poly(*b, n), n, env);
        },
        Expr::Diff(a, b) => {
            lemma_to_poly(*a, env);
            lemma_to_poly(*b, env);
            let m = const_poly(-1, n);
            let q = to_poly(*b, n);
            lemma_poly_mul(m, q, n, env);
            lemma_poly_add(to_poly(*a, n), poly_mul(m, q, n), n, env);
            lemma_const_poly(-1, n, env);
            let (x, y) = (eval(*a, env), eval(*b, env));
            let one = R::one_spec();
            let z = R::zero_spec();
            R::constants_wf();
            R::closed(one, one);
            assert(ring::embed::<R>(-1) == ring::embed::<R>(0) - one);
            R::additive(z, one, z);
            R::additive(z, -one, z);
            R::additive(-one, z, z);
            ring::lemma_neg_one(y);
            R::additive(x, y, y);
        },
        Expr::Prod(a, b) => {
            lemma_to_poly(*a, env);
            lemma_to_poly(*b, env);
            lemma_poly_mul(to_poly(*a, n), to_poly(*b, n), n, env);
        },
    }
}

// ---- vanishing polynomials --------------------------------------------------------

/// The value depends only on the variables it mentions.
proof fn lemma_value_local(p: Poly, n: nat, env: Seq<Z>, j: int, t: Z)
    requires
        n <= j < env.len(),
    ensures
        value(p, n, env.update(j, t)) == value(p, n, env),
    decreases n, 1nat, 0nat,
{
    if n > 0 {
        lemma_horner_local(coeffs(p), n, env, j, t);
    }
}

proof fn lemma_horner_local(s: Seq<Poly>, n: nat, env: Seq<Z>, j: int, t: Z)
    requires
        0 < n <= j < env.len(),
    ensures
        horner(s, n, env.update(j, t)) == horner(s, n, env),
    decreases n, 0nat, s.len(),
{
    if s.len() > 0 {
        lemma_value_local(s[0], (n - 1) as nat, env, j, t);
        lemma_horner_local(s.skip(1), n, env, j, t);
    }
}

/// One variable: a polynomial that is zero at every integer has zero coefficients.
proof fn lemma_coeffs_vanish(s: Seq<Poly>, n: nat, env: Seq<Z>, k: int)
    requires
        0 < n <= env.len(),
        0 <= k < s.len(),
        forall|t: int| #[trigger] horner(s, n, env.update(n - 1, Z(t))) == Z(0),
    ensures
        value(s[k], (n - 1) as nat, env) == Z(0),
    decreases s.len(),
{
    let m = (n - 1) as nat;
    let rest = s.skip(1);
    let c = value(s[0], m, env).0;
    assert forall|t: int| c + t * (#[trigger] horner(rest, n, env.update(n - 1, Z(t)))).0 == 0 by {
        lemma_value_local(s[0], m, env, n - 1, Z(t));
        assert(horner(s, n, env.update(n - 1, Z(t))) == Z(0));
    }
    assert(c + 0 * horner(rest, n, env.update(n - 1, Z(0))).0 == 0);
    assert(c == 0);
    if k > 0 {
        assert forall|t: int| #[trigger] horner(rest, n, env.update(n - 1, Z(t))) == Z(0) by {
            let g = horner(rest, n, env.update(n - 1, Z(t))).0;
            assert(c + t * g == 0);
            if t != 0 {
                assert(g == 0) by (nonlinear_arith)
                    requires
                        t * g == 0,
                        t != 0,
                ;
            } else {
                let d = value(rest[0], m, env).0;
                let u = if d >= 0 {
                    d + 1
                } else {
                    1 - d
                };
                let h = horner(rest.skip(1), n, env.update(n - 1, Z(u))).0;
                lemma_value_local(rest[0], m, env, n - 1, Z(u));
                lemma_value_local(rest[0], m, env, n - 1, Z(0));
                assert(c + u * horner(rest, n, env.update(n - 1, Z(u))).0 == 0);
                assert(horner(rest, n, env.update(n - 1, Z(u))).0 == 0) by (nonlinear_arith)
                    requires
                        u * horner(rest, n, env.update(n - 1, Z(u))).0 == 0,
                        u > 0,
                ;
                assert(d + u * h == 0);
                assert(d == 0) by (nonlinear_arith)
                    requires
                        d + u * h == 0,
                        d >= 0 ==> u == d + 1,
                        d < 0 ==> u == 1 - d,
                ;
            }
        }
        lemma_coeffs_vanish(rest, n, env, k - 1);
    }
}

/// Any number of variables: a polynomial that is zero at all integer points is
/// zero at all points of every ring.
proof fn lemma_vanish<R: Ring>(p: Poly, n: nat, env: Seq<R>)
    requires
        n <= env.len(),
        all_wf(env),
        forall|v: Seq<Z>| v.len() == env.len() ==> #[trigger] value(p, n, v) == Z(0),
    ensures
        value(p, n, env) == R::zero_spec(),
    decreases n,
{
    if n == 0 {
        let v = Seq::new(env.len(), |i: int| Z(0));
        assert(value(p, 0, v) == Z(0));
        lemma_embed_int(constant(p));
    } else {
        let s = coeffs(p);
        assert forall|k: int| 0 <= k < s.len() implies #[trigger] value(s[k], (n - 1) as nat, env)
            == R::zero_spec() by {
            assert forall|v: Seq<Z>| v.len() == env.len() implies #[trigger] value(
                s[k],
                (n - 1) as nat,
                v,
            ) == Z(0) by {
                assert forall|t: int| #[trigger] horner(s, n, v.update(n - 1, Z(t))) == Z(0) by {
                    assert(value(p, n, v.update(n - 1, Z(t))) == Z(0));
                }
                lemma_coeffs_vanish(s, n, v, k);
            }
            lemma_vanish(s[k], (n - 1) as nat, env);
        }
        lemma_horner_zero(s, n, env);
    }
}

proof fn lemma_horner_zero<R: Ring>(s: Seq<Poly>, n: nat, env: Seq<R>)
    requires
        0 < n <= env.len(),
        all_wf(env),
        forall|k: int| 0 <= k < s.len() ==> #[trigger] value(s[k], (n - 1) as nat, env)
            == R::zero_spec(),
    ensures
        horner(s, n, env) == R::zero_spec(),
    decreases s.len(),
{
    if s.len() > 0 {
        assert forall|k: int| 0 <= k < s.skip(1).len() implies #[trigger] value(
            s.skip(1)[k],
            (n - 1) as nat,
            env,
        ) == R::zero_spec() by {
            assert(s.skip(1)[k] == s[k + 1]);
        }
        lemma_horner_zero(s.skip(1), n, env);
        assert(value(s[0], (n - 1) as nat, env) == R::zero_spec());
        R::constants_wf();
        ring::lemma_mul_zero(env[n - 1]);
        R::additive(R::zero_spec(), R::zero_spec(), R::zero_spec());
    }
}

proof fn lemma_embed_int(n: int)
    ensures
        ring::embed::<Z>(n) == Z(n),
    decreases
            (if n < 0 {
                -n
            } else {
                n
            }),
{
    if n > 0 {
        lemma_embed_int(n - 1);
    } else if n < 0 {
        lemma_embed_int(n + 1);
    }
}

proof fn lemma_int_eval(e: Expr, env: Seq<Z>)
    ensures
        eval(e, env) == Z(int_eval(e, Seq::new(env.len(), |i: int| env[i].0))),
    decreases e,
{
    match e {
        Expr::Var(_) => {},
        Expr::Int(c) => lemma_embed_int(c),
        Expr::Sum(a, b) => {
            lemma_int_eval(*a, env);
            lemma_int_eval(*b, env);
        },
        Expr::Diff(a, b) => {
            lemma_int_eval(*a, env);
            lemma_int_eval(*b, env);
        },
        Expr::Prod(a, b) => {
            lemma_int_eval(*a, env);
            lemma_int_eval(*b, env);
        },
    }
}

/// The transfer principle: an identity of expressions that holds at all
/// integers holds in every commutative ring.
pub proof fn lemma_identity<R: Ring>(lhs: Expr, rhs: Expr, env: Seq<R>)
    requires
        all_wf(env),
        forall|v: Seq<int>| v.len() == env.len() ==> #[trigger] int_eval(lhs, v) == int_eval(rhs, v),
    ensures
        eval(lhs, env) == eval(rhs, env),
        eval(lhs, env).wf(),
{
    let e = Expr::Diff(Box::new(lhs), Box::new(rhs));
    let n = env.len();
    assert forall|v: Seq<Z>| v.len() == n implies #[trigger] value(to_poly(e, n), n, v) == Z(0) by {
        lemma_to_poly(e, v);
        lemma_int_eval(e, v);
        let w = Seq::new(v.len(), |i: int| v[i].0);
        assert(int_eval(lhs, w) == int_eval(rhs, w));
    }
    lemma_vanish(to_poly(e, n), n, env);
    lemma_to_poly(e, env);
    lemma_to_poly(lhs, env);
    lemma_to_poly(rhs, env);
    let (x, y) = (eval(lhs, env), eval(rhs, env));
    let z = R::zero_spec();
    assert(x - y == z);
    R::constants_wf();
    R::closed(y, y);
    R::additive(x, y, y);
    R::additive(x, -y, y);
    R::additive(-y, y, y);
    R::additive(y, y, y);
    R::additive(x, z, z);
    R::additive(z, y, z);
    R::additive(y, z, z);
}

} // verus!
