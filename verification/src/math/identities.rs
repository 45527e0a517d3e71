//! The polynomial identities behind the curve law, each transferred from the
//! integers to every commutative ring.

use vstd::arithmetic::mul::*;
use vstd::prelude::*;

use super::identity;
use super::identity::Expr;
use super::ring::Ring;

verus! {

proof fn expand_1_2(s1: int, t1: int, t2: int)
    ensures
        (s1) * (t1 + t2) == s1 * t1 + s1 * t2,
{
    lemma_mul_is_distributive_add(s1, t1, t2);
}

proof fn expand_1_3(s1: int, t1: int, t2: int, t3: int)
    ensures
        (s1) * (t1 + t2 + t3) == s1 * t1 + s1 * t2 + s1 * t3,
{
    lemma_mul_is_distributive_add(s1, t1 + t2, t3);
    lemma_mul_is_distributive_add(s1, t1, t2);
}

proof fn expand_1_6(s1: int, t1: int, t2: int, t3: int, t4: int, t5: int, t6: int)
    ensures
        (s1) * (t1 + t2 + t3 + t4 + t5 + t6) == s1 * t1 + s1 * t2 + s1 * t3 + s1 * t4 + s1 * t5 + s1 * t6,
{
    lemma_mul_is_distributive_add(s1, t1 + t2 + t3 + t4 + t5, t6);
    lemma_mul_is_distributive_add(s1, t1 + t2 + t3 + t4, t5);
    lemma_mul_is_distributive_add(s1, t1 + t2 + t3, t4);
    lemma_mul_is_distributive_add(s1, t1 + t2, t3);
    lemma_mul_is_distributive_add(s1, t1, t2);
}

proof fn expand_2_1(s1: int, s2: int, t1: int)
    ensures
        (s1 + s2) * (t1) == s1 * t1 + s2 * t1,
{
    lemma_mul_is_distributive_add_other_way(t1, s1, s2);
}

proof fn expand_2_2(s1: int, s2: int, t1: int, t2: int)
    ensures
        (s1 + s2) * (t1 + t2) == s1 * t1 + s1 * t2 + s2 * t1 + s2 * t2,
{
    lemma_mul_is_distributive_add_other_way(t1 + t2, s1, s2);
    lemma_mul_is_distributive_add(s1, t1, t2);
    lemma_mul_is_distributive_add(s2, t1, t2);
}

proof fn expand_2_3(s1: int, s2: int, t1: int, t2: int, t3: int)
    ensures
        (s1 + s2) * (t1 + t2 + t3) == s1 * t1 + s1 * t2 + s1 * t3 + s2 * t1 + s2 * t2 + s2 * t3,
{
    lemma_mul_is_distributive_add_other_way(t1 + t2 + t3, s1, s2);
    lemma_mul_is_distributive_add(s1, t1 + t2, t3);
    lemma_mul_is_distributive_add(s1, t1, t2);
    lemma_mul_is_distributive_add(s2, t1 + t2, t3);
    lemma_mul_is_distributive_add(s2, t1, t2);
}

proof fn expand_2_6(s1: int, s2: int, t1: int, t2: int, t3: int, t4: int, t5: int, t6: int)
    ensures
        (s1 + s2) * (t1 + t2 + t3 + t4 + t5 + t6) == s1 * t1 + s1 * t2 + s1 * t3 + s1 * t4 + s1 * t5 + s1 * t6 + s2 * t1 + s2 * t2 + s2 * t3 + s2 * t4 + s2 * t5 + s2 * t6,
{
    lemma_mul_is_distributive_add_other_way(t1 + t2 + t3 + t4 + t5 + t6, s1, s2);
    lemma_mul_is_distributive_add(s1, t1 + t2 + t3 + t4 + t5, t6);
    lemma_mul_is_distributive_add(s1, t1 + t2 + t3 + t4, t5);
    lemma_mul_is_distributive_add(s1, t1 + t2 + t3, t4);
    lemma_mul_is_distributive_add(s1, t1 + t2, t3);
    lemma_mul_is_distributive_add(s1, t1, t2);
    lemma_mul_is_distributive_add(s2, t1 + t2 + t3 + t4 + t5, t6);
    lemma_mul_is_distributive_add(s2, t1 + t2 + t3 + t4, t5);
    lemma_mul_is_distributive_add(s2, t1 + t2 + t3, t4);
    lemma_mul_is_distributive_add(s2, t1 + t2, t3);
    lemma_mul_is_distributive_add(s2, t1, t2);
}

proof fn expand_3_1(s1: int, s2: int, s3: int, t1: int)
    ensures
        (s1 + s2 + s3) * (t1) == s1 * t1 + s2 * t1 + s3 * t1,
{
    lemma_mul_is_distributive_add_other_way(t1, s1 + s2, s3);
    lemma_mul_is_distributive_add_other_way(t1, s1, s2);
}

proof fn expand_4_1(s1: int, s2: int, s3: int, s4: int, t1: int)
    ensures
        (s1 + s2 + s3 + s4) * (t1) == s1 * t1 + s2 * t1 + s3 * t1 + s4 * t1,
{
    lemma_mul_is_distributive_add_other_way(t1, s1 + s2 + s3, s4);
    lemma_mul_is_distributive_add_other_way(t1, s1 + s2, s3);
    lemma_mul_is_distributive_add_other_way(t1, s1, s2);
}

/// Cancellation of a subtraction.
pub proof fn sub_add_cancel<R: Ring>(a: R, b: R)
    requires
        a.wf(),
        b.wf(),
    ensures
        a - b + b == a,
        a + b - a == b,
        a + b - b == a,
{
    reveal_with_fuel(identity::eval, 4);
    reveal_with_fuel(identity::int_eval, 4);
    let env = seq![a, b];
    let (lhs, rhs) = {
        let (a, b) = (Expr::Var(0), Expr::Var(1));
        (a - b + b, a)
    };
    assert forall|v: Seq<int>| v.len() == env.len() implies #[trigger] identity::int_eval(lhs, v)
        == identity::int_eval(rhs, v) by {
        let (a, b) = (v[0], v[1]);
        assert(a - b + b == a);
    }
    identity::lemma_identity(lhs, rhs, env);
    let (lhs, rhs) = {
        let (a, b) = (Expr::Var(0), Expr::Var(1));
        (a + b - a, b)
    };
    assert forall|v: Seq<int>| v.len() == env.len() implies #[trigger] identity::int_eval(lhs, v)
        == identity::int_eval(rhs, v) by {
        let (a, b) = (v[0], v[1]);
        assert(a + b - a == b);
    }
    identity::lemma_identity(lhs, rhs, env);
    let (lhs, rhs) = {
        let (a, b) = (Expr::Var(0), Expr::Var(1));
        (a + b - b, a)
    };
    assert forall|v: Seq<int>| v.len() == env.len() implies #[trigger] identity::int_eval(lhs, v)
        == identity::int_eval(rhs, v) by {
        let (a, b) = (v[0], v[1]);
        assert(a + b - b == a);
    }
    identity::lemma_identity(lhs, rhs, env);
}

/// Symmetric functions of three elements do not depend on their order.
pub proof fn sum_rotates<R: Ring>(x1: R, x2: R, x3: R)
    requires
        x1.wf(),
        x2.wf(),
        x3.wf(),
    ensures
        x2 + x3 + x1 == x1 + x2 + x3,
        x2 * x3 + x2 * x1 + x3 * x1 == x1 * x2 + x1 * x3 + x2 * x3,
        x2 * x3 * x1 == x1 * x2 * x3,
{
    reveal_with_fuel(identity::eval, 5);
    reveal_with_fuel(identity::int_eval, 5);
    let env = seq![x1, x2, x3];
    let (lhs, rhs) = {
        let (x1, x2, x3) = (Expr::Var(0), Expr::Var(1), Expr::Var(2));
        (x2 + x3 + x1, x1 + x2 + x3)
    };
    assert forall|v: Seq<int>| v.len() == env.len() implies #[trigger] identity::int_eval(lhs, v)
        == identity::int_eval(rhs, v) by {
        let (x1, x2, x3) = (v[0], v[1], v[2]);
        assert(x2 + x3 + x1 == x1 + x2 + x3);
    }
    identity::lemma_identity(lhs, rhs, env);
    let (lhs, rhs) = {
        let (x1, x2, x3) = (Expr::Var(0), Expr::Var(1), Expr::Var(2));
        (x2 * x3 + x2 * x1 + x3 * x1, x1 * x2 + x1 * x3 + x2 * x3)
    };
    assert forall|v: Seq<int>| v.len() == env.len() implies #[trigger] identity::int_eval(lhs, v)
        == identity::int_eval(rhs, v) by {
        let (x1, x2, x3) = (v[0], v[1], v[2]);
        assert(x2 * x1 == x1 * x2) by (nonlinear_arith);
        assert(x3 * x1 == x1 * x3) by (nonlinear_arith);
        assert(x2 * x3 + x2 * x1 + x3 * x1 == x1 * x2 + x1 * x3 + x2 * x3);
    }
    identity::lemma_identity(lhs, rhs, env);
    let (lhs, rhs) = {
        let (x1, x2, x3) = (Expr::Var(0), Expr::Var(1), Expr::Var(2));
        (x2 * x3 * x1, x1 * x2 * x3)
    };
    assert forall|v: Seq<int>| v.len() == env.len() implies #[trigger] identity::int_eval(lhs, v)
        == identity::int_eval(rhs, v) by {
        let (x1, x2, x3) = (v[0], v[1], v[2]);
        assert(x2 * x3 * x1 == x1 * x2 * x3) by (nonlinear_arith);
        assert(x2 * x3 * x1 == x1 * x2 * x3);
    }
    identity::lemma_identity(lhs, rhs, env);
}

/// Symmetric functions of three elements do not depend on their order.
pub proof fn sum_swaps<R: Ring>(x1: R, x2: R, x3: R)
    requires
        x1.wf(),
        x2.wf(),
        x3.wf(),
    ensures
        x2 + x1 + x3 == x1 + x2 + x3,
        x2 * x1 + x2 * x3 + x1 * x3 == x1 * x2 + x1 * x3 + x2 * x3,
        x2 * x1 * x3 == x1 * x2 * x3,
{
    reveal_with_fuel(identity::eval, 5);
    reveal_with_fuel(identity::int_eval, 5);
    let env = seq![x1, x2, x3];
    let (lhs, rhs) = {
        let (x1, x2, x3) = (Expr::Var(0), Expr::Var(1), Expr::Var(2));
        (x2 + x1 + x3, x1 + x2 + x3)
    };
    assert forall|v: Seq<int>| v.len() == env.len() implies #[trigger] identity::int_eval(lhs, v)
        == identity::int_eval(rhs, v) by {
        let (x1, x2, x3) = (v[0], v[1], v[2]);
        assert(x2 + x1 + x3 == x1 + x2 + x3);
    }
    identity::lemma_identity(lhs, rhs, env);
    let (lhs, rhs) = {
        let (x1, x2, x3) = (Expr::Var(0), Expr::Var(1), Expr::Var(2));
        (x2 * x1 + x2 * x3 + x1 * x3, x1 * x2 + x1 * x3 + x2 * x3)
    };
    assert forall|v: Seq<int>| v.len() == env.len() implies #[trigger] identity::int_eval(lhs, v)
        == identity::int_eval(rhs, v) by {
        let (x1, x2, x3) = (v[0], v[1], v[2]);
        assert(x2 * x1 == x1 * x2) by (nonlinear_arith);
        assert(x2 * x1 + x2 * x3 + x1 * x3 == x1 * x2 + x1 * x3 + x2 * x3);
    }
    identity::lemma_identity(lhs, rhs, env);
    let (lhs, rhs) = {
        let (x1, x2, x3) = (Expr::Var(0), Expr::Var(1), Expr::Var(2));
        (x2 * x1 * x3, x1 * x2 * x3)
    };
    assert forall|v: Seq<int>| v.len() == env.len() implies #[trigger] identity::int_eval(lhs, v)
        == identity::int_eval(rhs, v) by {
        let (x1, x2, x3) = (v[0], v[1], v[2]);
        assert(x2 * x1 == x1 * x2) by (nonlinear_arith);
        assert(x2 * x1 * x3 == x1 * x2 * x3) by (nonlinear_arith);
        assert(x2 * x1 * x3 == x1 * x2 * x3);
    }
    identity::lemma_identity(lhs, rhs, env);
}

/// The third abscissa from the sum of all three.
pub proof fn third_root<R: Ring>(x1: R, x2: R, x3: R, s: R)
    requires
        x1.wf(),
        x2.wf(),
        x3.wf(),
        s.wf(),
    ensures
        x1 + x2 + x3 - x1 - x2 == x3,
        x1 + x2 + (s - x1 - x2) == s,
{
    reveal_with_fuel(identity::eval, 6);
    reveal_with_fuel(identity::int_eval, 6);
    let env = seq![x1, x2, x3, s];
    let (lhs, rhs) = {
        let (x1, x2, x3, s) = (Expr::Var(0), Expr::Var(1), Expr::Var(2), Expr::Var(3));
        (x1 + x2 + x3 - x1 - x2, x3)
    };
    assert forall|v: Seq<int>| v.len() == env.len() implies #[trigger] identity::int_eval(lhs, v)
        == identity::int_eval(rhs, v) by {
        let (x1, x2, x3, s) = (v[0], v[1], v[2], v[3]);
        assert(x1 + x2 + x3 - x1 - x2 == x3);
    }
    identity::lemma_identity(lhs, rhs, env);
    let (lhs, rhs) = {
        let (x1, x2, x3, s) = (Expr::Var(0), Expr::Var(1), Expr::Var(2), Expr::Var(3));
        (x1 + x2 + (s - x1 - x2), s)
    };
    assert forall|v: Seq<int>| v.len() == env.len() implies #[trigger] identity::int_eval(lhs, v)
        == identity::int_eval(rhs, v) by {
        let (x1, x2, x3, s) = (v[0], v[1], v[2], v[3]);
        assert(x1 + x2 + (s - x1 - x2) == s);
    }
    identity::lemma_identity(lhs, rhs, env);
}

/// The line of slope `l` through a point, at a second abscissa.
pub proof fn line_through<R: Ring>(l: R, x1: R, x2: R, y1: R)
    requires
        l.wf(),
        x1.wf(),
        x2.wf(),
        y1.wf(),
    ensures
        l * x1 + (y1 - l * x1) == y1,
        l * x2 + (y1 - l * x1) == l * (x2 - x1) + y1,
        l * (x1 - x2) - y1 + (l * x2 + (y1 - l * x1)) == R::zero_spec(),
{
    reveal_with_fuel(identity::eval, 6);
    reveal_with_fuel(identity::int_eval, 6);
    let env = seq![l, x1, x2, y1];
    let (lhs, rhs) = {
        let (l, x1, x2, y1) = (Expr::Var(0), Expr::Var(1), Expr::Var(2), Expr::Var(3));
        (l * x1 + (y1 - l * x1), y1)
    };
    assert forall|v: Seq<int>| v.len() == env.len() implies #[trigger] identity::int_eval(lhs, v)
        == identity::int_eval(rhs, v) by {
        let (l, x1, x2, y1) = (v[0], v[1], v[2], v[3]);
        assert(l * x1 + (y1 - l * x1) == y1);
    }
    identity::lemma_identity(lhs, rhs, env);
    let (lhs, rhs) = {
        let (l, x1, x2, y1) = (Expr::Var(0), Expr::Var(1), Expr::Var(2), Expr::Var(3));
        (l * x2 + (y1 - l * x1), l * (x2 - x1) + y1)
    };
    assert forall|v: Seq<int>| v.len() == env.len() implies #[trigger] identity::int_eval(lhs, v)
        == identity::int_eval(rhs, v) by {
        let (l, x1, x2, y1) = (v[0], v[1], v[2], v[3]);
        assert(l * ((-1) * (x1)) == ((-1) * (l * x1))) by (nonlinear_arith);
        expand_1_2(l, x2, ((-1) * (x1)));
        assert(x2 - x1 == x2 + ((-1) * (x1)));
        assert(l * (x2 - x1) == (l * x2) + ((-1) * (l * x1)));
        assert(l * x2 + (y1 - l * x1) == l * (x2 - x1) + y1);
    }
    identity::lemma_identity(lhs, rhs, env);
    let (lhs, rhs) = {
        let (l, x1, x2, y1) = (Expr::Var(0), Expr::Var(1), Expr::Var(2), Expr::Var(3));
        (l * (x1 - x2) - y1 + (l * x2 + (y1 - l * x1)), Expr::Int(0))
    };
    assert forall|v: Seq<int>| v.len() == env.len() implies #[trigger] identity::int_eval(lhs, v)
        == identity::int_eval(rhs, v) by {
        let (l, x1, x2, y1) = (v[0], v[1], v[2], v[3]);
        assert(l * ((-1) * (x2)) == ((-1) * (l * x2))) by (nonlinear_arith);
        expand_1_2(l, x1, ((-1) * (x2)));
        assert(x1 - x2 == x1 + ((-1) * (x2)));
        assert(l * (x1 - x2) == (l * x1) + ((-1) * (l * x2)));
        assert(l * (x1 - x2) - y1 + (l * x2 + (y1 - l * x1)) == 0);
    }
    identity::lemma_identity(lhs, rhs, env);
}

/// The rise of a line between two abscissae.
pub proof fn line_rise<R: Ring>(l: R, n: R, x1: R, x2: R)
    requires
        l.wf(),
        n.wf(),
        x1.wf(),
        x2.wf(),
    ensures
        l * x2 + n - (l * x1 + n) == l * (x2 - x1),
        l * x2 + n + (l * (x1 - x2) - (l * x1 + n)) == R::zero_spec(),
{
    reveal_with_fuel(identity::eval, 6);
    reveal_with_fuel(identity::int_eval, 6);
    let env = seq![l, n, x1, x2];
    let (lhs, rhs) = {
        let (l, n, x1, x2) = (Expr::Var(0), Expr::Var(1), Expr::Var(2), Expr::Var(3));
        (l * x2 + n - (l * x1 + n), l * (x2 - x1))
    };
    assert forall|v: Seq<int>| v.len() == env.len() implies #[trigger] identity::int_eval(lhs, v)
        == identity::int_eval(rhs, v) by {
        let (l, n, x1, x2) = (v[0], v[1], v[2], v[3]);
        assert(l * ((-1) * (x1)) == ((-1) * (l * x1))) by (nonlinear_arith);
        expand_1_2(l, x2, ((-1) * (x1)));
        assert(x2 - x1 == x2 + ((-1) * (x1)));
        assert(l * (x2 - x1) == (l * x2) + ((-1) * (l * x1)));
        assert(l * x2 + n - (l * x1 + n) == l * (x2 - x1));
    }
    identity::lemma_identity(lhs, rhs, env);
    let (lhs, rhs) = {
        let (l, n, x1, x2) = (Expr::Var(0), Expr::Var(1), Expr::Var(2), Expr::Var(3));
        (l * x2 + n + (l * (x1 - x2) - (l * x1 + n)), Expr::Int(0))
    };
    assert forall|v: Seq<int>| v.len() == env.len() implies #[trigger] identity::int_eval(lhs, v)
        == identity::int_eval(rhs, v) by {
        let (l, n, x1, x2) = (v[0], v[1], v[2], v[3]);
        assert(l * ((-1) * (x2)) == ((-1) * (l * x2))) by (nonlinear_arith);
        expand_1_2(l, x1, ((-1) * (x2)));
        assert(x1 - x2 == x1 + ((-1) * (x2)));
        assert(l * (x1 - x2) == (l * x1) + ((-1) * (l * x2)));
        assert(l * x2 + n + (l * (x1 - x2) - (l * x1 + n)) == 0);
    }
    identity::lemma_identity(lhs, rhs, env);
}

/// Two points on a line: the difference of their curve equations.
pub proof fn chord_difference<R: Ring>(x1: R, x2: R, l: R, n: R)
    requires
        x1.wf(),
        x2.wf(),
        l.wf(),
        n.wf(),
    ensures
        (x1 - x2) * (x1 * x1 + x1 * x2 + x2 * x2 - l * l * (x1 + x2) - (l * n + l * n)) == x1 * x1 * x1 - x2 * x2 * x2 - ((l * x1 + n) * (l * x1 + n) - (l * x2 + n) * (l * x2 + n)),
{
    reveal_with_fuel(identity::eval, 8);
    reveal_with_fuel(identity::int_eval, 8);
    let env = seq![x1, x2, l, n];
    let (lhs, rhs) = {
        let (x1, x2, l, n) = (Expr::Var(0), Expr::Var(1), Expr::Var(2), Expr::Var(3));
        ((x1 - x2) * (x1 * x1 + x1 * x2 + x2 * x2 - l * l * (x1 + x2) - (l * n + l * n)), x1 * x1 * x1 - x2 * x2 * x2 - ((l * x1 + n) * (l * x1 + n) - (l * x2 + n) * (l * x2 + n)))
    };
    assert forall|v: Seq<int>| v.len() == env.len() implies #[trigger] identity::int_eval(lhs, v)
        == identity::int_eval(rhs, v) by {
        let (x1, x2, l, n) = (v[0], v[1], v[2], v[3]);
        assert((l * l) * x1 == (x1 * l * l)) by (nonlinear_arith);
        assert((l * l) * x2 == (x2 * l * l)) by (nonlinear_arith);
        expand_1_2((l * l), x1, x2);
        assert(l * l == (l * l));
        assert(l * l * (x1 + x2) == (x1 * l * l) + (x2 * l * l));
        assert(x1 * (x1 * x1) == (x1 * x1 * x1)) by (nonlinear_arith);
        assert(x1 * (x1 * x2) == (x1 * x1 * x2)) by (nonlinear_arith);
        assert(x1 * (x2 * x2) == (x1 * x2 * x2)) by (nonlinear_arith);
        assert(x1 * ((-1) * (x1 * l * l)) == ((-1) * (x1 * x1 * l * l))) by (nonlinear_arith);
        assert(x1 * ((-1) * (x2 * l * l)) == ((-1) * (x1 * x2 * l * l))) by (nonlinear_arith);
        assert(x1 * ((-2) * (l * n)) == ((-2) * (x1 * l * n))) by (nonlinear_arith);
        assert(((-1) * (x2)) * (x1 * x1) == ((-1) * (x1 * x1 * x2))) by (nonlinear_arith);
        assert(((-1) * (x2)) * (x1 * x2) == ((-1) * (x1 * x2 * x2))) by (nonlinear_arith);
        assert(((-1) * (x2)) * (x2 * x2) == ((-1) * (x2 * x2 * x2))) by (nonlinear_arith);
        assert(((-1) * (x2)) * ((-1) * (x1 * l * l)) == (x1 * x2 * l * l)) by (nonlinear_arith);
        assert(((-1) * (x2)) * ((-1) * (x2 * l * l)) == (x2 * x2 * l * l)) by (nonlinear_arith);
        assert(((-1) * (x2)) * ((-2) * (l * n)) == (2 * (x2 * l * n))) by (nonlinear_arith);
        expand_2_6(x1, ((-1) * (x2)), (x1 * x1), (x1 * x2), (x2 * x2), ((-1) * (x1 * l * l)), ((-1) * (x2 * l * l)), ((-2) * (l * n)));
        assert(x1 * x1 + x1 * x2 + x2 * x2 - l * l * (x1 + x2) - (l * n + l * n) == (x1 * x1) + (x1 * x2) + (x2 * x2) + ((-1) * (x1 * l * l)) + ((-1) * (x2 * l * l)) + ((-2) * (l * n)));
        assert(x1 - x2 == x1 + ((-1) * (x2)));
        assert((x1 - x2) * (x1 * x1 + x1 * x2 + x2 * x2 - l * l * (x1 + x2) - (l * n + l * n)) == (x1 * x1 * x1) + ((-1) * (x1 * x1 * l * l)) + ((-2) * (x1 * l * n)) + ((-1) * (x2 * x2 * x2)) + (x2 * x2 * l * l) + (2 * (x2 * l * n)));
        assert(l * x1 == x1 * l) by (nonlinear_arith);
        assert((x1 * l) * (x1 * l) == (x1 * x1 * l * l)) by (nonlinear_arith);
        assert((x1 * l) * n == (x1 * l * n)) by (nonlinear_arith);
        assert(n * (x1 * l) == (x1 * l * n)) by (nonlinear_arith);
        expand_2_2((x1 * l), n, (x1 * l), n);
        assert(l * x1 + n == (x1 * l) + n);
        assert((l * x1 + n) * (l * x1 + n) == (x1 * x1 * l * l) + (2 * (x1 * l * n)) + (n * n));
        assert(l * x2 == x2 * l) by (nonlinear_arith);
        assert((x2 * l) * (x2 * l) == (x2 * x2 * l * l)) by (nonlinear_arith);
        assert((x2 * l) * n == (x2 * l * n)) by (nonlinear_arith);
        assert(n * (x2 * l) == (x2 * l * n)) by (nonlinear_arith);
        expand_2_2((x2 * l), n, (x2 * l), n);
        assert(l * x2 + n == (x2 * l) + n);
        assert((l * x2 + n) * (l * x2 + n) == (x2 * x2 * l * l) + (2 * (x2 * l * n)) + (n * n));
        assert((x1 - x2) * (x1 * x1 + x1 * x2 + x2 * x2 - l * l * (x1 + x2) - (l * n + l * n)) == x1 * x1 * x1 - x2 * x2 * x2 - ((l * x1 + n) * (l * x1 + n) - (l * x2 + n) * (l * x2 + n)));
    }
    identity::lemma_identity(lhs, rhs, env);
}

/// The doubled abscissa of a tangent.
pub proof fn tangent_bracket<R: Ring>(x: R, l: R, n: R)
    requires
        x.wf(),
        l.wf(),
        n.wf(),
    ensures
        x * x + x * x + x * x - l * l * (x + x) - (l * n + l * n) == x * x + x * x + x * x - l * (l * x + n + (l * x + n)),
{
    reveal_with_fuel(identity::eval, 7);
    reveal_with_fuel(identity::int_eval, 7);
    let env = seq![x, l, n];
    let (lhs, rhs) = {
        let (x, l, n) = (Expr::Var(0), Expr::Var(1), Expr::Var(2));
        (x * x + x * x + x * x - l * l * (x + x) - (l * n + l * n), x * x + x * x + x * x - l * (l * x + n + (l * x + n)))
    };
    assert forall|v: Seq<int>| v.len() == env.len() implies #[trigger] identity::int_eval(lhs, v)
        == identity::int_eval(rhs, v) by {
        let (x, l, n) = (v[0], v[1], v[2]);
        assert((l * l) * (2 * (x)) == (2 * (x * l * l))) by (nonlinear_arith);
        assert(l * l == (l * l));
        assert(x + x == (2 * (x)));
        assert(l * l * (x + x) == (2 * (x * l * l)));
        assert(l * x == x * l) by (nonlinear_arith);
        assert(l * (2 * (x * l)) == (2 * (x * l * l))) by (nonlinear_arith);
        assert(l * (2 * (n)) == (2 * (l * n))) by (nonlinear_arith);
        expand_1_2(l, (2 * (x * l)), (2 * (n)));
        assert(l * x + n + (l * x + n) == (2 * (x * l)) + (2 * (n)));
        assert(l * (l * x + n + (l * x + n)) == (2 * (x * l * l)) + (2 * (l * n)));
        assert(x * x + x * x + x * x - l * l * (x + x) - (l * n + l * n) == x * x + x * x + x * x - l * (l * x + n + (l * x + n)));
    }
    identity::lemma_identity(lhs, rhs, env);
}

/// The second symmetric function of the three abscissae on a line.
pub proof fn pair_sum<R: Ring>(x1: R, x2: R, l: R, n: R)
    requires
        x1.wf(),
        x2.wf(),
        l.wf(),
        n.wf(),
    ensures
        x1 * x2 + x1 * (l * l - x1 - x2) + x2 * (l * l - x1 - x2) + (l * n + l * n) == R::zero_spec() - (x1 * x1 + x1 * x2 + x2 * x2 - l * l * (x1 + x2) - (l * n + l * n)),
{
    reveal_with_fuel(identity::eval, 9);
    reveal_with_fuel(identity::int_eval, 9);
    let env = seq![x1, x2, l, n];
    let (lhs, rhs) = {
        let (x1, x2, l, n) = (Expr::Var(0), Expr::Var(1), Expr::Var(2), Expr::Var(3));
        (x1 * x2 + x1 * (l * l - x1 - x2) + x2 * (l * l - x1 - x2) + (l * n + l * n), Expr::Int(0) - (x1 * x1 + x1 * x2 + x2 * x2 - l * l * (x1 + x2) - (l * n + l * n)))
    };
    assert forall|v: Seq<int>| v.len() == env.len() implies #[trigger] identity::int_eval(lhs, v)
        == identity::int_eval(rhs, v) by {
        let (x1, x2, l, n) = (v[0], v[1], v[2], v[3]);
        assert(x1 * (l * l) == (x1 * l * l)) by (nonlinear_arith);
        assert(x1 * ((-1) * (x1)) == ((-1) * (x1 * x1))) by (nonlinear_arith);
        assert(x1 * ((-1) * (x2)) == ((-1) * (x1 * x2))) by (nonlinear_arith);
        expand_1_3(x1, (l * l), ((-1) * (x1)), ((-1) * (x2)));
        assert(l * l - x1 - x2 == (l * l) + ((-1) * (x1)) + ((-1) * (x2)));
        assert(x1 * (l * l - x1 - x2) == (x1 * l * l) + ((-1) * (x1 * x1)) + ((-1) * (x1 * x2)));
        assert(x2 * (l * l) == (x2 * l * l)) by (nonlinear_arith);
        assert(x2 * ((-1) * (x1)) == ((-1) * (x1 * x2))) by (nonlinear_arith);
        assert(x2 * ((-1) * (x2)) == ((-1) * (x2 * x2))) by (nonlinear_arith);
        expand_1_3(x2, (l * l), ((-1) * (x1)), ((-1) * (x2)));
        assert(x2 * (l * l - x1 - x2) == (x2 * l * l) + ((-1) * (x1 * x2)) + ((-1) * (x2 * x2)));
        assert((l * l) * x1 == (x1 * l * l)) by (nonlinear_arith);
        assert((l * l) * x2 == (x2 * l * l)) by (nonlinear_arith);
        expand_1_2((l * l), x1, x2);
        assert(l * l == (l * l));
        assert(l * l * (x1 + x2) == (x1 * l * l) + (x2 * l * l));
        assert(x1 * x2 + x1 * (l * l - x1 - x2) + x2 * (l * l - x1 - x2) + (l * n + l * n) == 0 - (x1 * x1 + x1 * x2 + x2 * x2 - l * l * (x1 + x2) - (l * n + l * n)));
    }
    identity::lemma_identity(lhs, rhs, env);
}

/// The third symmetric function of the three abscissae on a line.
pub proof fn triple_product<R: Ring>(x1: R, x2: R, l: R, n: R)
    requires
        x1.wf(),
        x2.wf(),
        l.wf(),
        n.wf(),
    ensures
        x1 * x2 * (l * l - x1 - x2) + ((l * x1 + n) * (l * x1 + n) - x1 * x1 * x1) - n * n == x1 * (x1 * x2 + x1 * (l * l - x1 - x2) + x2 * (l * l - x1 - x2) + (l * n + l * n)),
{
    reveal_with_fuel(identity::eval, 10);
    reveal_with_fuel(identity::int_eval, 10);
    let env = seq![x1, x2, l, n];
    let (lhs, rhs) = {
        let (x1, x2, l, n) = (Expr::Var(0), Expr::Var(1), Expr::Var(2), Expr::Var(3));
        (x1 * x2 * (l * l - x1 - x2) + ((l * x1 + n) * (l * x1 + n) - x1 * x1 * x1) - n * n, x1 * (x1 * x2 + x1 * (l * l - x1 - x2) + x2 * (l * l - x1 - x2) + (l * n + l * n)))
    };
    assert forall|v: Seq<int>| v.len() == env.len() implies #[trigger] identity::int_eval(lhs, v)
        == identity::int_eval(rhs, v) by {
        let (x1, x2, l, n) = (v[0], v[1], v[2], v[3]);
        assert((x1 * x2) * (l * l) == (x1 * x2 * l * l)) by (nonlinear_arith);
        assert((x1 * x2) * ((-1) * (x1)) == ((-1) * (x1 * x1 * x2))) by (nonlinear_arith);
        assert((x1 * x2) * ((-1) * (x2)) == ((-1) * (x1 * x2 * x2))) by (nonlinear_arith);
        expand_1_3((x1 * x2), (l * l), ((-1) * (x1)), ((-1) * (x2)));
        assert(l * l - x1 - x2 == (l * l) + ((-1) * (x1)) + ((-1) * (x2)));
        assert(x1 * x2 == (x1 * x2));
        assert(x1 * x2 * (l * l - x1 - x2) == (x1 * x2 * l * l) + ((-1) * (x1 * x1 * x2)) + ((-1) * (x1 * x2 * x2)));
        assert(l * x1 == x1 * l) by (nonlinear_arith);
        assert((x1 * l) * (x1 * l) == (x1 * x1 * l * l)) by (nonlinear_arith);
        assert((x1 * l) * n == (x1 * l * n)) by (nonlinear_arith);
        assert(n * (x1 * l) == (x1 * l * n)) by (nonlinear_arith);
        expand_2_2((x1 * l), n, (x1 * l), n);
        assert(l * x1 + n == (x1 * l) + n);
        assert((l * x1 + n) * (l * x1 + n) == (x1 * x1 * l * l) + (2 * (x1 * l * n)) + (n * n));
        assert(x1 * (l * l) == (x1 * l * l)) by (nonlinear_arith);
        assert(x1 * ((-1) * (x1)) == ((-1) * (x1 * x1))) by (nonlinear_arith);
        assert(x1 * ((-1) * (x2)) == ((-1) * (x1 * x2))) by (nonlinear_arith);
        expand_1_3(x1, (l * l), ((-1) * (x1)), ((-1) * (x2)));
        assert(x1 * (l * l - x1 - x2) == (x1 * l * l) + ((-1) * (x1 * x1)) + ((-1) * (x1 * x2)));
        assert(x2 * (l * l) == (x2 * l * l)) by (nonlinear_arith);
        assert(x2 * ((-1) * (x1)) == ((-1) * (x1 * x2))) by (nonlinear_arith);
        assert(x2 * ((-1) * (x2)) == ((-1) * (x2 * x2))) by (nonlinear_arith);
        expand_1_3(x2, (l * l), ((-1) * (x1)), ((-1) * (x2)));
        assert(x2 * (l * l - x1 - x2) == (x2 * l * l) + ((-1) * (x1 * x2)) + ((-1) * (x2 * x2)));
        assert(x1 * (x1 * l * l) == (x1 * x1 * l * l)) by (nonlinear_arith);
        assert(x1 * ((-1) * (x1 * x1)) == ((-1) * (x1 * x1 * x1))) by (nonlinear_arith);
        assert(x1 * (x2 * l * l) == (x1 * x2 * l * l)) by (nonlinear_arith);
        assert(x1 * ((-1) * (x1 * x2)) == ((-1) * (x1 * x1 * x2))) by (nonlinear_arith);
        assert(x1 * ((-1) * (x2 * x2)) == ((-1) * (x1 * x2 * x2))) by (nonlinear_arith);
        assert(x1 * (2 * (l * n)) == (2 * (x1 * l * n))) by (nonlinear_arith);
        expand_1_6(x1, (x1 * l * l), ((-1) * (x1 * x1)), (x2 * l * l), ((-1) * (x1 * x2)), ((-1) * (x2 * x2)), (2 * (l * n)));
        assert(x1 * x2 + x1 * (l * l - x1 - x2) + x2 * (l * l - x1 - x2) + (l * n + l * n) == (x1 * l * l) + ((-1) * (x1 * x1)) + (x2 * l * l) + ((-1) * (x1 * x2)) + ((-1) * (x2 * x2)) + (2 * (l * n)));
        assert(x1 * (x1 * x2 + x1 * (l * l - x1 - x2) + x2 * (l * l - x1 - x2) + (l * n + l * n)) == (x1 * x1 * l * l) + ((-1) * (x1 * x1 * x1)) + (x1 * x2 * l * l) + ((-1) * (x1 * x1 * x2)) + ((-1) * (x1 * x2 * x2)) + (2 * (x1 * l * n)));
        assert(x1 * x2 * (l * l - x1 - x2) + ((l * x1 + n) * (l * x1 + n) - x1 * x1 * x1) - n * n == x1 * (x1 * x2 + x1 * (l * l - x1 - x2) + x2 * (l * l - x1 - x2) + (l * n + l * n)));
    }
    identity::lemma_identity(lhs, rhs, env);
}

/// Equal shifts cancel in a difference of differences.
pub proof fn difference_cancels<R: Ring>(a: R, b: R, c: R)
    requires
        a.wf(),
        b.wf(),
        c.wf(),
    ensures
        a - c - (a + b - (c + b)) == R::zero_spec(),
{
    reveal_with_fuel(identity::eval, 5);
    reveal_with_fuel(identity::int_eval, 5);
    let env = seq![a, b, c];
    let (lhs, rhs) = {
        let (a, b, c) = (Expr::Var(0), Expr::Var(1), Expr::Var(2));
        (a - c - (a + b - (c + b)), Expr::Int(0))
    };
    assert forall|v: Seq<int>| v.len() == env.len() implies #[trigger] identity::int_eval(lhs, v)
        == identity::int_eval(rhs, v) by {
        let (a, b, c) = (v[0], v[1], v[2]);
        assert(a - c - (a + b - (c + b)) == 0);
    }
    identity::lemma_identity(lhs, rhs, env);
}

/// The slope of a line times twice an ordinate on it.
pub proof fn slope_double<R: Ring>(x: R, l: R, n: R)
    requires
        x.wf(),
        l.wf(),
        n.wf(),
    ensures
        l * (l * x + n + (l * x + n)) == l * l * x + l * l * x + (l * n + l * n),
{
    reveal_with_fuel(identity::eval, 6);
    reveal_with_fuel(identity::int_eval, 6);
    let env = seq![x, l, n];
    let (lhs, rhs) = {
        let (x, l, n) = (Expr::Var(0), Expr::Var(1), Expr::Var(2));
        (l * (l * x + n + (l * x + n)), l * l * x + l * l * x + (l * n + l * n))
    };
    assert forall|v: Seq<int>| v.len() == env.len() implies #[trigger] identity::int_eval(lhs, v)
        == identity::int_eval(rhs, v) by {
        let (x, l, n) = (v[0], v[1], v[2]);
        assert(l * x == x * l) by (nonlinear_arith);
        assert(l * (2 * (x * l)) == (2 * (x * l * l))) by (nonlinear_arith);
        assert(l * (2 * (n)) == (2 * (l * n))) by (nonlinear_arith);
        expand_1_2(l, (2 * (x * l)), (2 * (n)));
        assert(l * x + n + (l * x + n) == (2 * (x * l)) + (2 * (n)));
        assert(l * (l * x + n + (l * x + n)) == (2 * (x * l * l)) + (2 * (l * n)));
        assert(l * l * x == x * l * l) by (nonlinear_arith);
        assert(l * (l * x + n + (l * x + n)) == l * l * x + l * l * x + (l * n + l * n));
    }
    identity::lemma_identity(lhs, rhs, env);
}

/// Twice the abscissa sum of a tangent.
pub proof fn slope_tangent<R: Ring>(x: R, x3: R, w: R)
    requires
        x.wf(),
        x3.wf(),
        w.wf(),
    ensures
        (x + x + x3) * x + (x + x + x3) * x + w == x * x + x * x + x * x + (x * x + x * x3 + x * x3 + w),
{
    reveal_with_fuel(identity::eval, 7);
    reveal_with_fuel(identity::int_eval, 7);
    let env = seq![x, x3, w];
    let (lhs, rhs) = {
        let (x, x3, w) = (Expr::Var(0), Expr::Var(1), Expr::Var(2));
        ((x + x + x3) * x + (x + x + x3) * x + w, x * x + x * x + x * x + (x * x + x * x3 + x * x3 + w))
    };
    assert forall|v: Seq<int>| v.len() == env.len() implies #[trigger] identity::int_eval(lhs, v)
        == identity::int_eval(rhs, v) by {
        let (x, x3, w) = (v[0], v[1], v[2]);
        assert((2 * (x)) * x == (2 * (x * x))) by (nonlinear_arith);
        assert(x3 * x == (x * x3)) by (nonlinear_arith);
        expand_2_1((2 * (x)), x3, x);
        assert(x + x + x3 == (2 * (x)) + x3);
        assert((x + x + x3) * x == (2 * (x * x)) + (x * x3));
        assert((x + x + x3) * x + (x + x + x3) * x + w == x * x + x * x + x * x + (x * x + x * x3 + x * x3 + w));
    }
    identity::lemma_identity(lhs, rhs, env);
}

/// Twice the abscissa sum of a chord, against the tangent.
pub proof fn slope_chord<R: Ring>(x: R, c: R, v: R, w: R)
    requires
        x.wf(),
        c.wf(),
        v.wf(),
        w.wf(),
    ensures
        x * x + x * x + x * x - ((x + c + v) * x + (x + c + v) * x + w) == (x - c) * (x - v) - (x * c + x * v + c * v + w),
{
    reveal_with_fuel(identity::eval, 8);
    reveal_with_fuel(identity::int_eval, 8);
    let env = seq![x, c, v, w];
    let (lhs, rhs) = {
        let (x, c, v, w) = (Expr::Var(0), Expr::Var(1), Expr::Var(2), Expr::Var(3));
        (x * x + x * x + x * x - ((x + c + v) * x + (x + c + v) * x + w), (x - c) * (x - v) - (x * c + x * v + c * v + w))
    };
    assert forall|v: Seq<int>| v.len() == env.len() implies #[trigger] identity::int_eval(lhs, v)
        == identity::int_eval(rhs, v) by {
        let (x, c, v, w) = (v[0], v[1], v[2], v[3]);
        assert(c * x == (x * c)) by (nonlinear_arith);
        assert(v * x == (x * v)) by (nonlinear_arith);
        expand_3_1(x, c, v, x);
        assert((x + c + v) * x == (x * x) + (x * c) + (x * v));
        assert(x * ((-1) * (v)) == ((-1) * (x * v))) by (nonlinear_arith);
        assert(((-1) * (c)) * x == ((-1) * (x * c))) by (nonlinear_arith);
        assert(((-1) * (c)) * ((-1) * (v)) == (c * v)) by (nonlinear_arith);
        expand_2_2(x, ((-1) * (c)), x, ((-1) * (v)));
        assert(x - c == x + ((-1) * (c)));
        assert(x - v == x + ((-1) * (v)));
        assert((x - c) * (x - v) == (x * x) + ((-1) * (x * v)) + ((-1) * (x * c)) + (c * v));
        assert(x * x + x * x + x * x - ((x + c + v) * x + (x + c + v) * x + w) == (x - c) * (x - v) - (x * c + x * v + c * v + w));
    }
    identity::lemma_identity(lhs, rhs, env);
}

/// The square of an ordinate on a line.
pub proof fn line_square<R: Ring>(x: R, l: R, n: R)
    requires
        x.wf(),
        l.wf(),
        n.wf(),
    ensures
        (l * x + n) * (l * x + n) == l * l * (x * x) + (l * n + l * n) * x + n * n,
{
    reveal_with_fuel(identity::eval, 7);
    reveal_with_fuel(identity::int_eval, 7);
    let env = seq![x, l, n];
    let (lhs, rhs) = {
        let (x, l, n) = (Expr::Var(0), Expr::Var(1), Expr::Var(2));
        ((l * x + n) * (l * x + n), l * l * (x * x) + (l * n + l * n) * x + n * n)
    };
    assert forall|v: Seq<int>| v.len() == env.len() implies #[trigger] identity::int_eval(lhs, v)
        == identity::int_eval(rhs, v) by {
        let (x, l, n) = (v[0], v[1], v[2]);
        assert(l * x == x * l) by (nonlinear_arith);
        assert((x * l) * (x * l) == (x * x * l * l)) by (nonlinear_arith);
        assert((x * l) * n == (x * l * n)) by (nonlinear_arith);
        assert(n * (x * l) == (x * l * n)) by (nonlinear_arith);
        expand_2_2((x * l), n, (x * l), n);
        assert(l * x + n == (x * l) + n);
        assert((l * x + n) * (l * x + n) == (x * x * l * l) + (2 * (x * l * n)) + (n * n));
        assert(l * l * (x * x) == x * x * l * l) by (nonlinear_arith);
        assert((2 * (l * n)) * x == (2 * (x * l * n))) by (nonlinear_arith);
        assert(l * n + l * n == (2 * (l * n)));
        assert((l * n + l * n) * x == (2 * (x * l * n)));
        assert((l * x + n) * (l * x + n) == l * l * (x * x) + (l * n + l * n) * x + n * n);
    }
    identity::lemma_identity(lhs, rhs, env);
}

/// The cubic of a line at its third abscissa.
pub proof fn line_cubic<R: Ring>(x1: R, x2: R, x3: R, w: R, b: R)
    requires
        x1.wf(),
        x2.wf(),
        x3.wf(),
        w.wf(),
        b.wf(),
    ensures
        (x1 + x2 + x3) * (x3 * x3) + w * x3 + (x1 * x2 * x3 + b) == x3 * x3 * x3 + b + (x1 * x2 + x1 * x3 + x2 * x3 + w) * x3,
{
    reveal_with_fuel(identity::eval, 8);
    reveal_with_fuel(identity::int_eval, 8);
    let env = seq![x1, x2, x3, w, b];
    let (lhs, rhs) = {
        let (x1, x2, x3, w, b) = (Expr::Var(0), Expr::Var(1), Expr::Var(2), Expr::Var(3), Expr::Var(4));
        ((x1 + x2 + x3) * (x3 * x3) + w * x3 + (x1 * x2 * x3 + b), x3 * x3 * x3 + b + (x1 * x2 + x1 * x3 + x2 * x3 + w) * x3)
    };
    assert forall|v: Seq<int>| v.len() == env.len() implies #[trigger] identity::int_eval(lhs, v)
        == identity::int_eval(rhs, v) by {
        let (x1, x2, x3, w, b) = (v[0], v[1], v[2], v[3], v[4]);
        assert(x1 * (x3 * x3) == (x1 * x3 * x3)) by (nonlinear_arith);
        assert(x2 * (x3 * x3) == (x2 * x3 * x3)) by (nonlinear_arith);
        assert(x3 * (x3 * x3) == (x3 * x3 * x3)) by (nonlinear_arith);
        expand_3_1(x1, x2, x3, (x3 * x3));
        assert(x3 * x3 == (x3 * x3));
        assert((x1 + x2 + x3) * (x3 * x3) == (x1 * x3 * x3) + (x2 * x3 * x3) + (x3 * x3 * x3));
        assert(w * x3 == x3 * w) by (nonlinear_arith);
        assert((x1 * x2) * x3 == (x1 * x2 * x3)) by (nonlinear_arith);
        assert((x1 * x3) * x3 == (x1 * x3 * x3)) by (nonlinear_arith);
        assert((x2 * x3) * x3 == (x2 * x3 * x3)) by (nonlinear_arith);
        expand_4_1((x1 * x2), (x1 * x3), (x2 * x3), w, x3);
        assert(x1 * x2 + x1 * x3 + x2 * x3 + w == (x1 * x2) + (x1 * x3) + (x2 * x3) + w);
        assert((x1 * x2 + x1 * x3 + x2 * x3 + w) * x3 == (x1 * x2 * x3) + (x1 * x3 * x3) + (x2 * x3 * x3) + (x3 * w));
        assert((x1 + x2 + x3) * (x3 * x3) + w * x3 + (x1 * x2 * x3 + b) == x3 * x3 * x3 + b + (x1 * x2 + x1 * x3 + x2 * x3 + w) * x3);
    }
    identity::lemma_identity(lhs, rhs, env);
}

/// The sum of two lines.
pub proof fn lines_add<R: Ring>(l: R, n: R, m: R, k: R, x: R)
    requires
        l.wf(),
        n.wf(),
        m.wf(),
        k.wf(),
        x.wf(),
    ensures
        l * x + n + (m * x + k) == (l + m) * x + (n + k),
{
    reveal_with_fuel(identity::eval, 5);
    reveal_with_fuel(identity::int_eval, 5);
    let env = seq![l, n, m, k, x];
    let (lhs, rhs) = {
        let (l, n, m, k, x) = (Expr::Var(0), Expr::Var(1), Expr::Var(2), Expr::Var(3), Expr::Var(4));
        (l * x + n + (m * x + k), (l + m) * x + (n + k))
    };
    assert forall|v: Seq<int>| v.len() == env.len() implies #[trigger] identity::int_eval(lhs, v)
        == identity::int_eval(rhs, v) by {
        let (l, n, m, k, x) = (v[0], v[1], v[2], v[3], v[4]);
        expand_2_1(l, m, x);
        assert((l + m) * x == (l * x) + (m * x));
        assert(l * x + n + (m * x + k) == (l + m) * x + (n + k));
    }
    identity::lemma_identity(lhs, rhs, env);
}

/// The middle coefficient of a conic, from either of its lines.
pub proof fn conic_middle<R: Ring>(l: R, m: R, p: R, s: R, u: R)
    requires
        l.wf(),
        m.wf(),
        p.wf(),
        s.wf(),
        u.wf(),
    ensures
        (l + m) * l - p == l * l - p - u + (l * m + u),
        (l + m) * m - s == m * m - s - u + (l * m + u),
{
    reveal_with_fuel(identity::eval, 6);
    reveal_with_fuel(identity::int_eval, 6);
    let env = seq![l, m, p, s, u];
    let (lhs, rhs) = {
        let (l, m, p, s, u) = (Expr::Var(0), Expr::Var(1), Expr::Var(2), Expr::Var(3), Expr::Var(4));
        ((l + m) * l - p, l * l - p - u + (l * m + u))
    };
    assert forall|v: Seq<int>| v.len() == env.len() implies #[trigger] identity::int_eval(lhs, v)
        == identity::int_eval(rhs, v) by {
        let (l, m, p, s, u) = (v[0], v[1], v[2], v[3], v[4]);
        assert(m * l == (l * m)) by (nonlinear_arith);
        expand_2_1(l, m, l);
        assert((l + m) * l == (l * l) + (l * m));
        assert((l + m) * l - p == l * l - p - u + (l * m + u));
    }
    identity::lemma_identity(lhs, rhs, env);
    let (lhs, rhs) = {
        let (l, m, p, s, u) = (Expr::Var(0), Expr::Var(1), Expr::Var(2), Expr::Var(3), Expr::Var(4));
        ((l + m) * m - s, m * m - s - u + (l * m + u))
    };
    assert forall|v: Seq<int>| v.len() == env.len() implies #[trigger] identity::int_eval(lhs, v)
        == identity::int_eval(rhs, v) by {
        let (l, m, p, s, u) = (v[0], v[1], v[2], v[3], v[4]);
        expand_2_1(l, m, m);
        assert((l + m) * m == (l * m) + (m * m));
        assert((l + m) * m - s == m * m - s - u + (l * m + u));
    }
    identity::lemma_identity(lhs, rhs, env);
}

/// A product from the second symmetric function.
pub proof fn product_from_pairs<R: Ring>(x1: R, x2: R, x3: R, w: R)
    requires
        x1.wf(),
        x2.wf(),
        x3.wf(),
        w.wf(),
    ensures
        x1 * x2 == x1 * x2 + x1 * x3 + x2 * x3 + w - ((x1 + x2) * x3 + w),
{
    reveal_with_fuel(identity::eval, 7);
    reveal_with_fuel(identity::int_eval, 7);
    let env = seq![x1, x2, x3, w];
    let (lhs, rhs) = {
        let (x1, x2, x3, w) = (Expr::Var(0), Expr::Var(1), Expr::Var(2), Expr::Var(3));
        (x1 * x2, x1 * x2 + x1 * x3 + x2 * x3 + w - ((x1 + x2) * x3 + w))
    };
    assert forall|v: Seq<int>| v.len() == env.len() implies #[trigger] identity::int_eval(lhs, v)
        == identity::int_eval(rhs, v) by {
        let (x1, x2, x3, w) = (v[0], v[1], v[2], v[3]);
        expand_2_1(x1, x2, x3);
        assert((x1 + x2) * x3 == (x1 * x3) + (x2 * x3));
        assert(x1 * x2 == x1 * x2 + x1 * x3 + x2 * x3 + w - ((x1 + x2) * x3 + w));
    }
    identity::lemma_identity(lhs, rhs, env);
}

/// A sum of two from a sum of three.
pub proof fn sum_from_triple<R: Ring>(x1: R, x2: R, x3: R)
    requires
        x1.wf(),
        x2.wf(),
        x3.wf(),
    ensures
        x1 + x2 + x3 - x3 == x1 + x2,
        x3 + x1 + x2 - x3 == x1 + x2,
{
    reveal_with_fuel(identity::eval, 5);
    reveal_with_fuel(identity::int_eval, 5);
    let env = seq![x1, x2, x3];
    let (lhs, rhs) = {
        let (x1, x2, x3) = (Expr::Var(0), Expr::Var(1), Expr::Var(2));
        (x1 + x2 + x3 - x3, x1 + x2)
    };
    assert forall|v: Seq<int>| v.len() == env.len() implies #[trigger] identity::int_eval(lhs, v)
        == identity::int_eval(rhs, v) by {
        let (x1, x2, x3) = (v[0], v[1], v[2]);
        assert(x1 + x2 + x3 - x3 == x1 + x2);
    }
    identity::lemma_identity(lhs, rhs, env);
    let (lhs, rhs) = {
        let (x1, x2, x3) = (Expr::Var(0), Expr::Var(1), Expr::Var(2));
        (x3 + x1 + x2 - x3, x1 + x2)
    };
    assert forall|v: Seq<int>| v.len() == env.len() implies #[trigger] identity::int_eval(lhs, v)
        == identity::int_eval(rhs, v) by {
        let (x1, x2, x3) = (v[0], v[1], v[2]);
        assert(x3 + x1 + x2 - x3 == x1 + x2);
    }
    identity::lemma_identity(lhs, rhs, env);
}

/// The constant coefficient of a conic, from either of its lines.
pub proof fn conic_constant<R: Ring>(l: R, m: R, n: R, u: R)
    requires
        l.wf(),
        m.wf(),
        n.wf(),
        u.wf(),
    ensures
        R::zero_spec() - ((l * l - u) * u + (l * n + l * n)) + (l + m) * n == R::zero_spec() - ((m * m - u) * u + (m * (R::zero_spec() - (l + m) * u - n) + m * (R::zero_spec() - (l + m) * u - n))) + (l + m) * (R::zero_spec() - (l + m) * u - n),
{
    reveal_with_fuel(identity::eval, 11);
    reveal_with_fuel(identity::int_eval, 11);
    let env = seq![l, m, n, u];
    let (lhs, rhs) = {
        let (l, m, n, u) = (Expr::Var(0), Expr::Var(1), Expr::Var(2), Expr::Var(3));
        (Expr::Int(0) - ((l * l - u) * u + (l * n + l * n)) + (l + m) * n, Expr::Int(0) - ((m * m - u) * u + (m * (Expr::Int(0) - (l + m) * u - n) + m * (Expr::Int(0) - (l + m) * u - n))) + (l + m) * (Expr::Int(0) - (l + m) * u - n))
    };
    assert forall|v: Seq<int>| v.len() == env.len() implies #[trigger] identity::int_eval(lhs, v)
        == identity::int_eval(rhs, v) by {
        let (l, m, n, u) = (v[0], v[1], v[2], v[3]);
        assert((l * l) * u == (l * l * u)) by (nonlinear_arith);
        assert(((-1) * (u)) * u == ((-1) * (u * u))) by (nonlinear_arith);
        expand_2_1((l * l), ((-1) * (u)), u);
        assert(l * l - u == (l * l) + ((-1) * (u)));
        assert((l * l - u) * u == (l * l * u) + ((-1) * (u * u)));
        expand_2_1(l, m, n);
        assert((l + m) * n == (l * n) + (m * n));
        assert((m * m) * u == (m * m * u)) by (nonlinear_arith);
        expand_2_1((m * m), ((-1) * (u)), u);
        assert(m * m - u == (m * m) + ((-1) * (u)));
        assert((m * m - u) * u == (m * m * u) + ((-1) * (u * u)));
        expand_2_1(l, m, u);
        assert((l + m) * u == (l * u) + (m * u));
        assert(m * ((-1) * (l * u)) == ((-1) * (l * m * u))) by (nonlinear_arith);
        assert(m * ((-1) * (m * u)) == ((-1) * (m * m * u))) by (nonlinear_arith);
        assert(m * ((-1) * (n)) == ((-1) * (m * n))) by (nonlinear_arith);
        expand_1_3(m, ((-1) * (l * u)), ((-1) * (m * u)), ((-1) * (n)));
        assert(0 - (l + m) * u - n == ((-1) * (l * u)) + ((-1) * (m * u)) + ((-1) * (n)));
        assert(m * (0 - (l + m) * u - n) == ((-1) * (l * m * u)) + ((-1) * (m * m * u)) + ((-1) * (m * n)));
        assert(l * ((-1) * (l * u)) == ((-1) * (l * l * u))) by (nonlinear_arith);
        assert(l * ((-1) * (m * u)) == ((-1) * (l * m * u))) by (nonlinear_arith);
        assert(l * ((-1) * (n)) == ((-1) * (l * n))) by (nonlinear_arith);
        expand_2_3(l, m, ((-1) * (l * u)), ((-1) * (m * u)), ((-1) * (n)));
        assert((l + m) * (0 - (l + m) * u - n) == ((-1) * (l * l * u)) + ((-2) * (l * m * u)) + ((-1) * (l * n)) + ((-1) * (m * m * u)) + ((-1) * (m * n)));
        assert(0 - ((l * l - u) * u + (l * n + l * n)) + (l + m) * n == 0 - ((m * m - u) * u + (m * (0 - (l + m) * u - n) + m * (0 - (l + m) * u - n))) + (l + m) * (0 - (l + m) * u - n));
    }
    identity::lemma_identity(lhs, rhs, env);
}

/// A conic at an abscissa of one of its lines.
pub proof fn conic_at_root<R: Ring>(x: R, y: R, l: R, n: R, s: R)
    requires
        x.wf(),
        y.wf(),
        l.wf(),
        n.wf(),
        s.wf(),
    ensures
        x * x + (s * l - (x + y)) * x + (x * y + s * n) == s * (l * x + n),
        y * y + (s * l - (x + y)) * y + (x * y + s * n) == s * (l * y + n),
{
    reveal_with_fuel(identity::eval, 7);
    reveal_with_fuel(identity::int_eval, 7);
    let env = seq![x, y, l, n, s];
    let (lhs, rhs) = {
        let (x, y, l, n, s) = (Expr::Var(0), Expr::Var(1), Expr::Var(2), Expr::Var(3), Expr::Var(4));
        (x * x + (s * l - (x + y)) * x + (x * y + s * n), s * (l * x + n))
    };
    assert forall|v: Seq<int>| v.len() == env.len() implies #[trigger] identity::int_eval(lhs, v)
        == identity::int_eval(rhs, v) by {
        let (x, y, l, n, s) = (v[0], v[1], v[2], v[3], v[4]);
        assert(s * l == l * s) by (nonlinear_arith);
        assert((l * s) * x == (x * l * s)) by (nonlinear_arith);
        assert(((-1) * (x)) * x == ((-1) * (x * x))) by (nonlinear_arith);
        assert(((-1) * (y)) * x == ((-1) * (x * y))) by (nonlinear_arith);
        expand_3_1((l * s), ((-1) * (x)), ((-1) * (y)), x);
        assert(s * l - (x + y) == (l * s) + ((-1) * (x)) + ((-1) * (y)));
        assert((s * l - (x + y)) * x == (x * l * s) + ((-1) * (x * x)) + ((-1) * (x * y)));
        assert(s * n == n * s) by (nonlinear_arith);
        assert(l * x == x * l) by (nonlinear_arith);
        assert(s * (x * l) == (x * l * s)) by (nonlinear_arith);
        expand_1_2(s, (x * l), n);
        assert(l * x + n == (x * l) + n);
        assert(s * (l * x + n) == (x * l * s) + (n * s));
        assert(x * x + (s * l - (x + y)) * x + (x * y + s * n) == s * (l * x + n));
    }
    identity::lemma_identity(lhs, rhs, env);
    let (lhs, rhs) = {
        let (x, y, l, n, s) = (Expr::Var(0), Expr::Var(1), Expr::Var(2), Expr::Var(3), Expr::Var(4));
        (y * y + (s * l - (x + y)) * y + (x * y + s * n), s * (l * y + n))
    };
    assert forall|v: Seq<int>| v.len() == env.len() implies #[trigger] identity::int_eval(lhs, v)
        == identity::int_eval(rhs, v) by {
        let (x, y, l, n, s) = (v[0], v[1], v[2], v[3], v[4]);
        assert(s * l == l * s) by (nonlinear_arith);
        assert((l * s) * y == (y * l * s)) by (nonlinear_arith);
        assert(((-1) * (x)) * y == ((-1) * (x * y))) by (nonlinear_arith);
        assert(((-1) * (y)) * y == ((-1) * (y * y))) by (nonlinear_arith);
        expand_3_1((l * s), ((-1) * (x)), ((-1) * (y)), y);
        assert(s * l - (x + y) == (l * s) + ((-1) * (x)) + ((-1) * (y)));
        assert((s * l - (x + y)) * y == (y * l * s) + ((-1) * (x * y)) + ((-1) * (y * y)));
        assert(s * n == n * s) by (nonlinear_arith);
        assert(l * y == y * l) by (nonlinear_arith);
        assert(s * (y * l) == (y * l * s)) by (nonlinear_arith);
        expand_1_2(s, (y * l), n);
        assert(l * y + n == (y * l) + n);
        assert(s * (l * y + n) == (y * l * s) + (n * s));
        assert(y * y + (s * l - (x + y)) * y + (x * y + s * n) == s * (l * y + n));
    }
    identity::lemma_identity(lhs, rhs, env);
}

/// Twice the middle coefficient.
pub proof fn conic_trace<R: Ring>(s: R, l: R, m: R, p: R, q: R)
    requires
        s.wf(),
        l.wf(),
        m.wf(),
        p.wf(),
        q.wf(),
    ensures
        s * l - p + (s * m - q) == s * (l + m) - (p + q),
{
    reveal_with_fuel(identity::eval, 5);
    reveal_with_fuel(identity::int_eval, 5);
    let env = seq![s, l, m, p, q];
    let (lhs, rhs) = {
        let (s, l, m, p, q) = (Expr::Var(0), Expr::Var(1), Expr::Var(2), Expr::Var(3), Expr::Var(4));
        (s * l - p + (s * m - q), s * (l + m) - (p + q))
    };
    assert forall|v: Seq<int>| v.len() == env.len() implies #[trigger] identity::int_eval(lhs, v)
        == identity::int_eval(rhs, v) by {
        let (s, l, m, p, q) = (v[0], v[1], v[2], v[3], v[4]);
        expand_1_2(s, l, m);
        assert(s * (l + m) == (s * l) + (s * m));
        assert(s * l - p + (s * m - q) == s * (l + m) - (p + q));
    }
    identity::lemma_identity(lhs, rhs, env);
}

/// The difference of two conics.
pub proof fn conic_difference<R: Ring>(x: R, s: R, t: R, b: R, c: R, d: R, e: R)
    requires
        x.wf(),
        s.wf(),
        t.wf(),
        b.wf(),
        c.wf(),
        d.wf(),
        e.wf(),
    ensures
        (t - s) * (x * x) + (t * b - s * d) * x + (t * c - s * e) == t * (x * x + b * x + c) - s * (x * x + d * x + e),
{
    reveal_with_fuel(identity::eval, 7);
    reveal_with_fuel(identity::int_eval, 7);
    let env = seq![x, s, t, b, c, d, e];
    let (lhs, rhs) = {
        let (x, s, t, b, c, d, e) = (Expr::Var(0), Expr::Var(1), Expr::Var(2), Expr::Var(3), Expr::Var(4), Expr::Var(5), Expr::Var(6));
        ((t - s) * (x * x) + (t * b - s * d) * x + (t * c - s * e), t * (x * x + b * x + c) - s * (x * x + d * x + e))
    };
    assert forall|v: Seq<int>| v.len() == env.len() implies #[trigger] identity::int_eval(lhs, v)
        == identity::int_eval(rhs, v) by {
        let (x, s, t, b, c, d, e) = (v[0], v[1], v[2], v[3], v[4], v[5], v[6]);
        assert(t * (x * x) == (x * x * t)) by (nonlinear_arith);
        assert(((-1) * (s)) * (x * x) == ((-1) * (x * x * s))) by (nonlinear_arith);
        expand_2_1(t, ((-1) * (s)), (x * x));
        assert(t - s == t + ((-1) * (s)));
        assert(x * x == (x * x));
        assert((t - s) * (x * x) == (x * x * t) + ((-1) * (x * x * s)));
        assert((t * b) * x == (x * t * b)) by (nonlinear_arith);
        assert(((-1) * (s * d)) * x == ((-1) * (x * s * d))) by (nonlinear_arith);
        expand_2_1((t * b), ((-1) * (s * d)), x);
        assert(t * b - s * d == (t * b) + ((-1) * (s * d)));
        assert((t * b - s * d) * x == (x * t * b) + ((-1) * (x * s * d)));
        assert(b * x == x * b) by (nonlinear_arith);
        assert(t * (x * b) == (x * t * b)) by (nonlinear_arith);
        expand_1_3(t, (x * x), (x * b), c);
        assert(x * x + b * x + c == (x * x) + (x * b) + c);
        assert(t * (x * x + b * x + c) == (x * x * t) + (x * t * b) + (t * c));
        assert(d * x == x * d) by (nonlinear_arith);
        assert(s * (x * x) == (x * x * s)) by (nonlinear_arith);
        assert(s * (x * d) == (x * s * d)) by (nonlinear_arith);
        expand_1_3(s, (x * x), (x * d), e);
        assert(x * x + d * x + e == (x * x) + (x * d) + e);
        assert(s * (x * x + d * x + e) == (x * x * s) + (x * s * d) + (s * e));
        assert((t - s) * (x * x) + (t * b - s * d) * x + (t * c - s * e) == t * (x * x + b * x + c) - s * (x * x + d * x + e));
    }
    identity::lemma_identity(lhs, rhs, env);
}

/// A quadratic at two abscissae.
pub proof fn quadratic_difference<R: Ring>(f: R, g: R, h: R, x: R, y: R)
    requires
        f.wf(),
        g.wf(),
        h.wf(),
        x.wf(),
        y.wf(),
    ensures
        (x - y) * (f * (x + y) + g) == f * (x * x) + g * x + h - (f * (y * y) + g * y + h),
{
    reveal_with_fuel(identity::eval, 7);
    reveal_with_fuel(identity::int_eval, 7);
    let env = seq![f, g, h, x, y];
    let (lhs, rhs) = {
        let (f, g, h, x, y) = (Expr::Var(0), Expr::Var(1), Expr::Var(2), Expr::Var(3), Expr::Var(4));
        ((x - y) * (f * (x + y) + g), f * (x * x) + g * x + h - (f * (y * y) + g * y + h))
    };
    assert forall|v: Seq<int>| v.len() == env.len() implies #[trigger] identity::int_eval(lhs, v)
        == identity::int_eval(rhs, v) by {
        let (f, g, h, x, y) = (v[0], v[1], v[2], v[3], v[4]);
        expand_1_2(f, x, y);
        assert(f * (x + y) == (f * x) + (f * y));
        assert(x * (f * x) == (f * x * x)) by (nonlinear_arith);
        assert(x * (f * y) == (f * x * y)) by (nonlinear_arith);
        assert(x * g == (g * x)) by (nonlinear_arith);
        assert(((-1) * (y)) * (f * x) == ((-1) * (f * x * y))) by (nonlinear_arith);
        assert(((-1) * (y)) * (f * y) == ((-1) * (f * y * y))) by (nonlinear_arith);
        assert(((-1) * (y)) * g == ((-1) * (g * y))) by (nonlinear_arith);
        expand_2_3(x, ((-1) * (y)), (f * x), (f * y), g);
        assert(f * (x + y) + g == (f * x) + (f * y) + g);
        assert(x - y == x + ((-1) * (y)));
        assert((x - y) * (f * (x + y) + g) == (f * x * x) + (g * x) + ((-1) * (f * y * y)) + ((-1) * (g * y)));
        assert(f * (x * x) == f * x * x) by (nonlinear_arith);
        assert(f * (y * y) == f * y * y) by (nonlinear_arith);
        assert((x - y) * (f * (x + y) + g) == f * (x * x) + g * x + h - (f * (y * y) + g * y + h));
    }
    identity::lemma_identity(lhs, rhs, env);
}

/// Two secants of a quadratic.
pub proof fn secant_difference<R: Ring>(f: R, g: R, x: R, y: R, z: R)
    requires
        f.wf(),
        g.wf(),
        x.wf(),
        y.wf(),
        z.wf(),
    ensures
        f * (y - z) == f * (x + y) + g - (f * (x + z) + g),
{
    reveal_with_fuel(identity::eval, 6);
    reveal_with_fuel(identity::int_eval, 6);
    let env = seq![f, g, x, y, z];
    let (lhs, rhs) = {
        let (f, g, x, y, z) = (Expr::Var(0), Expr::Var(1), Expr::Var(2), Expr::Var(3), Expr::Var(4));
        (f * (y - z), f * (x + y) + g - (f * (x + z) + g))
    };
    assert forall|v: Seq<int>| v.len() == env.len() implies #[trigger] identity::int_eval(lhs, v)
        == identity::int_eval(rhs, v) by {
        let (f, g, x, y, z) = (v[0], v[1], v[2], v[3], v[4]);
        assert(f * ((-1) * (z)) == ((-1) * (f * z))) by (nonlinear_arith);
        expand_1_2(f, y, ((-1) * (z)));
        assert(y - z == y + ((-1) * (z)));
        assert(f * (y - z) == (f * y) + ((-1) * (f * z)));
        expand_1_2(f, x, y);
        assert(f * (x + y) == (f * x) + (f * y));
        expand_1_2(f, x, z);
        assert(f * (x + z) == (f * x) + (f * z));
        assert(f * (y - z) == f * (x + y) + g - (f * (x + z) + g));
    }
    identity::lemma_identity(lhs, rhs, env);
}

/// A monic quadratic moved to another abscissa.
pub proof fn shifted_conic<R: Ring>(x: R, c: R, b: R, g: R)
    requires
        x.wf(),
        c.wf(),
        b.wf(),
        g.wf(),
    ensures
        c * c + b * c + g == x * x + b * x + g + (c - x) * (c + x + b),
{
    reveal_with_fuel(identity::eval, 6);
    reveal_with_fuel(identity::int_eval, 6);
    let env = seq![x, c, b, g];
    let (lhs, rhs) = {
        let (x, c, b, g) = (Expr::Var(0), Expr::Var(1), Expr::Var(2), Expr::Var(3));
        (c * c + b * c + g, x * x + b * x + g + (c - x) * (c + x + b))
    };
    assert forall|v: Seq<int>| v.len() == env.len() implies #[trigger] identity::int_eval(lhs, v)
        == identity::int_eval(rhs, v) by {
        let (x, c, b, g) = (v[0], v[1], v[2], v[3]);
        assert(b * c == c * b) by (nonlinear_arith);
        assert(b * x == x * b) by (nonlinear_arith);
        assert(c * x == (x * c)) by (nonlinear_arith);
        assert(((-1) * (x)) * c == ((-1) * (x * c))) by (nonlinear_arith);
        assert(((-1) * (x)) * x == ((-1) * (x * x))) by (nonlinear_arith);
        assert(((-1) * (x)) * b == ((-1) * (x * b))) by (nonlinear_arith);
        expand_2_3(c, ((-1) * (x)), c, x, b);
        assert(c - x == c + ((-1) * (x)));
        assert((c - x) * (c + x + b) == (c * c) + (c * b) + ((-1) * (x * x)) + ((-1) * (x * b)));
        assert(c * c + b * c + g == x * x + b * x + g + (c - x) * (c + x + b));
    }
    identity::lemma_identity(lhs, rhs, env);
}

/// Two conics that touch at a point, away from it.
pub proof fn tangent_conics<R: Ring>(s: R, t: R, y: R, e: R, l: R)
    requires
        s.wf(),
        t.wf(),
        y.wf(),
        e.wf(),
        l.wf(),
    ensures
        t * (s * y + e * (e + s * l)) - s * (t * y + e * (e + t * l)) == (t - s) * (e * e),
{
    reveal_with_fuel(identity::eval, 8);
    reveal_with_fuel(identity::int_eval, 8);
    let env = seq![s, t, y, e, l];
    let (lhs, rhs) = {
        let (s, t, y, e, l) = (Expr::Var(0), Expr::Var(1), Expr::Var(2), Expr::Var(3), Expr::Var(4));
        (t * (s * y + e * (e + s * l)) - s * (t * y + e * (e + t * l)), (t - s) * (e * e))
    };
    assert forall|v: Seq<int>| v.len() == env.len() implies #[trigger] identity::int_eval(lhs, v)
        == identity::int_eval(rhs, v) by {
        let (s, t, y, e, l) = (v[0], v[1], v[2], v[3], v[4]);
        assert(e * (s * l) == (s * e * l)) by (nonlinear_arith);
        expand_1_2(e, e, (s * l));
        assert(e + s * l == e + (s * l));
        assert(e * (e + s * l) == (e * e) + (s * e * l));
        assert(t * (s * y) == (s * t * y)) by (nonlinear_arith);
        assert(t * (e * e) == (t * e * e)) by (nonlinear_arith);
        assert(t * (s * e * l) == (s * t * e * l)) by (nonlinear_arith);
        expand_1_3(t, (s * y), (e * e), (s * e * l));
        assert(s * y + e * (e + s * l) == (s * y) + (e * e) + (s * e * l));
        assert(t * (s * y + e * (e + s * l)) == (s * t * y) + (t * e * e) + (s * t * e * l));
        assert(e * (t * l) == (t * e * l)) by (nonlinear_arith);
        expand_1_2(e, e, (t * l));
        assert(e + t * l == e + (t * l));
        assert(e * (e + t * l) == (e * e) + (t * e * l));
        assert(s * (t * y) == (s * t * y)) by (nonlinear_arith);
        assert(s * (e * e) == (s * e * e)) by (nonlinear_arith);
        assert(s * (t * e * l) == (s * t * e * l)) by (nonlinear_arith);
        expand_1_3(s, (t * y), (e * e), (t * e * l));
        assert(t * y + e * (e + t * l) == (t * y) + (e * e) + (t * e * l));
        assert(s * (t * y + e * (e + t * l)) == (s * t * y) + (s * e * e) + (s * t * e * l));
        assert(((-1) * (s)) * (e * e) == ((-1) * (s * e * e))) by (nonlinear_arith);
        expand_2_1(t, ((-1) * (s)), (e * e));
        assert(e * e == (e * e));
        assert(t - s == t + ((-1) * (s)));
        assert((t - s) * (e * e) == (t * e * e) + ((-1) * (s * e * e)));
        assert(t * (s * y + e * (e + s * l)) - s * (t * y + e * (e + t * l)) == (t - s) * (e * e));
    }
    identity::lemma_identity(lhs, rhs, env);
}

/// The secant sum of a tangent conic.
pub proof fn tangent_shift<R: Ring>(x: R, c: R, s: R, l: R)
    requires
        x.wf(),
        c.wf(),
        s.wf(),
        l.wf(),
    ensures
        c + x + (s * l - (x + x)) == c - x + s * l,
{
    reveal_with_fuel(identity::eval, 5);
    reveal_with_fuel(identity::int_eval, 5);
    let env = seq![x, c, s, l];
    let (lhs, rhs) = {
        let (x, c, s, l) = (Expr::Var(0), Expr::Var(1), Expr::Var(2), Expr::Var(3));
        (c + x + (s * l - (x + x)), c - x + s * l)
    };
    assert forall|v: Seq<int>| v.len() == env.len() implies #[trigger] identity::int_eval(lhs, v)
        == identity::int_eval(rhs, v) by {
        let (x, c, s, l) = (v[0], v[1], v[2], v[3]);
        assert(c + x + (s * l - (x + x)) == c - x + s * l);
    }
    identity::lemma_identity(lhs, rhs, env);
}

/// The middle coefficient of a tangent conic.
pub proof fn tangent_middle<R: Ring>(t: R, l: R, m: R, x: R, c: R)
    requires
        t.wf(),
        l.wf(),
        m.wf(),
        x.wf(),
        c.wf(),
    ensures
        t * m - (x + c) == t * l - (x + x) + (x - c - (l - m) * t),
{
    reveal_with_fuel(identity::eval, 6);
    reveal_with_fuel(identity::int_eval, 6);
    let env = seq![t, l, m, x, c];
    let (lhs, rhs) = {
        let (t, l, m, x, c) = (Expr::Var(0), Expr::Var(1), Expr::Var(2), Expr::Var(3), Expr::Var(4));
        (t * m - (x + c), t * l - (x + x) + (x - c - (l - m) * t))
    };
    assert forall|v: Seq<int>| v.len() == env.len() implies #[trigger] identity::int_eval(lhs, v)
        == identity::int_eval(rhs, v) by {
        let (t, l, m, x, c) = (v[0], v[1], v[2], v[3], v[4]);
        assert(l * t == (t * l)) by (nonlinear_arith);
        assert(((-1) * (m)) * t == ((-1) * (t * m))) by (nonlinear_arith);
        expand_2_1(l, ((-1) * (m)), t);
        assert(l - m == l + ((-1) * (m)));
        assert((l - m) * t == (t * l) + ((-1) * (t * m)));
        assert(t * m - (x + c) == t * l - (x + x) + (x - c - (l - m) * t));
    }
    identity::lemma_identity(lhs, rhs, env);
}

/// Distribution over a difference.
pub proof fn distribute_three<R: Ring>(a: R, b: R, c: R)
    requires
        a.wf(),
        b.wf(),
        c.wf(),
    ensures
        (a - b) * c == a * c - b * c,
        c * (a - b) == c * a - c * b,
        a * b * c == a * c * b,
{
    reveal_with_fuel(identity::eval, 4);
    reveal_with_fuel(identity::int_eval, 4);
    let env = seq![a, b, c];
    let (lhs, rhs) = {
        let (a, b, c) = (Expr::Var(0), Expr::Var(1), Expr::Var(2));
        ((a - b) * c, a * c - b * c)
    };
    assert forall|v: Seq<int>| v.len() == env.len() implies #[trigger] identity::int_eval(lhs, v)
        == identity::int_eval(rhs, v) by {
        let (a, b, c) = (v[0], v[1], v[2]);
        assert(((-1) * (b)) * c == ((-1) * (b * c))) by (nonlinear_arith);
        expand_2_1(a, ((-1) * (b)), c);
        assert(a - b == a + ((-1) * (b)));
        assert((a - b) * c == (a * c) + ((-1) * (b * c)));
        assert((a - b) * c == a * c - b * c);
    }
    identity::lemma_identity(lhs, rhs, env);
    let (lhs, rhs) = {
        let (a, b, c) = (Expr::Var(0), Expr::Var(1), Expr::Var(2));
        (c * (a - b), c * a - c * b)
    };
    assert forall|v: Seq<int>| v.len() == env.len() implies #[trigger] identity::int_eval(lhs, v)
        == identity::int_eval(rhs, v) by {
        let (a, b, c) = (v[0], v[1], v[2]);
        assert(c * a == (a * c)) by (nonlinear_arith);
        assert(c * ((-1) * (b)) == ((-1) * (b * c))) by (nonlinear_arith);
        expand_1_2(c, a, ((-1) * (b)));
        assert(a - b == a + ((-1) * (b)));
        assert(c * (a - b) == (a * c) + ((-1) * (b * c)));
        assert(c * b == b * c) by (nonlinear_arith);
        assert(c * (a - b) == c * a - c * b);
    }
    identity::lemma_identity(lhs, rhs, env);
    let (lhs, rhs) = {
        let (a, b, c) = (Expr::Var(0), Expr::Var(1), Expr::Var(2));
        (a * b * c, a * c * b)
    };
    assert forall|v: Seq<int>| v.len() == env.len() implies #[trigger] identity::int_eval(lhs, v)
        == identity::int_eval(rhs, v) by {
        let (a, b, c) = (v[0], v[1], v[2]);
        assert(a * c * b == a * b * c) by (nonlinear_arith);
        assert(a * b * c == a * c * b);
    }
    identity::lemma_identity(lhs, rhs, env);
}

/// A sum of four, reordered.
pub proof fn four_sums<R: Ring>(a: R, b: R, c: R, d: R)
    requires
        a.wf(),
        b.wf(),
        c.wf(),
        d.wf(),
    ensures
        a + b + (c + d) == b + c + (a + d),
{
    reveal_with_fuel(identity::eval, 4);
    reveal_with_fuel(identity::int_eval, 4);
    let env = seq![a, b, c, d];
    let (lhs, rhs) = {
        let (a, b, c, d) = (Expr::Var(0), Expr::Var(1), Expr::Var(2), Expr::Var(3));
        (a + b + (c + d), b + c + (a + d))
    };
    assert forall|v: Seq<int>| v.len() == env.len() implies #[trigger] identity::int_eval(lhs, v)
        == identity::int_eval(rhs, v) by {
        let (a, b, c, d) = (v[0], v[1], v[2], v[3]);
        assert(a + b + (c + d) == b + c + (a + d));
    }
    identity::lemma_identity(lhs, rhs, env);
}

/// A subtraction undone.
pub proof fn fourth_root<R: Ring>(q: R, a: R)
    requires
        q.wf(),
        a.wf(),
    ensures
        q - (q - a) == a,
{
    reveal_with_fuel(identity::eval, 4);
    reveal_with_fuel(identity::int_eval, 4);
    let env = seq![q, a];
    let (lhs, rhs) = {
        let (q, a) = (Expr::Var(0), Expr::Var(1));
        (q - (q - a), a)
    };
    assert forall|v: Seq<int>| v.len() == env.len() implies #[trigger] identity::int_eval(lhs, v)
        == identity::int_eval(rhs, v) by {
        let (q, a) = (v[0], v[1]);
        assert(q - (q - a) == a);
    }
    identity::lemma_identity(lhs, rhs, env);
}

/// A difference of squares.
pub proof fn squares_difference<R: Ring>(a: R, b: R)
    requires
        a.wf(),
        b.wf(),
    ensures
        (a - b) * (a + b) == a * a - b * b,
{
    reveal_with_fuel(identity::eval, 4);
    reveal_with_fuel(identity::int_eval, 4);
    let env = seq![a, b];
    let (lhs, rhs) = {
        let (a, b) = (Expr::Var(0), Expr::Var(1));
        ((a - b) * (a + b), a * a - b * b)
    };
    assert forall|v: Seq<int>| v.len() == env.len() implies #[trigger] identity::int_eval(lhs, v)
        == identity::int_eval(rhs, v) by {
        let (a, b) = (v[0], v[1]);
        assert(((-1) * (b)) * a == ((-1) * (a * b))) by (nonlinear_arith);
        assert(((-1) * (b)) * b == ((-1) * (b * b))) by (nonlinear_arith);
        expand_2_2(a, ((-1) * (b)), a, b);
        assert(a - b == a + ((-1) * (b)));
        assert((a - b) * (a + b) == (a * a) + ((-1) * (b * b)));
        assert((a - b) * (a + b) == a * a - b * b);
    }
    identity::lemma_identity(lhs, rhs, env);
}

/// Adding a negative.
pub proof fn add_negative<R: Ring>(a: R, b: R)
    requires
        a.wf(),
        b.wf(),
    ensures
        a + (R::zero_spec() - b) == a - b,
{
    reveal_with_fuel(identity::eval, 4);
    reveal_with_fuel(identity::int_eval, 4);
    let env = seq![a, b];
    let (lhs, rhs) = {
        let (a, b) = (Expr::Var(0), Expr::Var(1));
        (a + (Expr::Int(0) - b), a - b)
    };
    assert forall|v: Seq<int>| v.len() == env.len() implies #[trigger] identity::int_eval(lhs, v)
        == identity::int_eval(rhs, v) by {
        let (a, b) = (v[0], v[1]);
        assert(a + (0 - b) == a - b);
    }
    identity::lemma_identity(lhs, rhs, env);
}

/// Subtracting zero.
pub proof fn minus_zero<R: Ring>(a: R)
    requires
        a.wf(),
    ensures
        a - R::zero_spec() == a,
{
    reveal_with_fuel(identity::eval, 3);
    reveal_with_fuel(identity::int_eval, 3);
    let env = seq![a];
    let (lhs, rhs) = {
        let a = Expr::Var(0);
        (a - Expr::Int(0), a)
    };
    assert forall|v: Seq<int>| v.len() == env.len() implies #[trigger] identity::int_eval(lhs, v)
        == identity::int_eval(rhs, v) by {
        let a = v[0];
        assert(a - 0 == a);
    }
    identity::lemma_identity(lhs, rhs, env);
}

/// Zero minus a sum.
pub proof fn zero_minus<R: Ring>(a: R, b: R)
    requires
        a.wf(),
        b.wf(),
    ensures
        a + b - (a + b) == R::zero_spec(),
        a - a == R::zero_spec(),
{
    reveal_with_fuel(identity::eval, 4);
    reveal_with_fuel(identity::int_eval, 4);
    let env = seq![a, b];
    let (lhs, rhs) = {
        let (a, b) = (Expr::Var(0), Expr::Var(1));
        (a + b - (a + b), Expr::Int(0))
    };
    assert forall|v: Seq<int>| v.len() == env.len() implies #[trigger] identity::int_eval(lhs, v)
        == identity::int_eval(rhs, v) by {
        let (a, b) = (v[0], v[1]);
        assert(a + b - (a + b) == 0);
    }
    identity::lemma_identity(lhs, rhs, env);
    let (lhs, rhs) = {
        let (a, b) = (Expr::Var(0), Expr::Var(1));
        (a - a, Expr::Int(0))
    };
    assert forall|v: Seq<int>| v.len() == env.len() implies #[trigger] identity::int_eval(lhs, v)
        == identity::int_eval(rhs, v) by {
        let (a, b) = (v[0], v[1]);
        assert(a - a == 0);
    }
    identity::lemma_identity(lhs, rhs, env);
}

/// Products of pairs associate.
pub proof fn complex_associates<R: Ring>(a0: R, a1: R, b0: R, b1: R, c0: R, c1: R)
    requires
        a0.wf(),
        a1.wf(),
        b0.wf(),
        b1.wf(),
        c0.wf(),
        c1.wf(),
    ensures
        (a0 * b0 - a1 * b1) * c0 - (a0 * b1 + a1 * b0) * c1 == a0 * (b0 * c0 - b1 * c1) - a1 * (b0 * c1 + b1 * c0),
        (a0 * b0 - a1 * b1) * c1 + (a0 * b1 + a1 * b0) * c0 == a0 * (b0 * c1 + b1 * c0) + a1 * (b0 * c0 - b1 * c1),
{
    reveal_with_fuel(identity::eval, 6);
    reveal_with_fuel(identity::int_eval, 6);
    let env = seq![a0, a1, b0, b1, c0, c1];
    let (lhs, rhs) = {
        let (a0, a1, b0, b1, c0, c1) = (Expr::Var(0), Expr::Var(1), Expr::Var(2), Expr::Var(3), Expr::Var(4), Expr::Var(5));
        ((a0 * b0 - a1 * b1) * c0 - (a0 * b1 + a1 * b0) * c1, a0 * (b0 * c0 - b1 * c1) - a1 * (b0 * c1 + b1 * c0))
    };
    assert forall|v: Seq<int>| v.len() == env.len() implies #[trigger] identity::int_eval(lhs, v)
        == identity::int_eval(rhs, v) by {
        let (a0, a1, b0, b1, c0, c1) = (v[0], v[1], v[2], v[3], v[4], v[5]);
        assert((a0 * b0) * c0 == (a0 * b0 * c0)) by (nonlinear_arith);
        assert(((-1) * (a1 * b1)) * c0 == ((-1) * (a1 * b1 * c0))) by (nonlinear_arith);
        expand_2_1((a0 * b0), ((-1) * (a1 * b1)), c0);
        assert(a0 * b0 - a1 * b1 == (a0 * b0) + ((-1) * (a1 * b1)));
        assert((a0 * b0 - a1 * b1) * c0 == (a0 * b0 * c0) + ((-1) * (a1 * b1 * c0)));
        assert((a0 * b1) * c1 == (a0 * b1 * c1)) by (nonlinear_arith);
        assert((a1 * b0) * c1 == (a1 * b0 * c1)) by (nonlinear_arith);
        expand_2_1((a0 * b1), (a1 * b0), c1);
        assert(a0 * b1 + a1 * b0 == (a0 * b1) + (a1 * b0));
        assert((a0 * b1 + a1 * b0) * c1 == (a0 * b1 * c1) + (a1 * b0 * c1));
        assert(a0 * (b0 * c0) == (a0 * b0 * c0)) by (nonlinear_arith);
        assert(a0 * ((-1) * (b1 * c1)) == ((-1) * (a0 * b1 * c1))) by (nonlinear_arith);
        expand_1_2(a0, (b0 * c0), ((-1) * (b1 * c1)));
        assert(b0 * c0 - b1 * c1 == (b0 * c0) + ((-1) * (b1 * c1)));
        assert(a0 * (b0 * c0 - b1 * c1) == (a0 * b0 * c0) + ((-1) * (a0 * b1 * c1)));
        assert(a1 * (b0 * c1) == (a1 * b0 * c1)) by (nonlinear_arith);
        assert(a1 * (b1 * c0) == (a1 * b1 * c0)) by (nonlinear_arith);
        expand_1_2(a1, (b0 * c1), (b1 * c0));
        assert(b0 * c1 + b1 * c0 == (b0 * c1) + (b1 * c0));
        assert(a1 * (b0 * c1 + b1 * c0) == (a1 * b0 * c1) + (a1 * b1 * c0));
        assert((a0 * b0 - a1 * b1) * c0 - (a0 * b1 + a1 * b0) * c1 == a0 * (b0 * c0 - b1 * c1) - a1 * (b0 * c1 + b1 * c0));
    }
    identity::lemma_identity(lhs, rhs, env);
    let (lhs, rhs) = {
        let (a0, a1, b0, b1, c0, c1) = (Expr::Var(0), Expr::Var(1), Expr::Var(2), Expr::Var(3), Expr::Var(4), Expr::Var(5));
        ((a0 * b0 - a1 * b1) * c1 + (a0 * b1 + a1 * b0) * c0, a0 * (b0 * c1 + b1 * c0) + a1 * (b0 * c0 - b1 * c1))
    };
    assert forall|v: Seq<int>| v.len() == env.len() implies #[trigger] identity::int_eval(lhs, v)
        == identity::int_eval(rhs, v) by {
        let (a0, a1, b0, b1, c0, c1) = (v[0], v[1], v[2], v[3], v[4], v[5]);
        assert((a0 * b0) * c1 == (a0 * b0 * c1)) by (nonlinear_arith);
        assert(((-1) * (a1 * b1)) * c1 == ((-1) * (a1 * b1 * c1))) by (nonlinear_arith);
        expand_2_1((a0 * b0), ((-1) * (a1 * b1)), c1);
        assert(a0 * b0 - a1 * b1 == (a0 * b0) + ((-1) * (a1 * b1)));
        assert((a0 * b0 - a1 * b1) * c1 == (a0 * b0 * c1) + ((-1) * (a1 * b1 * c1)));
        assert((a0 * b1) * c0 == (a0 * b1 * c0)) by (nonlinear_arith);
        assert((a1 * b0) * c0 == (a1 * b0 * c0)) by (nonlinear_arith);
        expand_2_1((a0 * b1), (a1 * b0), c0);
        assert(a0 * b1 + a1 * b0 == (a0 * b1) + (a1 * b0));
        assert((a0 * b1 + a1 * b0) * c0 == (a0 * b1 * c0) + (a1 * b0 * c0));
        assert(a0 * (b0 * c1) == (a0 * b0 * c1)) by (nonlinear_arith);
        assert(a0 * (b1 * c0) == (a0 * b1 * c0)) by (nonlinear_arith);
        expand_1_2(a0, (b0 * c1), (b1 * c0));
        assert(b0 * c1 + b1 * c0 == (b0 * c1) + (b1 * c0));
        assert(a0 * (b0 * c1 + b1 * c0) == (a0 * b0 * c1) + (a0 * b1 * c0));
        assert(a1 * (b0 * c0) == (a1 * b0 * c0)) by (nonlinear_arith);
        assert(a1 * ((-1) * (b1 * c1)) == ((-1) * (a1 * b1 * c1))) by (nonlinear_arith);
        expand_1_2(a1, (b0 * c0), ((-1) * (b1 * c1)));
        assert(b0 * c0 - b1 * c1 == (b0 * c0) + ((-1) * (b1 * c1)));
        assert(a1 * (b0 * c0 - b1 * c1) == (a1 * b0 * c0) + ((-1) * (a1 * b1 * c1)));
        assert((a0 * b0 - a1 * b1) * c1 + (a0 * b1 + a1 * b0) * c0 == a0 * (b0 * c1 + b1 * c0) + a1 * (b0 * c0 - b1 * c1));
    }
    identity::lemma_identity(lhs, rhs, env);
}

/// Products of pairs distribute.
pub proof fn complex_distributes<R: Ring>(a0: R, a1: R, b0: R, b1: R, c0: R, c1: R)
    requires
        a0.wf(),
        a1.wf(),
        b0.wf(),
        b1.wf(),
        c0.wf(),
        c1.wf(),
    ensures
        a0 * (b0 + c0) - a1 * (b1 + c1) == a0 * b0 - a1 * b1 + (a0 * c0 - a1 * c1),
        a0 * (b1 + c1) + a1 * (b0 + c0) == a0 * b1 + a1 * b0 + (a0 * c1 + a1 * c0),
{
    reveal_with_fuel(identity::eval, 5);
    reveal_with_fuel(identity::int_eval, 5);
    let env = seq![a0, a1, b0, b1, c0, c1];
    let (lhs, rhs) = {
        let (a0, a1, b0, b1, c0, c1) = (Expr::Var(0), Expr::Var(1), Expr::Var(2), Expr::Var(3), Expr::Var(4), Expr::Var(5));
        (a0 * (b0 + c0) - a1 * (b1 + c1), a0 * b0 - a1 * b1 + (a0 * c0 - a1 * c1))
    };
    assert forall|v: Seq<int>| v.len() == env.len() implies #[trigger] identity::int_eval(lhs, v)
        == identity::int_eval(rhs, v) by {
        let (a0, a1, b0, b1, c0, c1) = (v[0], v[1], v[2], v[3], v[4], v[5]);
        expand_1_2(a0, b0, c0);
        assert(a0 * (b0 + c0) == (a0 * b0) + (a0 * c0));
        expand_1_2(a1, b1, c1);
        assert(a1 * (b1 + c1) == (a1 * b1) + (a1 * c1));
        assert(a0 * (b0 + c0) - a1 * (b1 + c1) == a0 * b0 - a1 * b1 + (a0 * c0 - a1 * c1));
    }
    identity::lemma_identity(lhs, rhs, env);
    let (lhs, rhs) = {
        let (a0, a1, b0, b1, c0, c1) = (Expr::Var(0), Expr::Var(1), Expr::Var(2), Expr::Var(3), Expr::Var(4), Expr::Var(5));
        (a0 * (b1 + c1) + a1 * (b0 + c0), a0 * b1 + a1 * b0 + (a0 * c1 + a1 * c0))
    };
    assert forall|v: Seq<int>| v.len() == env.len() implies #[trigger] identity::int_eval(lhs, v)
        == identity::int_eval(rhs, v) by {
        let (a0, a1, b0, b1, c0, c1) = (v[0], v[1], v[2], v[3], v[4], v[5]);
        expand_1_2(a0, b1, c1);
        assert(a0 * (b1 + c1) == (a0 * b1) + (a0 * c1));
        expand_1_2(a1, b0, c0);
        assert(a1 * (b0 + c0) == (a1 * b0) + (a1 * c0));
        assert(a0 * (b1 + c1) + a1 * (b0 + c0) == a0 * b1 + a1 * b0 + (a0 * c1 + a1 * c0));
    }
    identity::lemma_identity(lhs, rhs, env);
}

/// A pair times its scaled conjugate.
pub proof fn complex_norm<R: Ring>(a: R, b: R, i: R)
    requires
        a.wf(),
        b.wf(),
        i.wf(),
    ensures
        a * (a * i) - b * (R::zero_spec() - b * i) == (a * a + b * b) * i,
        a * (R::zero_spec() - b * i) + b * (a * i) == R::zero_spec(),
{
    reveal_with_fuel(identity::eval, 6);
    reveal_with_fuel(identity::int_eval, 6);
    let env = seq![a, b, i];
    let (lhs, rhs) = {
        let (a, b, i) = (Expr::Var(0), Expr::Var(1), Expr::Var(2));
        (a * (a * i) - b * (Expr::Int(0) - b * i), (a * a + b * b) * i)
    };
    assert forall|v: Seq<int>| v.len() == env.len() implies #[trigger] identity::int_eval(lhs, v)
        == identity::int_eval(rhs, v) by {
        let (a, b, i) = (v[0], v[1], v[2]);
        assert(a * (a * i) == a * a * i) by (nonlinear_arith);
        assert(b * ((-1) * (b * i)) == ((-1) * (b * b * i))) by (nonlinear_arith);
        assert(0 - b * i == ((-1) * (b * i)));
        assert(b * (0 - b * i) == ((-1) * (b * b * i)));
        assert((a * a) * i == (a * a * i)) by (nonlinear_arith);
        assert((b * b) * i == (b * b * i)) by (nonlinear_arith);
        expand_2_1((a * a), (b * b), i);
        assert(a * a + b * b == (a * a) + (b * b));
        assert((a * a + b * b) * i == (a * a * i) + (b * b * i));
        assert(a * (a * i) - b * (0 - b * i) == (a * a + b * b) * i);
    }
    identity::lemma_identity(lhs, rhs, env);
    let (lhs, rhs) = {
        let (a, b, i) = (Expr::Var(0), Expr::Var(1), Expr::Var(2));
        (a * (Expr::Int(0) - b * i) + b * (a * i), Expr::Int(0))
    };
    assert forall|v: Seq<int>| v.len() == env.len() implies #[trigger] identity::int_eval(lhs, v)
        == identity::int_eval(rhs, v) by {
        let (a, b, i) = (v[0], v[1], v[2]);
        assert(a * ((-1) * (b * i)) == ((-1) * (a * b * i))) by (nonlinear_arith);
        assert(0 - b * i == ((-1) * (b * i)));
        assert(a * (0 - b * i) == ((-1) * (a * b * i)));
        assert(b * (a * i) == a * b * i) by (nonlinear_arith);
        assert(a * (0 - b * i) + b * (a * i) == 0);
    }
    identity::lemma_identity(lhs, rhs, env);
}

/// Scaling undone.
pub proof fn descale<R: Ring>(x: R, y: R, i: R, z: R)
    requires
        x.wf(),
        y.wf(),
        i.wf(),
        z.wf(),
    ensures
        x * (i * i) * (z * z) == x * (i * z * (i * z)),
        y * (i * i * i) * (z * z * z) == y * (i * z * (i * z) * (i * z)),
{
    reveal_with_fuel(identity::eval, 6);
    reveal_with_fuel(identity::int_eval, 6);
    let env = seq![x, y, i, z];
    let (lhs, rhs) = {
        let (x, y, i, z) = (Expr::Var(0), Expr::Var(1), Expr::Var(2), Expr::Var(3));
        (x * (i * i) * (z * z), x * (i * z * (i * z)))
    };
    assert forall|v: Seq<int>| v.len() == env.len() implies #[trigger] identity::int_eval(lhs, v)
        == identity::int_eval(rhs, v) by {
        let (x, y, i, z) = (v[0], v[1], v[2], v[3]);
        assert(x * (i * i) == x * i * i) by (nonlinear_arith);
        assert(x * (i * i) * (z * z) == x * i * i * z * z) by (nonlinear_arith);
        assert(i * z * (i * z) == i * i * z * z) by (nonlinear_arith);
        assert(x * (i * z * (i * z)) == x * i * i * z * z) by (nonlinear_arith);
        assert(x * (i * i) * (z * z) == x * (i * z * (i * z)));
    }
    identity::lemma_identity(lhs, rhs, env);
    let (lhs, rhs) = {
        let (x, y, i, z) = (Expr::Var(0), Expr::Var(1), Expr::Var(2), Expr::Var(3));
        (y * (i * i * i) * (z * z * z), y * (i * z * (i * z) * (i * z)))
    };
    assert forall|v: Seq<int>| v.len() == env.len() implies #[trigger] identity::int_eval(lhs, v)
        == identity::int_eval(rhs, v) by {
        let (x, y, i, z) = (v[0], v[1], v[2], v[3]);
        assert(y * (i * i * i) == y * i * i * i) by (nonlinear_arith);
        assert(y * (i * i * i) * (z * z * z) == y * i * i * i * z * z * z) by (nonlinear_arith);
        assert(i * z * (i * z) == i * i * z * z) by (nonlinear_arith);
        assert(i * z * (i * z) * (i * z) == i * i * i * z * z * z) by (nonlinear_arith);
        assert(y * (i * z * (i * z) * (i * z)) == y * i * i * i * z * z * z) by (nonlinear_arith);
        assert(y * (i * i * i) * (z * z * z) == y * (i * z * (i * z) * (i * z)));
    }
    identity::lemma_identity(lhs, rhs, env);
}

/// The scale of a doubled point.
pub proof fn double_width<R: Ring>(y: R, z: R)
    requires
        y.wf(),
        z.wf(),
    ensures
        y * (z * z * z) * z + y * (z * z * z) * z == (y + y) * (z * z * (z * z)),
{
    reveal_with_fuel(identity::eval, 7);
    reveal_with_fuel(identity::int_eval, 7);
    let env = seq![y, z];
    let (lhs, rhs) = {
        let (y, z) = (Expr::Var(0), Expr::Var(1));
        (y * (z * z * z) * z + y * (z * z * z) * z, (y + y) * (z * z * (z * z)))
    };
    assert forall|v: Seq<int>| v.len() == env.len() implies #[trigger] identity::int_eval(lhs, v)
        == identity::int_eval(rhs, v) by {
        let (y, z) = (v[0], v[1]);
        assert(y * (z * z * z) == y * z * z * z) by (nonlinear_arith);
        assert(y * (z * z * z) * z == y * z * z * z * z) by (nonlinear_arith);
        assert(z * z * (z * z) == z * z * z * z) by (nonlinear_arith);
        assert((2 * (y)) * (z * z * z * z) == (2 * (y * z * z * z * z))) by (nonlinear_arith);
        assert(y + y == (2 * (y)));
        assert(z * z * (z * z) == (z * z * z * z));
        assert((y + y) * (z * z * (z * z)) == (2 * (y * z * z * z * z)));
        assert(y * (z * z * z) * z + y * (z * z * z) * z == (y + y) * (z * z * (z * z)));
    }
    identity::lemma_identity(lhs, rhs, env);
}

/// The tangent of a scaled point.
pub proof fn double_rise<R: Ring>(x: R, z: R)
    requires
        x.wf(),
        z.wf(),
    ensures
        x * (z * z) * (x * (z * z)) + x * (z * z) * (x * (z * z)) + x * (z * z) * (x * (z * z)) == (x * x + x * x + x * x) * (z * z * (z * z)),
{
    reveal_with_fuel(identity::eval, 7);
    reveal_with_fuel(identity::int_eval, 7);
    let env = seq![x, z];
    let (lhs, rhs) = {
        let (x, z) = (Expr::Var(0), Expr::Var(1));
        (x * (z * z) * (x * (z * z)) + x * (z * z) * (x * (z * z)) + x * (z * z) * (x * (z * z)), (x * x + x * x + x * x) * (z * z * (z * z)))
    };
    assert forall|v: Seq<int>| v.len() == env.len() implies #[trigger] identity::int_eval(lhs, v)
        == identity::int_eval(rhs, v) by {
        let (x, z) = (v[0], v[1]);
        assert(x * (z * z) == x * z * z) by (nonlinear_arith);
        assert(x * (z * z) * (x * (z * z)) == x * x * z * z * z * z) by (nonlinear_arith);
        assert(z * z * (z * z) == z * z * z * z) by (nonlinear_arith);
        assert((3 * (x * x)) * (z * z * z * z) == (3 * (x * x * z * z * z * z))) by (nonlinear_arith);
        assert(x * x + x * x + x * x == (3 * (x * x)));
        assert(z * z * (z * z) == (z * z * z * z));
        assert((x * x + x * x + x * x) * (z * z * (z * z)) == (3 * (x * x * z * z * z * z)));
        assert(x * (z * z) * (x * (z * z)) + x * (z * z) * (x * (z * z)) + x * (z * z) * (x * (z * z)) == (x * x + x * x + x * x) * (z * z * (z * z)));
    }
    identity::lemma_identity(lhs, rhs, env);
}

/// A product from squares.
pub proof fn double_span<R: Ring>(x: R, b: R)
    requires
        x.wf(),
        b.wf(),
    ensures
        (x + b) * (x + b) - x * x - b * b + ((x + b) * (x + b) - x * x - b * b) == x * b + x * b + (x * b + x * b),
{
    reveal_with_fuel(identity::eval, 7);
    reveal_with_fuel(identity::int_eval, 7);
    let env = seq![x, b];
    let (lhs, rhs) = {
        let (x, b) = (Expr::Var(0), Expr::Var(1));
        ((x + b) * (x + b) - x * x - b * b + ((x + b) * (x + b) - x * x - b * b), x * b + x * b + (x * b + x * b))
    };
    assert forall|v: Seq<int>| v.len() == env.len() implies #[trigger] identity::int_eval(lhs, v)
        == identity::int_eval(rhs, v) by {
        let (x, b) = (v[0], v[1]);
        assert(b * x == (x * b)) by (nonlinear_arith);
        expand_2_2(x, b, x, b);
        assert((x + b) * (x + b) == (x * x) + (2 * (x * b)) + (b * b));
        assert((x + b) * (x + b) - x * x - b * b + ((x + b) * (x + b) - x * x - b * b) == x * b + x * b + (x * b + x * b));
    }
    identity::lemma_identity(lhs, rhs, env);
}

/// The square of a cube is the cube of the square.
pub proof fn cube_squared<R: Ring>(z: R)
    requires
        z.wf(),
    ensures
        z * z * z * (z * z * z) == z * z * (z * z) * (z * z),
{
    reveal_with_fuel(identity::eval, 5);
    reveal_with_fuel(identity::int_eval, 5);
    let env = seq![z];
    let (lhs, rhs) = {
        let z = Expr::Var(0);
        (z * z * z * (z * z * z), z * z * (z * z) * (z * z))
    };
    assert forall|v: Seq<int>| v.len() == env.len() implies #[trigger] identity::int_eval(lhs, v)
        == identity::int_eval(rhs, v) by {
        let z = v[0];
        assert(z * z * z * (z * z * z) == z * z * z * z * z * z) by (nonlinear_arith);
        assert(z * z * (z * z) == z * z * z * z) by (nonlinear_arith);
        assert(z * z * (z * z) * (z * z) == z * z * z * z * z * z) by (nonlinear_arith);
        assert(z * z * z * (z * z * z) == z * z * (z * z) * (z * z));
    }
    identity::lemma_identity(lhs, rhs, env);
}

/// The abscissa of a point at the scale of its double.
pub proof fn double_shift<R: Ring>(x: R, y: R, s: R, t: R)
    requires
        x.wf(),
        y.wf(),
        s.wf(),
        t.wf(),
    ensures
        x * s * (y * t * (y * t)) == x * (y * y) * (s * (t * t)),
        y * t * (y * t) == y * y * (t * t),
{
    reveal_with_fuel(identity::eval, 5);
    reveal_with_fuel(identity::int_eval, 5);
    let env = seq![x, y, s, t];
    let (lhs, rhs) = {
        let (x, y, s, t) = (Expr::Var(0), Expr::Var(1), Expr::Var(2), Expr::Var(3));
        (x * s * (y * t * (y * t)), x * (y * y) * (s * (t * t)))
    };
    assert forall|v: Seq<int>| v.len() == env.len() implies #[trigger] identity::int_eval(lhs, v)
        == identity::int_eval(rhs, v) by {
        let (x, y, s, t) = (v[0], v[1], v[2], v[3]);
        assert(y * t * (y * t) == y * y * t * t) by (nonlinear_arith);
        assert(x * s * (y * t * (y * t)) == x * y * y * s * t * t) by (nonlinear_arith);
        assert(x * (y * y) == x * y * y) by (nonlinear_arith);
        assert(s * (t * t) == s * t * t) by (nonlinear_arith);
        assert(x * (y * y) * (s * (t * t)) == x * y * y * s * t * t) by (nonlinear_arith);
        assert(x * s * (y * t * (y * t)) == x * (y * y) * (s * (t * t)));
    }
    identity::lemma_identity(lhs, rhs, env);
    let (lhs, rhs) = {
        let (x, y, s, t) = (Expr::Var(0), Expr::Var(1), Expr::Var(2), Expr::Var(3));
        (y * t * (y * t), y * y * (t * t))
    };
    assert forall|v: Seq<int>| v.len() == env.len() implies #[trigger] identity::int_eval(lhs, v)
        == identity::int_eval(rhs, v) by {
        let (x, y, s, t) = (v[0], v[1], v[2], v[3]);
        assert(y * t * (y * t) == y * y * t * t) by (nonlinear_arith);
        assert(y * y * (t * t) == y * y * t * t) by (nonlinear_arith);
        assert(y * t * (y * t) == y * y * (t * t));
    }
    identity::lemma_identity(lhs, rhs, env);
}

/// The ordinate and abscissa of a point at the scale of its double.
pub proof fn double_product<R: Ring>(x: R, y: R, s: R)
    requires
        x.wf(),
        y.wf(),
        s.wf(),
    ensures
        x * (y * y) * (s * (s * s * s)) == x * (y * (s * s) * (y * (s * s))),
        y * y * (s * s * s) * (y * y * (s * s * s)) == y * (y * (s * s) * (y * (s * s)) * (y * (s * s))),
        (y + y) * (s * s) == y * (s * s) + y * (s * s),
{
    reveal_with_fuel(identity::eval, 7);
    reveal_with_fuel(identity::int_eval, 7);
    let env = seq![x, y, s];
    let (lhs, rhs) = {
        let (x, y, s) = (Expr::Var(0), Expr::Var(1), Expr::Var(2));
        (x * (y * y) * (s * (s * s * s)), x * (y * (s * s) * (y * (s * s))))
    };
    assert forall|v: Seq<int>| v.len() == env.len() implies #[trigger] identity::int_eval(lhs, v)
        == identity::int_eval(rhs, v) by {
        let (x, y, s) = (v[0], v[1], v[2]);
        assert(x * (y * y) == x * y * y) by (nonlinear_arith);
        assert(s * (s * s * s) == s * s * s * s) by (nonlinear_arith);
        assert(x * (y * y) * (s * (s * s * s)) == x * y * y * s * s * s * s) by (nonlinear_arith);
        assert(y * (s * s) == y * s * s) by (nonlinear_arith);
        assert(y * (s * s) * (y * (s * s)) == y * y * s * s * s * s) by (nonlinear_arith);
        assert(x * (y * (s * s) * (y * (s * s))) == x * y * y * s * s * s * s) by (nonlinear_arith);
        assert(x * (y * y) * (s * (s * s * s)) == x * (y * (s * s) * (y * (s * s))));
    }
    identity::lemma_identity(lhs, rhs, env);
    let (lhs, rhs) = {
        let (x, y, s) = (Expr::Var(0), Expr::Var(1), Expr::Var(2));
        (y * y * (s * s * s) * (y * y * (s * s * s)), y * (y * (s * s) * (y * (s * s)) * (y * (s * s))))
    };
    assert forall|v: Seq<int>| v.len() == env.len() implies #[trigger] identity::int_eval(lhs, v)
        == identity::int_eval(rhs, v) by {
        let (x, y, s) = (v[0], v[1], v[2]);
        assert(y * y * (s * s * s) == y * y * s * s * s) by (nonlinear_arith);
        assert(y * y * (s * s * s) * (y * y * (s * s * s)) == y * y * y * y * s * s * s * s * s * s) by (nonlinear_arith);
        assert(y * (s * s) == y * s * s) by (nonlinear_arith);
        assert(y * (s * s) * (y * (s * s)) == y * y * s * s * s * s) by (nonlinear_arith);
        assert(y * (s * s) * (y * (s * s)) * (y * (s * s)) == y * y * y * s * s * s * s * s * s) by (nonlinear_arith);
        assert(y * (y * (s * s) * (y * (s * s)) * (y * (s * s))) == y * y * y * y * s * s * s * s * s * s) by (nonlinear_arith);
        assert(y * y * (s * s * s) * (y * y * (s * s * s)) == y * (y * (s * s) * (y * (s * s)) * (y * (s * s))));
    }
    identity::lemma_identity(lhs, rhs, env);
    let (lhs, rhs) = {
        let (x, y, s) = (Expr::Var(0), Expr::Var(1), Expr::Var(2));
        ((y + y) * (s * s), y * (s * s) + y * (s * s))
    };
    assert forall|v: Seq<int>| v.len() == env.len() implies #[trigger] identity::int_eval(lhs, v)
        == identity::int_eval(rhs, v) by {
        let (x, y, s) = (v[0], v[1], v[2]);
        assert((2 * (y)) * (s * s) == (2 * (y * s * s))) by (nonlinear_arith);
        assert(s * s == (s * s));
        assert(y + y == (2 * (y)));
        assert((y + y) * (s * s) == (2 * (y * s * s)));
        assert(y * (s * s) == y * s * s) by (nonlinear_arith);
        assert((y + y) * (s * s) == y * (s * s) + y * (s * s));
    }
    identity::lemma_identity(lhs, rhs, env);
}

/// Multiples of powers are powers of multiples.
pub proof fn double_multiple<R: Ring>(x: R, p: R)
    requires
        x.wf(),
        p.wf(),
    ensures
        x * (p * p) + x * (p * p) + (x * (p * p) + x * (p * p)) == x * ((p + p) * (p + p)),
        x * (p * p * p) + x * (p * p * p) + (x * (p * p * p) + x * (p * p * p)) + (x * (p * p * p) + x * (p * p * p) + (x * (p * p * p) + x * (p * p * p))) == x * ((p + p) * (p + p) * (p + p)),
{
    reveal_with_fuel(identity::eval, 8);
    reveal_with_fuel(identity::int_eval, 8);
    let env = seq![x, p];
    let (lhs, rhs) = {
        let (x, p) = (Expr::Var(0), Expr::Var(1));
        (x * (p * p) + x * (p * p) + (x * (p * p) + x * (p * p)), x * ((p + p) * (p + p)))
    };
    assert forall|v: Seq<int>| v.len() == env.len() implies #[trigger] identity::int_eval(lhs, v)
        == identity::int_eval(rhs, v) by {
        let (x, p) = (v[0], v[1]);
        assert(x * (p * p) == x * p * p) by (nonlinear_arith);
        assert((2 * (p)) * (2 * (p)) == (4 * (p * p))) by (nonlinear_arith);
        assert(p + p == (2 * (p)));
        assert((p + p) * (p + p) == (4 * (p * p)));
        assert(x * (4 * (p * p)) == (4 * (x * p * p))) by (nonlinear_arith);
        assert((p + p) * (p + p) == (4 * (p * p)));
        assert(x * ((p + p) * (p + p)) == (4 * (x * p * p)));
        assert(x * (p * p) + x * (p * p) + (x * (p * p) + x * (p * p)) == x * ((p + p) * (p + p)));
    }
    identity::lemma_identity(lhs, rhs, env);
    let (lhs, rhs) = {
        let (x, p) = (Expr::Var(0), Expr::Var(1));
        (x * (p * p * p) + x * (p * p * p) + (x * (p * p * p) + x * (p * p * p)) + (x * (p * p * p) + x * (p * p * p) + (x * (p * p * p) + x * (p * p * p))), x * ((p + p) * (p + p) * (p + p)))
    };
    assert forall|v: Seq<int>| v.len() == env.len() implies #[trigger] identity::int_eval(lhs, v)
        == identity::int_eval(rhs, v) by {
        let (x, p) = (v[0], v[1]);
        assert(x * (p * p * p) == x * p * p * p) by (nonlinear_arith);
        assert((2 * (p)) * (2 * (p)) == (4 * (p * p))) by (nonlinear_arith);
        assert(p + p == (2 * (p)));
        assert((p + p) * (p + p) == (4 * (p * p)));
        assert((4 * (p * p)) * (2 * (p)) == (8 * (p * p * p))) by (nonlinear_arith);
        assert((p + p) * (p + p) == (4 * (p * p)));
        assert((p + p) * (p + p) * (p + p) == (8 * (p * p * p)));
        assert(x * (8 * (p * p * p)) == (8 * (x * p * p * p))) by (nonlinear_arith);
        assert((p + p) * (p + p) * (p + p) == (8 * (p * p * p)));
        assert(x * ((p + p) * (p + p) * (p + p)) == (8 * (x * p * p * p)));
        assert(x * (p * p * p) + x * (p * p * p) + (x * (p * p * p) + x * (p * p * p)) + (x * (p * p * p) + x * (p * p * p) + (x * (p * p * p) + x * (p * p * p))) == x * ((p + p) * (p + p) * (p + p)));
    }
    identity::lemma_identity(lhs, rhs, env);
}

/// The abscissa of a doubled point.
pub proof fn double_abscissa<R: Ring>(l: R, w: R, x: R)
    requires
        l.wf(),
        w.wf(),
        x.wf(),
    ensures
        l * w * (l * w) - (x * (w * w) + x * (w * w)) == (l * l - x - x) * (w * w),
{
    reveal_with_fuel(identity::eval, 6);
    reveal_with_fuel(identity::int_eval, 6);
    let env = seq![l, w, x];
    let (lhs, rhs) = {
        let (l, w, x) = (Expr::Var(0), Expr::Var(1), Expr::Var(2));
        (l * w * (l * w) - (x * (w * w) + x * (w * w)), (l * l - x - x) * (w * w))
    };
    assert forall|v: Seq<int>| v.len() == env.len() implies #[trigger] identity::int_eval(lhs, v)
        == identity::int_eval(rhs, v) by {
        let (l, w, x) = (v[0], v[1], v[2]);
        assert(l * w * (l * w) == l * l * w * w) by (nonlinear_arith);
        assert(x * (w * w) == w * w * x) by (nonlinear_arith);
        assert((l * l) * (w * w) == (l * l * w * w)) by (nonlinear_arith);
        assert(((-2) * (x)) * (w * w) == ((-2) * (w * w * x))) by (nonlinear_arith);
        expand_2_1((l * l), ((-2) * (x)), (w * w));
        assert(l * l - x - x == (l * l) + ((-2) * (x)));
        assert(w * w == (w * w));
        assert((l * l - x - x) * (w * w) == (l * l * w * w) + ((-2) * (w * w * x)));
        assert(l * w * (l * w) - (x * (w * w) + x * (w * w)) == (l * l - x - x) * (w * w));
    }
    identity::lemma_identity(lhs, rhs, env);
}

/// The ordinate of a sum.
pub proof fn sum_ordinate<R: Ring>(l: R, w: R, x: R, v: R, y: R)
    requires
        l.wf(),
        w.wf(),
        x.wf(),
        v.wf(),
        y.wf(),
    ensures
        l * w * (x * (w * w) - v * (w * w)) - y * (w * w * w) == (l * (x - v) - y) * (w * w * w),
{
    reveal_with_fuel(identity::eval, 7);
    reveal_with_fuel(identity::int_eval, 7);
    let env = seq![l, w, x, v, y];
    let (lhs, rhs) = {
        let (l, w, x, v, y) = (Expr::Var(0), Expr::Var(1), Expr::Var(2), Expr::Var(3), Expr::Var(4));
        (l * w * (x * (w * w) - v * (w * w)) - y * (w * w * w), (l * (x - v) - y) * (w * w * w))
    };
    assert forall|v: Seq<int>| v.len() == env.len() implies #[trigger] identity::int_eval(lhs, v)
        == identity::int_eval(rhs, v) by {
        let (l, w, x, v, y) = (v[0], v[1], v[2], v[3], v[4]);
        assert(x * (w * w) == w * w * x) by (nonlinear_arith);
        assert(v * (w * w) == w * w * v) by (nonlinear_arith);
        assert((l * w) * (w * w * x) == (l * w * w * w * x)) by (nonlinear_arith);
        assert((l * w) * ((-1) * (w * w * v)) == ((-1) * (l * w * w * w * v))) by (nonlinear_arith);
        expand_1_2((l * w), (w * w * x), ((-1) * (w * w * v)));
        assert(l * w == (l * w));
        assert(x * (w * w) - v * (w * w) == (w * w * x) + ((-1) * (w * w * v)));
        assert(l * w * (x * (w * w) - v * (w * w)) == (l * w * w * w * x) + ((-1) * (l * w * w * w * v)));
        assert(y * (w * w * w) == w * w * w * y) by (nonlinear_arith);
        assert(l * ((-1) * (v)) == ((-1) * (l * v))) by (nonlinear_arith);
        expand_1_2(l, x, ((-1) * (v)));
        assert(x - v == x + ((-1) * (v)));
        assert(l * (x - v) == (l * x) + ((-1) * (l * v)));
        assert((l * x) * (w * w * w) == (l * w * w * w * x)) by (nonlinear_arith);
        assert(((-1) * (l * v)) * (w * w * w) == ((-1) * (l * w * w * w * v))) by (nonlinear_arith);
        assert(((-1) * (y)) * (w * w * w) == ((-1) * (w * w * w * y))) by (nonlinear_arith);
        expand_3_1((l * x), ((-1) * (l * v)), ((-1) * (y)), (w * w * w));
        assert(l * (x - v) - y == (l * x) + ((-1) * (l * v)) + ((-1) * (y)));
        assert(w * w * w == (w * w * w));
        assert((l * (x - v) - y) * (w * w * w) == (l * w * w * w * x) + ((-1) * (l * w * w * w * v)) + ((-1) * (w * w * w * y)));
        assert(l * w * (x * (w * w) - v * (w * w)) - y * (w * w * w) == (l * (x - v) - y) * (w * w * w));
    }
    identity::lemma_identity(lhs, rhs, env);
}

/// A chord at a common scale.
pub proof fn chord_span<R: Ring>(a: R, b: R, m: R)
    requires
        a.wf(),
        b.wf(),
        m.wf(),
    ensures
        b * (m * m) - a * (m * m) == (b - a) * (m * m),
        b * (m * m * m) - a * (m * m * m) == (b - a) * (m * m * m),
{
    reveal_with_fuel(identity::eval, 6);
    reveal_with_fuel(identity::int_eval, 6);
    let env = seq![a, b, m];
    let (lhs, rhs) = {
        let (a, b, m) = (Expr::Var(0), Expr::Var(1), Expr::Var(2));
        (b * (m * m) - a * (m * m), (b - a) * (m * m))
    };
    assert forall|v: Seq<int>| v.len() == env.len() implies #[trigger] identity::int_eval(lhs, v)
        == identity::int_eval(rhs, v) by {
        let (a, b, m) = (v[0], v[1], v[2]);
        assert(b * (m * m) == b * m * m) by (nonlinear_arith);
        assert(a * (m * m) == a * m * m) by (nonlinear_arith);
        assert(((-1) * (a)) * (m * m) == ((-1) * (a * m * m))) by (nonlinear_arith);
        expand_2_1(b, ((-1) * (a)), (m * m));
        assert(b - a == b + ((-1) * (a)));
        assert(m * m == (m * m));
        assert((b - a) * (m * m) == (b * m * m) + ((-1) * (a * m * m)));
        assert(b * (m * m) - a * (m * m) == (b - a) * (m * m));
    }
    identity::lemma_identity(lhs, rhs, env);
    let (lhs, rhs) = {
        let (a, b, m) = (Expr::Var(0), Expr::Var(1), Expr::Var(2));
        (b * (m * m * m) - a * (m * m * m), (b - a) * (m * m * m))
    };
    assert forall|v: Seq<int>| v.len() == env.len() implies #[trigger] identity::int_eval(lhs, v)
        == identity::int_eval(rhs, v) by {
        let (a, b, m) = (v[0], v[1], v[2]);
        assert(b * (m * m * m) == b * m * m * m) by (nonlinear_arith);
        assert(a * (m * m * m) == a * m * m * m) by (nonlinear_arith);
        assert(((-1) * (a)) * (m * m * m) == ((-1) * (a * m * m * m))) by (nonlinear_arith);
        expand_2_1(b, ((-1) * (a)), (m * m * m));
        assert(b - a == b + ((-1) * (a)));
        assert(m * m * m == (m * m * m));
        assert((b - a) * (m * m * m) == (b * m * m * m) + ((-1) * (a * m * m * m)));
        assert(b * (m * m * m) - a * (m * m * m) == (b - a) * (m * m * m));
    }
    identity::lemma_identity(lhs, rhs, env);
}

/// The slope of a scaled chord.
pub proof fn chord_rise<R: Ring>(l: R, d: R, m: R)
    requires
        l.wf(),
        d.wf(),
        m.wf(),
    ensures
        l * d * (m * m * m) + l * d * (m * m * m) == l * (m * (d * (m * m)) + m * (d * (m * m))),
{
    reveal_with_fuel(identity::eval, 7);
    reveal_with_fuel(identity::int_eval, 7);
    let env = seq![l, d, m];
    let (lhs, rhs) = {
        let (l, d, m) = (Expr::Var(0), Expr::Var(1), Expr::Var(2));
        (l * d * (m * m * m) + l * d * (m * m * m), l * (m * (d * (m * m)) + m * (d * (m * m))))
    };
    assert forall|v: Seq<int>| v.len() == env.len() implies #[trigger] identity::int_eval(lhs, v)
        == identity::int_eval(rhs, v) by {
        let (l, d, m) = (v[0], v[1], v[2]);
        assert(l * d * (m * m * m) == l * d * m * m * m) by (nonlinear_arith);
        assert(d * (m * m) == d * m * m) by (nonlinear_arith);
        assert(m * (d * (m * m)) == d * m * m * m) by (nonlinear_arith);
        assert(l * (2 * (d * m * m * m)) == (2 * (l * d * m * m * m))) by (nonlinear_arith);
        assert(m * (d * (m * m)) + m * (d * (m * m)) == (2 * (d * m * m * m)));
        assert(l * (m * (d * (m * m)) + m * (d * (m * m))) == (2 * (l * d * m * m * m)));
        assert(l * d * (m * m * m) + l * d * (m * m * m) == l * (m * (d * (m * m)) + m * (d * (m * m))));
    }
    identity::lemma_identity(lhs, rhs, env);
}

/// An abscissa at the scale of the sum.
pub proof fn chord_scale<R: Ring>(x: R, m: R, h: R)
    requires
        x.wf(),
        m.wf(),
        h.wf(),
    ensures
        x * (m * m) * ((h + h) * (h + h)) == x * ((m * h + m * h) * (m * h + m * h)),
{
    reveal_with_fuel(identity::eval, 6);
    reveal_with_fuel(identity::int_eval, 6);
    let env = seq![x, m, h];
    let (lhs, rhs) = {
        let (x, m, h) = (Expr::Var(0), Expr::Var(1), Expr::Var(2));
        (x * (m * m) * ((h + h) * (h + h)), x * ((m * h + m * h) * (m * h + m * h)))
    };
    assert forall|v: Seq<int>| v.len() == env.len() implies #[trigger] identity::int_eval(lhs, v)
        == identity::int_eval(rhs, v) by {
        let (x, m, h) = (v[0], v[1], v[2]);
        assert(x * (m * m) == x * m * m) by (nonlinear_arith);
        assert((2 * (h)) * (2 * (h)) == (4 * (h * h))) by (nonlinear_arith);
        assert(h + h == (2 * (h)));
        assert((h + h) * (h + h) == (4 * (h * h)));
        assert((x * m * m) * (4 * (h * h)) == (4 * (x * m * m * h * h))) by (nonlinear_arith);
        assert((h + h) * (h + h) == (4 * (h * h)));
        assert(x * (m * m) == (x * m * m));
        assert(x * (m * m) * ((h + h) * (h + h)) == (4 * (x * m * m * h * h)));
        assert((2 * (m * h)) * (2 * (m * h)) == (4 * (m * m * h * h))) by (nonlinear_arith);
        assert(m * h + m * h == (2 * (m * h)));
        assert((m * h + m * h) * (m * h + m * h) == (4 * (m * m * h * h)));
        assert(x * (4 * (m * m * h * h)) == (4 * (x * m * m * h * h))) by (nonlinear_arith);
        assert((m * h + m * h) * (m * h + m * h) == (4 * (m * m * h * h)));
        assert(x * ((m * h + m * h) * (m * h + m * h)) == (4 * (x * m * m * h * h)));
        assert(x * (m * m) * ((h + h) * (h + h)) == x * ((m * h + m * h) * (m * h + m * h)));
    }
    identity::lemma_identity(lhs, rhs, env);
}

/// An ordinate at the scale of the sum.
pub proof fn chord_cube<R: Ring>(y: R, m: R, h: R)
    requires
        y.wf(),
        m.wf(),
        h.wf(),
    ensures
        y * (m * m * m) * (h * ((h + h) * (h + h))) + y * (m * m * m) * (h * ((h + h) * (h + h))) == y * ((m * h + m * h) * (m * h + m * h) * (m * h + m * h)),
{
    reveal_with_fuel(identity::eval, 7);
    reveal_with_fuel(identity::int_eval, 7);
    let env = seq![y, m, h];
    let (lhs, rhs) = {
        let (y, m, h) = (Expr::Var(0), Expr::Var(1), Expr::Var(2));
        (y * (m * m * m) * (h * ((h + h) * (h + h))) + y * (m * m * m) * (h * ((h + h) * (h + h))), y * ((m * h + m * h) * (m * h + m * h) * (m * h + m * h)))
    };
    assert forall|v: Seq<int>| v.len() == env.len() implies #[trigger] identity::int_eval(lhs, v)
        == identity::int_eval(rhs, v) by {
        let (y, m, h) = (v[0], v[1], v[2]);
        assert(y * (m * m * m) == y * m * m * m) by (nonlinear_arith);
        assert((2 * (h)) * (2 * (h)) == (4 * (h * h))) by (nonlinear_arith);
        assert(h + h == (2 * (h)));
        assert((h + h) * (h + h) == (4 * (h * h)));
        assert(h * (4 * (h * h)) == (4 * (h * h * h))) by (nonlinear_arith);
        assert((h + h) * (h + h) == (4 * (h * h)));
        assert(h * ((h + h) * (h + h)) == (4 * (h * h * h)));
        assert((y * m * m * m) * (4 * (h * h * h)) == (4 * (y * m * m * m * h * h * h))) by (nonlinear_arith);
        assert(h * ((h + h) * (h + h)) == (4 * (h * h * h)));
        assert(y * (m * m * m) == (y * m * m * m));
        assert(y * (m * m * m) * (h * ((h + h) * (h + h))) == (4 * (y * m * m * m * h * h * h)));
        assert((2 * (m * h)) * (2 * (m * h)) == (4 * (m * m * h * h))) by (nonlinear_arith);
        assert(m * h + m * h == (2 * (m * h)));
        assert((m * h + m * h) * (m * h + m * h) == (4 * (m * m * h * h)));
        assert((4 * (m * m * h * h)) * (2 * (m * h)) == (8 * (m * m * m * h * h * h))) by (nonlinear_arith);
        assert((m * h + m * h) * (m * h + m * h) == (4 * (m * m * h * h)));
        assert((m * h + m * h) * (m * h + m * h) * (m * h + m * h) == (8 * (m * m * m * h * h * h)));
        assert(y * (8 * (m * m * m * h * h * h)) == (8 * (y * m * m * m * h * h * h))) by (nonlinear_arith);
        assert((m * h + m * h) * (m * h + m * h) * (m * h + m * h) == (8 * (m * m * m * h * h * h)));
        assert(y * ((m * h + m * h) * (m * h + m * h) * (m * h + m * h)) == (8 * (y * m * m * m * h * h * h)));
        assert(y * (m * m * m) * (h * ((h + h) * (h + h))) + y * (m * m * m) * (h * ((h + h) * (h + h))) == y * ((m * h + m * h) * (m * h + m * h) * (m * h + m * h)));
    }
    identity::lemma_identity(lhs, rhs, env);
}

/// The abscissa of a sum.
pub proof fn chord_abscissa<R: Ring>(l: R, w: R, x1: R, x2: R)
    requires
        l.wf(),
        w.wf(),
        x1.wf(),
        x2.wf(),
    ensures
        l * w * (l * w) - (x2 - x1) * (w * w) - (x1 * (w * w) + x1 * (w * w)) == (l * l - x1 - x2) * (w * w),
{
    reveal_with_fuel(identity::eval, 6);
    reveal_with_fuel(identity::int_eval, 6);
    let env = seq![l, w, x1, x2];
    let (lhs, rhs) = {
        let (l, w, x1, x2) = (Expr::Var(0), Expr::Var(1), Expr::Var(2), Expr::Var(3));
        (l * w * (l * w) - (x2 - x1) * (w * w) - (x1 * (w * w) + x1 * (w * w)), (l * l - x1 - x2) * (w * w))
    };
    assert forall|v: Seq<int>| v.len() == env.len() implies #[trigger] identity::int_eval(lhs, v)
        == identity::int_eval(rhs, v) by {
        let (l, w, x1, x2) = (v[0], v[1], v[2], v[3]);
        assert(l * w * (l * w) == l * l * w * w) by (nonlinear_arith);
        assert(x2 * (w * w) == (w * w * x2)) by (nonlinear_arith);
        assert(((-1) * (x1)) * (w * w) == ((-1) * (w * w * x1))) by (nonlinear_arith);
        expand_2_1(x2, ((-1) * (x1)), (w * w));
        assert(w * w == (w * w));
        assert(x2 - x1 == x2 + ((-1) * (x1)));
        assert((x2 - x1) * (w * w) == (w * w * x2) + ((-1) * (w * w * x1)));
        assert(x1 * (w * w) == w * w * x1) by (nonlinear_arith);
        assert((l * l) * (w * w) == (l * l * w * w)) by (nonlinear_arith);
        assert(((-1) * (x2)) * (w * w) == ((-1) * (w * w * x2))) by (nonlinear_arith);
        expand_3_1((l * l), ((-1) * (x1)), ((-1) * (x2)), (w * w));
        assert(l * l - x1 - x2 == (l * l) + ((-1) * (x1)) + ((-1) * (x2)));
        assert((l * l - x1 - x2) * (w * w) == (l * l * w * w) + ((-1) * (w * w * x1)) + ((-1) * (w * w * x2)));
        assert(l * w * (l * w) - (x2 - x1) * (w * w) - (x1 * (w * w) + x1 * (w * w)) == (l * l - x1 - x2) * (w * w));
    }
    identity::lemma_identity(lhs, rhs, env);
}

/// The scale of a sum.
pub proof fn chord_width<R: Ring>(a: R, b: R, h: R)
    requires
        a.wf(),
        b.wf(),
        h.wf(),
    ensures
        ((a + b) * (a + b) - a * a - b * b) * h == a * b * h + a * b * h,
{
    reveal_with_fuel(identity::eval, 7);
    reveal_with_fuel(identity::int_eval, 7);
    let env = seq![a, b, h];
    let (lhs, rhs) = {
        let (a, b, h) = (Expr::Var(0), Expr::Var(1), Expr::Var(2));
        (((a + b) * (a + b) - a * a - b * b) * h, a * b * h + a * b * h)
    };
    assert forall|v: Seq<int>| v.len() == env.len() implies #[trigger] identity::int_eval(lhs, v)
        == identity::int_eval(rhs, v) by {
        let (a, b, h) = (v[0], v[1], v[2]);
        assert(b * a == (a * b)) by (nonlinear_arith);
        expand_2_2(a, b, a, b);
        assert((a + b) * (a + b) == (a * a) + (2 * (a * b)) + (b * b));
        assert((2 * (a * b)) * h == (2 * (a * b * h))) by (nonlinear_arith);
        assert((a + b) * (a + b) - a * a - b * b == (2 * (a * b)));
        assert(((a + b) * (a + b) - a * a - b * b) * h == (2 * (a * b * h)));
        assert(((a + b) * (a + b) - a * a - b * b) * h == a * b * h + a * b * h);
    }
    identity::lemma_identity(lhs, rhs, env);
}

/// The scale of a mixed sum.
pub proof fn mixed_width<R: Ring>(a: R, h: R)
    requires
        a.wf(),
        h.wf(),
    ensures
        (a + h) * (a + h) - a * a - h * h == a * h + a * h,
        h * h + h * h + (h * h + h * h) == (h + h) * (h + h),
        a * h * (h * h) == a * (h * h * h),
{
    reveal_with_fuel(identity::eval, 6);
    reveal_with_fuel(identity::int_eval, 6);
    let env = seq![a, h];
    let (lhs, rhs) = {
        let (a, h) = (Expr::Var(0), Expr::Var(1));
        ((a + h) * (a + h) - a * a - h * h, a * h + a * h)
    };
    assert forall|v: Seq<int>| v.len() == env.len() implies #[trigger] identity::int_eval(lhs, v)
        == identity::int_eval(rhs, v) by {
        let (a, h) = (v[0], v[1]);
        assert(h * a == (a * h)) by (nonlinear_arith);
        expand_2_2(a, h, a, h);
        assert((a + h) * (a + h) == (a * a) + (2 * (a * h)) + (h * h));
        assert((a + h) * (a + h) - a * a - h * h == a * h + a * h);
    }
    identity::lemma_identity(lhs, rhs, env);
    let (lhs, rhs) = {
        let (a, h) = (Expr::Var(0), Expr::Var(1));
        (h * h + h * h + (h * h + h * h), (h + h) * (h + h))
    };
    assert forall|v: Seq<int>| v.len() == env.len() implies #[trigger] identity::int_eval(lhs, v)
        == identity::int_eval(rhs, v) by {
        let (a, h) = (v[0], v[1]);
        assert((2 * (h)) * (2 * (h)) == (4 * (h * h))) by (nonlinear_arith);
        assert(h + h == (2 * (h)));
        assert((h + h) * (h + h) == (4 * (h * h)));
        assert(h * h + h * h + (h * h + h * h) == (h + h) * (h + h));
    }
    identity::lemma_identity(lhs, rhs, env);
    let (lhs, rhs) = {
        let (a, h) = (Expr::Var(0), Expr::Var(1));
        (a * h * (h * h), a * (h * h * h))
    };
    assert forall|v: Seq<int>| v.len() == env.len() implies #[trigger] identity::int_eval(lhs, v)
        == identity::int_eval(rhs, v) by {
        let (a, h) = (v[0], v[1]);
        assert(a * h * (h * h) == a * h * h * h) by (nonlinear_arith);
        assert(a * (h * h * h) == a * h * h * h) by (nonlinear_arith);
        assert(a * h * (h * h) == a * (h * h * h));
    }
    identity::lemma_identity(lhs, rhs, env);
}

/// Two points at a common scale.
pub proof fn common_scale<R: Ring>(x: R, y: R, z: R, t: R)
    requires
        x.wf(),
        y.wf(),
        z.wf(),
        t.wf(),
    ensures
        x * (z * z) * (t * t) == x * (z * t * (z * t)),
        x * (t * t) * (z * z) == x * (z * t * (z * t)),
        y * (z * z * z) * t * (t * t) == y * (z * t * (z * t) * (z * t)),
        y * (t * t * t) * z * (z * z) == y * (z * t * (z * t) * (z * t)),
        y * (z * z * z) * (t * t) * t == y * (z * t * (z * t) * (z * t)),
        y * (t * t * t) * (z * z) * z == y * (z * t * (z * t) * (z * t)),
{
    reveal_with_fuel(identity::eval, 7);
    reveal_with_fuel(identity::int_eval, 7);
    let env = seq![x, y, z, t];
    let (lhs, rhs) = {
        let (x, y, z, t) = (Expr::Var(0), Expr::Var(1), Expr::Var(2), Expr::Var(3));
        (x * (z * z) * (t * t), x * (z * t * (z * t)))
    };
    assert forall|v: Seq<int>| v.len() == env.len() implies #[trigger] identity::int_eval(lhs, v)
        == identity::int_eval(rhs, v) by {
        let (x, y, z, t) = (v[0], v[1], v[2], v[3]);
        assert(x * (z * z) == x * z * z) by (nonlinear_arith);
        assert(x * (z * z) * (t * t) == x * z * z * t * t) by (nonlinear_arith);
        assert(z * t * (z * t) == z * z * t * t) by (nonlinear_arith);
        assert(x * (z * t * (z * t)) == x * z * z * t * t) by (nonlinear_arith);
        assert(x * (z * z) * (t * t) == x * (z * t * (z * t)));
    }
    identity::lemma_identity(lhs, rhs, env);
    let (lhs, rhs) = {
        let (x, y, z, t) = (Expr::Var(0), Expr::Var(1), Expr::Var(2), Expr::Var(3));
        (x * (t * t) * (z * z), x * (z * t * (z * t)))
    };
    assert forall|v: Seq<int>| v.len() == env.len() implies #[trigger] identity::int_eval(lhs, v)
        == identity::int_eval(rhs, v) by {
        let (x, y, z, t) = (v[0], v[1], v[2], v[3]);
        assert(x * (t * t) == x * t * t) by (nonlinear_arith);
        assert(x * (t * t) * (z * z) == x * z * z * t * t) by (nonlinear_arith);
        assert(z * t * (z * t) == z * z * t * t) by (nonlinear_arith);
        assert(x * (z * t * (z * t)) == x * z * z * t * t) by (nonlinear_arith);
        assert(x * (t * t) * (z * z) == x * (z * t * (z * t)));
    }
    identity::lemma_identity(lhs, rhs, env);
    let (lhs, rhs) = {
        let (x, y, z, t) = (Expr::Var(0), Expr::Var(1), Expr::Var(2), Expr::Var(3));
        (y * (z * z * z) * t * (t * t), y * (z * t * (z * t) * (z * t)))
    };
    assert forall|v: Seq<int>| v.len() == env.len() implies #[trigger] identity::int_eval(lhs, v)
        == identity::int_eval(rhs, v) by {
        let (x, y, z, t) = (v[0], v[1], v[2], v[3]);
        assert(y * (z * z * z) == y * z * z * z) by (nonlinear_arith);
        assert(y * (z * z * z) * t == y * z * z * z * t) by (nonlinear_arith);
        assert(y * (z * z * z) * t * (t * t) == y * z * z * z * t * t * t) by (nonlinear_arith);
        assert(z * t * (z * t) == z * z * t * t) by (nonlinear_arith);
        assert(z * t * (z * t) * (z * t) == z * z * z * t * t * t) by (nonlinear_arith);
        assert(y * (z * t * (z * t) * (z * t)) == y * z * z * z * t * t * t) by (nonlinear_arith);
        assert(y * (z * z * z) * t * (t * t) == y * (z * t * (z * t) * (z * t)));
    }
    identity::lemma_identity(lhs, rhs, env);
    let (lhs, rhs) = {
        let (x, y, z, t) = (Expr::Var(0), Expr::Var(1), Expr::Var(2), Expr::Var(3));
        (y * (t * t * t) * z * (z * z), y * (z * t * (z * t) * (z * t)))
    };
    assert forall|v: Seq<int>| v.len() == env.len() implies #[trigger] identity::int_eval(lhs, v)
        == identity::int_eval(rhs, v) by {
        let (x, y, z, t) = (v[0], v[1], v[2], v[3]);
        assert(y * (t * t * t) == y * t * t * t) by (nonlinear_arith);
        assert(y * (t * t * t) * z == y * z * t * t * t) by (nonlinear_arith);
        assert(y * (t * t * t) * z * (z * z) == y * z * z * z * t * t * t) by (nonlinear_arith);
        assert(z * t * (z * t) == z * z * t * t) by (nonlinear_arith);
        assert(z * t * (z * t) * (z * t) == z * z * z * t * t * t) by (nonlinear_arith);
        assert(y * (z * t * (z * t) * (z * t)) == y * z * z * z * t * t * t) by (nonlinear_arith);
        assert(y * (t * t * t) * z * (z * z) == y * (z * t * (z * t) * (z * t)));
    }
    identity::lemma_identity(lhs, rhs, env);
    let (lhs, rhs) = {
        let (x, y, z, t) = (Expr::Var(0), Expr::Var(1), Expr::Var(2), Expr::Var(3));
        (y * (z * z * z) * (t * t) * t, y * (z * t * (z * t) * (z * t)))
    };
    assert forall|v: Seq<int>| v.len() == env.len() implies #[trigger] identity::int_eval(lhs, v)
        == identity::int_eval(rhs, v) by {
        let (x, y, z, t) = (v[0], v[1], v[2], v[3]);
        assert(y * (z * z * z) == y * z * z * z) by (nonlinear_arith);
        assert(y * (z * z * z) * (t * t) == y * z * z * z * t * t) by (nonlinear_arith);
        assert(y * (z * z * z) * (t * t) * t == y * z * z * z * t * t * t) by (nonlinear_arith);
        assert(z * t * (z * t) == z * z * t * t) by (nonlinear_arith);
        assert(z * t * (z * t) * (z * t) == z * z * z * t * t * t) by (nonlinear_arith);
        assert(y * (z * t * (z * t) * (z * t)) == y * z * z * z * t * t * t) by (nonlinear_arith);
        assert(y * (z * z * z) * (t * t) * t == y * (z * t * (z * t) * (z * t)));
    }
    identity::lemma_identity(lhs, rhs, env);
    let (lhs, rhs) = {
        let (x, y, z, t) = (Expr::Var(0), Expr::Var(1), Expr::Var(2), Expr::Var(3));
        (y * (t * t * t) * (z * z) * z, y * (z * t * (z * t) * (z * t)))
    };
    assert forall|v: Seq<int>| v.len() == env.len() implies #[trigger] identity::int_eval(lhs, v)
        == identity::int_eval(rhs, v) by {
        let (x, y, z, t) = (v[0], v[1], v[2], v[3]);
        assert(y * (t * t * t) == y * t * t * t) by (nonlinear_arith);
        assert(y * (t * t * t) * (z * z) == y * z * z * t * t * t) by (nonlinear_arith);
        assert(y * (t * t * t) * (z * z) * z == y * z * z * z * t * t * t) by (nonlinear_arith);
        assert(z * t * (z * t) == z * z * t * t) by (nonlinear_arith);
        assert(z * t * (z * t) * (z * t) == z * z * z * t * t * t) by (nonlinear_arith);
        assert(y * (z * t * (z * t) * (z * t)) == y * z * z * z * t * t * t) by (nonlinear_arith);
        assert(y * (t * t * t) * (z * z) * z == y * (z * t * (z * t) * (z * t)));
    }
    identity::lemma_identity(lhs, rhs, env);
}
} // verus!
