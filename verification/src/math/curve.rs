//! The chord-and-tangent law on `y² = x³ + b` over a field of characteristic
//! other than two and three, and the proof that it is a commutative group for
//! every `b` but zero.
//!
//! Associativity follows a classical route. Three points on a line are
//! described by the coefficients of the cubic they solve ([`line`]), which is
//! symmetric in the points. Two lines that share a point (up to sign) multiply
//! to a conic `x² + βx + γ = σy` through the four remaining points; a conic
//! through three given points is unique, so both ways of adding three points
//! end in the same fourth point.

use vstd::prelude::*;

use super::identities;
use super::ring;
use super::ring::{FieldLaws, Ring};

verus! {

/// A point of the curve: the identity, or a pair of coordinates.
pub enum Pt<K> {
    /// The point at infinity, the identity.
    Infinity,
    /// An affine point.
    Finite(K, K),
}

impl<K: FieldLaws> Pt<K> {
    /// The coordinates are field elements.
    pub open spec fn wf(self) -> bool {
        match self {
            Pt::Infinity => true,
            Pt::Finite(x, y) => x.wf() && y.wf(),
        }
    }

    /// The point satisfies `y² = x³ + b` (the identity is on every curve).
    pub open spec fn on(self, b: K) -> bool {
        match self {
            Pt::Infinity => true,
            Pt::Finite(x, y) => x.wf() && y.wf() && y * y == x * x * x + b,
        }
    }

    /// `-P`.
    pub open spec fn negated(self) -> Self {
        match self {
            Pt::Infinity => Pt::Infinity,
            Pt::Finite(x, y) => Pt::Finite(x, -y),
        }
    }

    /// `P + Q` by chord and tangent.
    pub open spec fn plus(self, other: Self) -> Self {
        match self {
            Pt::Infinity => other,
            Pt::Finite(x1, y1) => match other {
                Pt::Infinity => self,
                Pt::Finite(x2, y2) => if x1 == x2 {
                    if y1 == y2 && y1 != K::zero_spec() {
                        third(x1, y1, x2, (x1 * x1 + x1 * x1 + x1 * x1) * (y1 + y1).inv_spec())
                    } else {
                        Pt::Infinity
                    }
                } else {
                    third(x1, y1, x2, (y2 - y1) * (x2 - x1).inv_spec())
                },
            },
        }
    }
}

/// The negative of the third point on the line of slope `l` through `(x1, y1)`,
/// which also meets the curve at abscissa `x2`.
pub open spec fn third<K: FieldLaws>(x1: K, y1: K, x2: K, l: K) -> Pt<K> {
    let x3 = l * l - x1 - x2;
    Pt::Finite(x3, l * (x1 - x3) - y1)
}

/// The curve `y² = x³ + b` has no singular point.
pub open spec fn smooth<K: FieldLaws>(b: K) -> bool {
    b.wf() && b != K::zero_spec()
}

/// `y = l·x + n` meets `y² = x³ + b` exactly in the three points, counted with
/// multiplicity: the points are on the line and their abscissae are the roots
/// of `x³ + b - (l·x + n)²`.
pub open spec fn line<K: FieldLaws>(
    b: K,
    x1: K,
    y1: K,
    x2: K,
    y2: K,
    x3: K,
    y3: K,
    l: K,
    n: K,
) -> bool {
    &&& l.wf()
    &&& n.wf()
    &&& y1 == l * x1 + n
    &&& y2 == l * x2 + n
    &&& y3 == l * x3 + n
    &&& l * l == x1 + x2 + x3
    &&& x1 * x2 + x1 * x3 + x2 * x3 + (l * n + l * n) == K::zero_spec()
    &&& x1 * x2 * x3 + b == n * n
}

/// Adding two points gives a line.
proof fn lemma_sum_line<K: FieldLaws>(b: K, x1: K, y1: K, x2: K, y2: K) -> (ln: (K, K))
    requires
        b.wf(),
        Pt::Finite(x1, y1).on(b),
        Pt::Finite(x2, y2).on(b),
        x1 == x2 ==> y1 == y2 && y1 != K::zero_spec(),
    ensures
        Pt::Finite(x1, y1).plus(Pt::Finite(x2, y2)) is Finite,
        ({
            let r = Pt::Finite(x1, y1).plus(Pt::Finite(x2, y2));
            r->0.wf() && r->1.wf() && line(b, x1, y1, x2, y2, r->0, -r->1, ln.0, ln.1)
        }),
{
    broadcast use ring::group_wf;

    let z = K::zero_spec();
    let sq = x1 * x1 + x1 * x1 + x1 * x1;
    let l = if x1 == x2 {
        sq * (y1 + y1).inv_spec()
    } else {
        (y2 - y1) * (x2 - x1).inv_spec()
    };
    if x1 == x2 {
        ring::lemma_double_nonzero(y1);
        ring::lemma_quotient(sq, y1 + y1);
    } else {
        ring::lemma_sub_zero(x2, x1);
        ring::lemma_quotient(y2 - y1, x2 - x1);
    }
    let n = y1 - l * x1;
    let x3 = l * l - x1 - x2;
    let y3 = l * (x1 - x3) - y1;
    let bracket = x1 * x1 + x1 * x2 + x2 * x2 - l * l * (x1 + x2) - (l * n + l * n);
    identities::line_through(l, x1, x2, y1);
    identities::sub_add_cancel(y2, y1);
    identities::line_through(l, x1, x3, y1);
    assert(y2 == l * x2 + n);
    ring::lemma_neg_unique(y3, l * x3 + n);
    identities::third_root(x1, x2, x3, l * l);
    // the bracket vanishes
    if x1 == x2 {
        identities::tangent_bracket(x1, l, n);
        K::multiplicative(l, y1 + y1, l);
        identities::zero_minus(sq, sq);
    } else {
        identities::chord_difference(x1, x2, l, n);
        identities::difference_cancels(x1 * x1 * x1, b, x2 * x2 * x2);
        ring::lemma_sub_zero(x1, x2);
        ring::lemma_domain(x1 - x2, bracket);
    }
    assert(bracket == z);
    identities::pair_sum(x1, x2, l, n);
    identities::zero_minus(z, z);
    identities::triple_product(x1, x2, l, n);
    ring::lemma_mul_zero(x1);
    identities::sub_add_cancel(x1 * x1 * x1, b);
    ring::lemma_sub_zero(x1 * x2 * x3 + b, n * n);
    (l, n)
}

/// A line gives the sum of two of its points.
proof fn lemma_line_sum<K: FieldLaws>(
    b: K,
    x1: K,
    y1: K,
    x2: K,
    y2: K,
    x3: K,
    y3: K,
    l: K,
    n: K,
)
    requires
        smooth(b),
        x1.wf(),
        x2.wf(),
        x3.wf(),
        line(b, x1, y1, x2, y2, x3, y3, l, n),
    ensures
        Pt::Finite(x1, y1).plus(Pt::Finite(x2, y2)) == Pt::Finite(x3, -y3),
{
    if x1 == x2 {
        lemma_tangent_ordinate(b, x1, y1, x3, y3, l, n);
    }
    lemma_chord_sum(b, x1, y1, x2, y2, x3, y3, l, n);
}

/// The same on every curve, where the two points are not one of ordinate zero.
proof fn lemma_chord_sum<K: FieldLaws>(
    b: K,
    x1: K,
    y1: K,
    x2: K,
    y2: K,
    x3: K,
    y3: K,
    l: K,
    n: K,
)
    requires
        b.wf(),
        x1.wf(),
        x2.wf(),
        x3.wf(),
        line(b, x1, y1, x2, y2, x3, y3, l, n),
        x1 == x2 ==> y1 != K::zero_spec(),
    ensures
        Pt::Finite(x1, y1).plus(Pt::Finite(x2, y2)) == Pt::Finite(x3, -y3),
{
    broadcast use ring::group_wf;

    if x1 == x2 {
        lemma_tangent_slope(b, x1, y1, x3, y3, l, n);
        ring::lemma_double_nonzero(y1);
        ring::lemma_quotient_unique(l, y1 + y1, x1 * x1 + x1 * x1 + x1 * x1);
    } else {
        identities::line_rise(l, n, x1, x2);
        ring::lemma_sub_zero(x2, x1);
        ring::lemma_quotient_unique(l, x2 - x1, y2 - y1);
    }
    identities::third_root(x1, x2, x3, l * l);
    identities::line_rise(l, n, x1, x3);
    ring::lemma_neg_unique(y3, l * (x1 - x3) - y1);
}

/// The slope of a tangent: `l·2y = 3x²`.
proof fn lemma_tangent_slope<K: FieldLaws>(b: K, x: K, y: K, x3: K, y3: K, l: K, n: K)
    requires
        b.wf(),
        x.wf(),
        x3.wf(),
        line(b, x, y, x, y, x3, y3, l, n),
    ensures
        l * (y + y) == x * x + x * x + x * x,
{
    broadcast use ring::group_wf;

    identities::slope_double(x, l, n);
    identities::slope_tangent(x, x3, l * n + l * n);
    K::additive(x * x + x * x + x * x, K::zero_spec(), K::zero_spec());
}

/// No line `y = l·x + n` touches the curve where `y = 0`: the tangent is vertical there.
proof fn lemma_tangent_ordinate<K: FieldLaws>(b: K, x: K, y: K, x3: K, y3: K, l: K, n: K)
    requires
        smooth(b),
        x.wf(),
        x3.wf(),
        line(b, x, y, x, y, x3, y3, l, n),
    ensures
        y != K::zero_spec(),
{
    broadcast use ring::group_wf;

    let z = K::zero_spec();
    if y == z {
        K::constants_wf();
        lemma_tangent_slope(b, x, y, x3, y3, l, n);
        lemma_line_permutes(b, x, y, x, y, x3, y3, l, n);
        lemma_line_on(b, x, y, x3, y3, x, y, l, n);
        ring::lemma_mul_zero(l);
        ring::lemma_mul_zero(z);
        K::additive(z, z, z);
        if x * x != z {
            ring::lemma_triple_nonzero(x * x);
        }
        ring::lemma_domain(x, x);
        ring::lemma_mul_zero(x * x);
        K::additive(b, z, z);
        K::additive(z, b, z);
    }
}

/// The third point of a line is on the curve.
proof fn lemma_line_on<K: FieldLaws>(
    b: K,
    x1: K,
    y1: K,
    x2: K,
    y2: K,
    x3: K,
    y3: K,
    l: K,
    n: K,
)
    requires
        b.wf(),
        x1.wf(),
        x2.wf(),
        x3.wf(),
        line(b, x1, y1, x2, y2, x3, y3, l, n),
    ensures
        Pt::Finite(x3, y3).on(b),
{
    broadcast use ring::group_wf;

    identities::line_square(x3, l, n);
    identities::line_cubic(x1, x2, x3, l * n + l * n, b);
    ring::lemma_mul_zero(x3);
    K::additive(x3 * x3 * x3 + b, K::zero_spec(), K::zero_spec());
}

/// The three points of a line may be rotated and swapped.
proof fn lemma_line_permutes<K: FieldLaws>(
    b: K,
    x1: K,
    y1: K,
    x2: K,
    y2: K,
    x3: K,
    y3: K,
    l: K,
    n: K,
)
    requires
        b.wf(),
        x1.wf(),
        x2.wf(),
        x3.wf(),
        line(b, x1, y1, x2, y2, x3, y3, l, n),
    ensures
        line(b, x2, y2, x3, y3, x1, y1, l, n),
        line(b, x2, y2, x1, y1, x3, y3, l, n),
{
    identities::sum_rotates(x1, x2, x3);
    identities::sum_swaps(x1, x2, x3);
}

/// A line mirrored in the axis of abscissae.
proof fn lemma_line_mirror<K: FieldLaws>(
    b: K,
    x1: K,
    y1: K,
    x2: K,
    y2: K,
    x3: K,
    y3: K,
    l: K,
    n: K,
)
    requires
        b.wf(),
        x1.wf(),
        x2.wf(),
        x3.wf(),
        line(b, x1, y1, x2, y2, x3, y3, l, n),
    ensures
        line(b, x1, -y1, x2, -y2, x3, -y3, -l, -n),
{
    broadcast use ring::group_wf;

    ring::lemma_neg_mul(l, x1);
    ring::lemma_neg_mul(l, x2);
    ring::lemma_neg_mul(l, x3);
    ring::lemma_neg_add(l * x1, n);
    ring::lemma_neg_add(l * x2, n);
    ring::lemma_neg_add(l * x3, n);
    ring::lemma_neg_mul(l, l);
    ring::lemma_neg_mul(l, n);
    ring::lemma_neg_mul(n, n);
}

// ---- conics through four points ---------------------------------------------------

/// `x² + βx + γ = σy` at a point.
spec fn on_conic<K: FieldLaws>(x: K, y: K, s: K, beta: K, gamma: K) -> bool {
    x * x + beta * x + gamma == s * y
}

/// The intercepts of two lines that meet at mirrored points cancel:
/// `n + k == -(l + m)·u`.
proof fn lemma_intercepts<K: FieldLaws>(u: K, yu: K, l: K, n: K, m: K, k: K)
    requires
        u.wf(),
        yu.wf(),
        l.wf(),
        n.wf(),
        m.wf(),
        k.wf(),
        -yu == l * u + n,
        yu == m * u + k,
    ensures
        n + k == K::zero_spec() - (l + m) * u,
        k == K::zero_spec() - (l + m) * u - n,
{
    broadcast use ring::group_wf;

    let z = K::zero_spec();
    identities::lines_add(l, n, m, k, u);
    K::additive(yu, -yu, z);
    let p = (l + m) * u;
    assert(p + (n + k) == z);
    identities::sub_add_cancel(p, n + k);
    identities::sub_add_cancel(n, k);
}

/// The line through `A`, `B`, `-U` and the line through `U`, `C`, `S` multiply to
/// a conic through `A`, `B`, `C` and `S`.
proof fn lemma_conic<K: FieldLaws>(
    b: K,
    xa: K,
    ya: K,
    xb: K,
    yb: K,
    u: K,
    yu: K,
    xc: K,
    yc: K,
    xs: K,
    ys: K,
    l: K,
    n: K,
    m: K,
    k: K,
) -> (bg: (K, K))
    requires
        b.wf(),
        xa.wf(),
        xb.wf(),
        xc.wf(),
        xs.wf(),
        u.wf(),
        yu.wf(),
        line(b, xa, ya, xb, yb, u, -yu, l, n),
        line(b, u, yu, xc, yc, xs, ys, m, k),
    ensures
        bg.0.wf(),
        bg.1.wf(),
        on_conic(xa, ya, l + m, bg.0, bg.1),
        on_conic(xb, yb, l + m, bg.0, bg.1),
        on_conic(xc, yc, l + m, bg.0, bg.1),
        on_conic(xs, ys, l + m, bg.0, bg.1),
        bg.0 == (l + m) * l - (xa + xb),
        bg.0 + bg.0 == (l + m) * (l + m) - ((xa + xb) + (xc + xs)),
{
    broadcast use ring::group_wf;

    let z = K::zero_spec();
    let s = l + m;
    let beta = s * l - (xa + xb);
    let gamma = xa * xb + s * n;
    lemma_intercepts(u, yu, l, n, m, k);
    // both lines give the same middle coefficient
    let (p, q) = (xa + xb, xc + xs);
    identities::sum_from_triple(xa, xb, u);
    identities::sum_from_triple(xc, xs, u);
    identities::sub_add_cancel(p, u);
    K::additive(u, xc, xs);
    identities::sub_add_cancel(u, q);
    identities::conic_middle(l, m, p, q, u);
    identities::sub_add_cancel(q, u);
    K::additive(q, u, u);
    assert(l * l - p == u);
    assert(m * m - q == u);
    assert(beta == s * m - q);
    // and the same constant coefficient
    identities::product_from_pairs(xa, xb, u, l * n + l * n);
    identities::sum_rotates(u, xc, xs);
    identities::product_from_pairs(xc, xs, u, m * k + m * k);
    assert(xc * xs + xc * u + xs * u == u * xc + u * xs + xc * xs);
    identities::conic_constant(l, m, n, u);
    assert(l * l - u == p) by {
        identities::sub_add_cancel(p, u);
    }
    assert(m * m - u == q);
    assert(gamma == xc * xs + s * k);
    identities::conic_at_root(xa, xb, l, n, s);
    identities::conic_at_root(xc, xs, m, k, s);
    identities::conic_trace(s, l, m, p, q);
    (beta, gamma)
}

/// A quadratic with three distinct roots is zero.
proof fn lemma_three_roots<K: FieldLaws>(f: K, g: K, h: K, x: K, y: K, w: K)
    requires
        f.wf(),
        g.wf(),
        h.wf(),
        x.wf(),
        y.wf(),
        w.wf(),
        x != y,
        x != w,
        y != w,
        f * (x * x) + g * x + h == K::zero_spec(),
        f * (y * y) + g * y + h == K::zero_spec(),
        f * (w * w) + g * w + h == K::zero_spec(),
    ensures
        f == K::zero_spec(),
        g == K::zero_spec(),
        h == K::zero_spec(),
{
    broadcast use ring::group_wf;

    let z = K::zero_spec();
    identities::zero_minus(z, z);
    identities::quadratic_difference(f, g, h, x, y);
    identities::quadratic_difference(f, g, h, x, w);
    ring::lemma_sub_zero(x, y);
    ring::lemma_sub_zero(x, w);
    ring::lemma_sub_zero(y, w);
    ring::lemma_domain(x - y, f * (x + y) + g);
    ring::lemma_domain(x - w, f * (x + w) + g);
    identities::secant_difference(f, g, x, y, w);
    ring::lemma_domain(f, y - w);
    ring::lemma_mul_zero(x + y);
    ring::lemma_mul_zero(x * x);
    ring::lemma_mul_zero(x);
    K::additive(g, z, z);
    K::additive(z, g, z);
    K::additive(h, z, z);
    K::additive(z, h, z);
    K::additive(z, z, h);
}

/// Two conics `σ, β, γ` and `τ, δ, ε`, and what their difference vanishes on.
proof fn lemma_conic_difference<K: FieldLaws>(x: K, y: K, s: K, b: K, c: K, t: K, d: K, e: K)
    requires
        x.wf(),
        y.wf(),
        s.wf(),
        b.wf(),
        c.wf(),
        t.wf(),
        d.wf(),
        e.wf(),
        on_conic(x, y, s, b, c),
        on_conic(x, y, t, d, e),
    ensures
        (t - s) * (x * x) + (t * b - s * d) * x + (t * c - s * e) == K::zero_spec(),
{
    broadcast use ring::group_wf;

    identities::conic_difference(x, s, t, b, c, d, e);
    K::multiplicative(t, s, y);
    K::multiplicative(s, t, y);
    identities::zero_minus(t * (s * y), y);
}

/// Equal, nonzero leading coefficients and a vanishing difference make two conics equal.
proof fn lemma_conic_equal<K: FieldLaws>(s: K, b: K, c: K, t: K, d: K, e: K)
    requires
        s.wf(),
        b.wf(),
        c.wf(),
        t.wf(),
        d.wf(),
        e.wf(),
        s == t,
        s != K::zero_spec(),
        t * b - s * d == K::zero_spec(),
        t * c - s * e == K::zero_spec(),
    ensures
        b == d,
        c == e,
{
    broadcast use ring::group_wf;

    ring::lemma_sub_zero(t * b, s * d);
    ring::lemma_sub_zero(t * c, s * e);
    ring::lemma_cancel(s, b, d);
    ring::lemma_cancel(s, c, e);
}

/// A conic through three points of distinct abscissae is unique.
proof fn lemma_conic_distinct<K: FieldLaws>(
    xa: K,
    ya: K,
    xb: K,
    yb: K,
    xc: K,
    yc: K,
    s: K,
    b: K,
    c: K,
    t: K,
    d: K,
    e: K,
)
    requires
        xa.wf(),
        ya.wf(),
        xb.wf(),
        yb.wf(),
        xc.wf(),
        yc.wf(),
        s.wf(),
        b.wf(),
        c.wf(),
        t.wf(),
        d.wf(),
        e.wf(),
        xa != xb,
        xa != xc,
        xb != xc,
        on_conic(xa, ya, s, b, c),
        on_conic(xb, yb, s, b, c),
        on_conic(xc, yc, s, b, c),
        on_conic(xa, ya, t, d, e),
        on_conic(xb, yb, t, d, e),
        on_conic(xc, yc, t, d, e),
    ensures
        s == t,
        s != K::zero_spec(),
        b == d,
        c == e,
{
    broadcast use ring::group_wf;

    let z = K::zero_spec();
    let one = K::one_spec();
    lemma_conic_difference(xa, ya, s, b, c, t, d, e);
    lemma_conic_difference(xb, yb, s, b, c, t, d, e);
    lemma_conic_difference(xc, yc, s, b, c, t, d, e);
    lemma_three_roots(t - s, t * b - s * d, t * c - s * e, xa, xb, xc);
    ring::lemma_sub_zero(t, s);
    if s == z {
        ring::lemma_mul_zero(ya);
        ring::lemma_mul_zero(yb);
        ring::lemma_mul_zero(yc);
        K::multiplicative(xa * xa, one, one);
        K::multiplicative(xb * xb, one, one);
        K::multiplicative(xc * xc, one, one);
        lemma_three_roots(one, b, c, xa, xb, xc);
        ring::lemma_one_nonzero::<K>();
    }
    lemma_conic_equal(s, b, c, t, d, e);
}

/// The fourth point of a conic is determined by the other three.
proof fn lemma_fourth_point<K: FieldLaws>(
    p: K,
    xc: K,
    xs: K,
    ys: K,
    xt: K,
    yt: K,
    s: K,
    b: K,
    c: K,
)
    requires
        p.wf(),
        xc.wf(),
        xs.wf(),
        ys.wf(),
        xt.wf(),
        yt.wf(),
        s.wf(),
        b.wf(),
        c.wf(),
        s != K::zero_spec(),
        on_conic(xs, ys, s, b, c),
        on_conic(xt, yt, s, b, c),
        b + b == s * s - (p + (xc + xs)),
        b + b == s * s - (p + (xc + xt)),
    ensures
        xs == xt,
        ys == yt,
{
    broadcast use ring::group_wf;

    let q = s * s;
    identities::sub_add_cancel(p, xc + xs);
    identities::sub_add_cancel(p, xc + xt);
    identities::sub_add_cancel(xc, xs);
    identities::sub_add_cancel(xc, xt);
    identities::fourth_root(q, p + (xc + xs));
    identities::fourth_root(q, p + (xc + xt));
    assert(xs == xt);
    ring::lemma_cancel(s, ys, yt);
}

// ---- the group law ------------------------------------------------------------------

/// The mirror image is on the curve, and mirroring undoes itself.
pub proof fn lemma_negated<K: FieldLaws>(p: Pt<K>, b: K)
    requires
        p.on(b),
    ensures
        p.negated().on(b),
        p.negated().negated() == p,
{
    broadcast use ring::group_wf;

    if let Pt::Finite(x, y) = p {
        ring::lemma_neg_mul(y, y);
        ring::lemma_neg_neg(y);
    }
}

/// Points of equal abscissa are equal or mirrored.
proof fn lemma_same_abscissa<K: FieldLaws>(b: K, x: K, y1: K, y2: K)
    requires
        Pt::Finite(x, y1).on(b),
        Pt::Finite(x, y2).on(b),
    ensures
        y1 == y2 || y2 == -y1,
{
    broadcast use ring::group_wf;

    identities::squares_difference(y1, y2);
    identities::zero_minus(y1 * y1, y1);
    ring::lemma_sub_zero(y1, y2);
    ring::lemma_domain(y1 - y2, y1 + y2);
    if y1 != y2 {
        ring::lemma_neg_unique(y1, y2);
    }
}

/// An affine point that is its own mirror image has ordinate zero.
proof fn lemma_mirrored<K: FieldLaws>(y: K)
    requires
        y.wf(),
    ensures
        y == -y <==> y == K::zero_spec(),
        -y == K::zero_spec() <==> y == K::zero_spec(),
{
    broadcast use ring::group_wf;

    let z = K::zero_spec();
    K::constants_wf();
    K::additive(y, y, y);
    ring::lemma_neg_neg(y);
    K::additive(z, z, z);
    ring::lemma_neg_unique(z, z);
    if y != z {
        ring::lemma_double_nonzero(y);
    }
}

/// The sum of two points of the curve is on the curve.
pub proof fn lemma_plus_on<K: FieldLaws>(p: Pt<K>, q: Pt<K>, b: K)
    requires
        b.wf(),
        p.on(b),
        q.on(b),
    ensures
        p.plus(q).on(b),
{
    if let Pt::Finite(x1, y1) = p {
        if let Pt::Finite(x2, y2) = q {
            if x1 == x2 && (y1 != y2 || y1 == K::zero_spec()) {
            } else {
                let (l, n) = lemma_sum_line(b, x1, y1, x2, y2);
                let r = p.plus(q);
                lemma_line_on(b, x1, y1, x2, y2, r->0, -r->1, l, n);
                lemma_negated(Pt::Finite(r->0, -r->1), b);
                ring::lemma_neg_neg(r->1);
            }
        }
    }
}

/// Addition commutes, on every curve.
pub proof fn lemma_plus_commutes<K: FieldLaws>(p: Pt<K>, q: Pt<K>, b: K)
    requires
        b.wf(),
        p.on(b),
        q.on(b),
    ensures
        p.plus(q) == q.plus(p),
{
    if let Pt::Finite(x1, y1) = p {
        if let Pt::Finite(x2, y2) = q {
            if x1 != x2 {
                let (l, n) = lemma_sum_line(b, x1, y1, x2, y2);
                let r = p.plus(q);
                lemma_line_permutes(b, x1, y1, x2, y2, r->0, -r->1, l, n);
                lemma_chord_sum(b, x2, y2, x1, y1, r->0, -r->1, l, n);
                ring::lemma_neg_neg(r->1);
            }
        }
    }
}

/// A point and its mirror image add to the identity, on every curve.
pub proof fn lemma_plus_negated<K: FieldLaws>(p: Pt<K>, b: K)
    requires
        p.on(b),
    ensures
        p.plus(p.negated()) == Pt::<K>::Infinity,
        p.negated().plus(p) == Pt::<K>::Infinity,
{
    if let Pt::Finite(x, y) = p {
        lemma_mirrored(y);
    }
}

/// `(P + P) + -P == P`, on every curve.
pub proof fn lemma_double_cancels<K: FieldLaws>(p: Pt<K>, b: K)
    requires
        b.wf(),
        p.on(b),
    ensures
        p.plus(p).plus(p.negated()) == p,
{
    if let Pt::Finite(x, y) = p {
        lemma_mirrored(y);
        if y != K::zero_spec() {
            let (l, n) = lemma_sum_line(b, x, y, x, y);
            let r = p.plus(p);
            let (x3, y3) = (r->0, r->1);
            ring::lemma_neg_neg(y);
            ring::lemma_neg_neg(y3);
            lemma_line_mirror(b, x, y, x, y, x3, -y3, l, n);
            lemma_line_permutes(b, x, -y, x, -y, x3, y3, -l, -n);
            lemma_line_permutes(b, x, -y, x3, y3, x, -y, -l, -n);
            lemma_chord_sum(b, x3, y3, x, -y, x, -y, -l, -n);
        }
    }
}

/// `-P + (P + Q) == Q`.
pub proof fn lemma_plus_cancels<K: FieldLaws>(p: Pt<K>, q: Pt<K>, b: K)
    requires
        smooth(b),
        p.on(b),
        q.on(b),
    ensures
        p.negated().plus(p.plus(q)) == q,
{
    lemma_plus_negated(p, b);
    if let Pt::Finite(x1, y1) = p {
        if let Pt::Finite(x2, y2) = q {
            lemma_mirrored(y1);
            if x1 == x2 {
                lemma_same_abscissa(b, x1, y1, y2);
            }
            if x1 == x2 && y2 == -y1 {
            } else {
                let (l, n) = lemma_sum_line(b, x1, y1, x2, y2);
                let r = p.plus(q);
                let (x3, y3) = (r->0, r->1);
                ring::lemma_neg_neg(y3);
                ring::lemma_neg_neg(y2);
                lemma_line_mirror(b, x1, y1, x2, y2, x3, -y3, l, n);
                lemma_line_permutes(b, x1, -y1, x2, -y2, x3, y3, -l, -n);
                lemma_line_permutes(b, x2, -y2, x3, y3, x1, -y1, -l, -n);
                lemma_line_permutes(b, x3, y3, x1, -y1, x2, -y2, -l, -n);
                lemma_line_sum(b, x1, -y1, x3, y3, x2, -y2, -l, -n);
            }
        }
    }
}

/// Whether two affine points of the curve add to an affine point.
proof fn lemma_sum_line_unmirrored<K: FieldLaws>(b: K, x1: K, y1: K, x2: K, y2: K) -> (ln: (K, K))
    requires
        smooth(b),
        Pt::Finite(x1, y1).on(b),
        Pt::Finite(x2, y2).on(b),
        !(x1 == x2 && y2 == -y1),
    ensures
        Pt::Finite(x1, y1).plus(Pt::Finite(x2, y2)) is Finite,
        Pt::Finite(x1, y1).plus(Pt::Finite(x2, y2)).on(b),
        ({
            let r = Pt::Finite(x1, y1).plus(Pt::Finite(x2, y2));
            r->0.wf() && r->1.wf() && line(b, x1, y1, x2, y2, r->0, -r->1, ln.0, ln.1)
        }),
{
    if x1 == x2 {
        lemma_same_abscissa(b, x1, y1, y2);
    }
    lemma_mirrored(y1);
    lemma_plus_on(Pt::Finite(x1, y1), Pt::Finite(x2, y2), b);
    lemma_sum_line(b, x1, y1, x2, y2)
}

/// Associativity for three affine points of distinct abscissae.
proof fn lemma_associates_distinct<K: FieldLaws>(
    b: K,
    xa: K,
    ya: K,
    xb: K,
    yb: K,
    xc: K,
    yc: K,
)
    requires
        smooth(b),
        Pt::Finite(xa, ya).on(b),
        Pt::Finite(xb, yb).on(b),
        Pt::Finite(xc, yc).on(b),
        xa != xb,
        xa != xc,
        xb != xc,
    ensures
        ({
            let (p, q, r) = (Pt::Finite(xa, ya), Pt::Finite(xb, yb), Pt::Finite(xc, yc));
            p.plus(q).plus(r) == p.plus(q.plus(r))
        }),
{
    broadcast use ring::group_wf;

    let (p, q, r) = (Pt::Finite(xa, ya), Pt::Finite(xb, yb), Pt::Finite(xc, yc));
    let (l, n) = lemma_sum_line_unmirrored(b, xa, ya, xb, yb);
    let (l2, n2) = lemma_sum_line_unmirrored(b, xb, yb, xc, yc);
    let (u, v) = (p.plus(q), q.plus(r));
    let (xu, yu) = (u->0, u->1);
    let (xv, yv) = (v->0, v->1);
    ring::lemma_neg_neg(yu);
    ring::lemma_neg_neg(yv);
    ring::lemma_neg_neg(yc);
    ring::lemma_neg_neg(ya);
    if xu == xc && yc == -yu {
        lemma_line_permutes(b, xa, ya, xb, yb, xc, yc, l, n);
        lemma_line_sum(b, xb, yb, xc, yc, xa, ya, l, n);
        lemma_plus_negated(p, b);
        lemma_plus_negated(u, b);
    } else if xa == xv && yv == -ya {
        lemma_line_permutes(b, xb, yb, xc, yc, xa, ya, l2, n2);
        lemma_line_permutes(b, xc, yc, xa, ya, xb, yb, l2, n2);
        lemma_line_sum(b, xa, ya, xb, yb, xc, yc, l2, n2);
        assert(false);
    } else {
        let (m, k) = lemma_sum_line_unmirrored(b, xu, yu, xc, yc);
        let (m2, k2) = lemma_sum_line_unmirrored(b, xa, ya, xv, yv);
        let (s, t) = (u.plus(r), p.plus(v));
        lemma_line_permutes(b, xa, ya, xv, yv, t->0, -t->1, m2, k2);
        let (b1, c1) = lemma_conic(b, xa, ya, xb, yb, xu, yu, xc, yc, s->0, -s->1, l, n, m, k);
        let (b2, c2) = lemma_conic(b, xb, yb, xc, yc, xv, yv, xa, ya, t->0, -t->1, l2, n2, m2, k2);
        lemma_conic_distinct(xa, ya, xb, yb, xc, yc, l + m, b1, c1, l2 + m2, b2, c2);
        identities::four_sums(xa, xb, xc, t->0);
        lemma_fourth_point(xa + xb, xc, s->0, -s->1, t->0, -t->1, l + m, b1, c1);
        ring::lemma_neg_neg(s->1);
        ring::lemma_neg_neg(t->1);
    }
}

/// Where a conic touches a tangent: with `l·2y = 3x²` and the two lines of
/// `A + C` and `A + V`, the conic has slope `l` at `A`.
proof fn lemma_conic_touches<K: FieldLaws>(
    b: K,
    xa: K,
    ya: K,
    xc: K,
    yc: K,
    xv: K,
    yv: K,
    xt: K,
    yt: K,
    l: K,
    m: K,
    n: K,
    j: K,
    k: K,
)
    requires
        smooth(b),
        xa.wf(),
        ya.wf(),
        xc.wf(),
        xv.wf(),
        yv.wf(),
        xt.wf(),
        l.wf(),
        ya != K::zero_spec(),
        l * (ya + ya) == xa * xa + xa * xa + xa * xa,
        line(b, xa, ya, xc, yc, xv, -yv, m, n),
        line(b, xv, yv, xa, ya, xt, yt, j, k),
    ensures
        m + j != K::zero_spec(),
        (m + j) * m - (xa + xc) == (m + j) * l - (xa + xa),
{
    broadcast use ring::group_wf;

    let z = K::zero_spec();
    let t = m + j;
    let d = xa - xv;
    let yy = ya + ya;
    // 2y == t·(xa - xv)
    lemma_intercepts(xv, yv, m, n, j, k);
    identities::lines_add(m, n, j, k, xa);
    identities::add_negative(t * xa, t * xv);
    identities::distribute_three(xa, xv, t);
    assert(yy == t * d);
    ring::lemma_double_nonzero(ya);
    ring::lemma_mul_zero(t);
    ring::lemma_mul_zero(d);
    // 3x² - m·2y == (xa - xc)·(xa - xv)
    let w = m * n + m * n;
    let cubes = xa * xa + xa * xa + xa * xa;
    identities::slope_double(xa, m, n);
    identities::slope_chord(xa, xc, xv, w);
    identities::minus_zero((xa - xc) * d);
    assert(cubes - m * yy == (xa - xc) * d);
    // cancel xa - xv
    identities::distribute_three(l, m, yy);
    K::multiplicative(l - m, t, d);
    K::multiplicative((l - m) * t, d, d);
    K::multiplicative(xa - xc, d, d);
    ring::lemma_cancel(d, (l - m) * t, xa - xc);
    identities::tangent_middle(t, l, m, xa, xc);
    identities::zero_minus(xa - xc, xa - xc);
    K::additive(t * l - (xa + xa), z, z);
}

/// Two conics that touch at `A` and meet at `C` are equal.
proof fn lemma_conic_tangent<K: FieldLaws>(
    xa: K,
    ya: K,
    xc: K,
    yc: K,
    l: K,
    s: K,
    b: K,
    c: K,
    t: K,
    d: K,
    e: K,
)
    requires
        xa.wf(),
        ya.wf(),
        xc.wf(),
        yc.wf(),
        l.wf(),
        s.wf(),
        b.wf(),
        c.wf(),
        t.wf(),
        d.wf(),
        e.wf(),
        xa != xc,
        b == s * l - (xa + xa),
        d == t * l - (xa + xa),
        on_conic(xa, ya, s, b, c),
        on_conic(xc, yc, s, b, c),
        on_conic(xa, ya, t, d, e),
        on_conic(xc, yc, t, d, e),
    ensures
        s == t,
        b == d,
        c == e,
{
    broadcast use ring::group_wf;

    let z = K::zero_spec();
    let f = xc - xa;
    ring::lemma_sub_zero(xc, xa);
    identities::shifted_conic(xa, xc, b, c);
    identities::shifted_conic(xa, xc, d, e);
    identities::tangent_shift(xa, xc, s, l);
    identities::tangent_shift(xa, xc, t, l);
    identities::tangent_conics(s, t, ya, f, l);
    K::multiplicative(t, s, yc);
    K::multiplicative(s, t, yc);
    identities::zero_minus(t * (s * yc), yc);
    ring::lemma_domain(t - s, f * f);
    if f * f == z {
        ring::lemma_domain(f, f);
    }
    ring::lemma_sub_zero(t, s);
    identities::sub_add_cancel(xa * xa + b * xa, c);
    identities::sub_add_cancel(xa * xa + b * xa, e);
}

/// Associativity when the first two points are equal: `(A + A) + C == A + (A + C)`.
proof fn lemma_associates_double<K: FieldLaws>(b: K, xa: K, ya: K, xc: K, yc: K)
    requires
        smooth(b),
        Pt::Finite(xa, ya).on(b),
        Pt::Finite(xc, yc).on(b),
        xa != xc,
    ensures
        ({
            let (p, r) = (Pt::Finite(xa, ya), Pt::Finite(xc, yc));
            p.plus(p).plus(r) == p.plus(p.plus(r))
        }),
{
    broadcast use ring::group_wf;

    let (p, r) = (Pt::Finite(xa, ya), Pt::Finite(xc, yc));
    lemma_mirrored(ya);
    if ya == K::zero_spec() {
        lemma_plus_cancels(p, r, b);
    } else {
        lemma_associates_tangent(b, xa, ya, xc, yc);
    }
}

/// The same where the tangent at the first point is not vertical.
proof fn lemma_associates_tangent<K: FieldLaws>(b: K, xa: K, ya: K, xc: K, yc: K)
    requires
        smooth(b),
        Pt::Finite(xa, ya).on(b),
        Pt::Finite(xc, yc).on(b),
        xa != xc,
        ya != K::zero_spec(),
    ensures
        ({
            let (p, r) = (Pt::Finite(xa, ya), Pt::Finite(xc, yc));
            p.plus(p).plus(r) == p.plus(p.plus(r))
        }),
{
    broadcast use ring::group_wf;

    let (p, r) = (Pt::Finite(xa, ya), Pt::Finite(xc, yc));
    lemma_mirrored(ya);
    let (l, n) = lemma_sum_line_unmirrored(b, xa, ya, xa, ya);
    let (l2, n2) = lemma_sum_line_unmirrored(b, xa, ya, xc, yc);
    let (u, v) = (p.plus(p), p.plus(r));
    let (xu, yu) = (u->0, u->1);
    let (xv, yv) = (v->0, v->1);
    ring::lemma_neg_neg(yu);
    ring::lemma_neg_neg(yv);
    ring::lemma_neg_neg(yc);
    ring::lemma_neg_neg(ya);
    if xu == xc && yc == -yu {
        lemma_line_permutes(b, xa, ya, xa, ya, xc, yc, l, n);
        lemma_line_sum(b, xa, ya, xc, yc, xa, ya, l, n);
        lemma_plus_negated(p, b);
        lemma_plus_negated(u, b);
    } else if xa == xv && yv == -ya {
        lemma_line_permutes(b, xa, ya, xc, yc, xa, ya, l2, n2);
        lemma_line_permutes(b, xc, yc, xa, ya, xa, ya, l2, n2);
        lemma_line_sum(b, xa, ya, xa, ya, xc, yc, l2, n2);
        assert(false);
    } else {
        let (m, k) = lemma_sum_line_unmirrored(b, xu, yu, xc, yc);
        let (m2, k2) = lemma_sum_line_unmirrored(b, xa, ya, xv, yv);
        let (s, t) = (u.plus(r), p.plus(v));
        lemma_line_permutes(b, xa, ya, xv, yv, t->0, -t->1, m2, k2);
        let (b1, c1) = lemma_conic(b, xa, ya, xa, ya, xu, yu, xc, yc, s->0, -s->1, l, n, m, k);
        let (b2, c2) = lemma_conic(b, xa, ya, xc, yc, xv, yv, xa, ya, t->0, -t->1, l2, n2, m2, k2);
        lemma_tangent_slope(b, xa, ya, xu, -yu, l, n);
        lemma_conic_touches(b, xa, ya, xc, yc, xv, yv, t->0, -t->1, l, l2, n2, m2, k2);
        lemma_conic_tangent(xa, ya, xc, yc, l, l + m, b1, c1, l2 + m2, b2, c2);
        identities::four_sums(xa, xa, xc, t->0);
        lemma_fourth_point(xa + xa, xc, s->0, -s->1, t->0, -t->1, l + m, b1, c1);
        ring::lemma_neg_neg(s->1);
        ring::lemma_neg_neg(t->1);
    }
}

/// Addition associates.
pub proof fn lemma_plus_associates<K: FieldLaws>(p: Pt<K>, q: Pt<K>, r: Pt<K>, b: K)
    requires
        smooth(b),
        p.on(b),
        q.on(b),
        r.on(b),
    ensures
        p.plus(q).plus(r) == p.plus(q.plus(r)),
{
    if p is Finite && q is Finite && r is Finite {
        lemma_affine_associates(p, q, r, b);
    }
}

proof fn lemma_affine_associates<K: FieldLaws>(p: Pt<K>, q: Pt<K>, r: Pt<K>, b: K)
    requires
        smooth(b),
        p.on(b),
        q.on(b),
        r.on(b),
        p is Finite,
        q is Finite,
        r is Finite,
    ensures
        p.plus(q).plus(r) == p.plus(q.plus(r)),
{
    let (xa, ya) = (p->0, p->1);
    let (xb, yb) = (q->0, q->1);
    let (xc, yc) = (r->0, r->1);
    lemma_negated(p, b);
    lemma_negated(q, b);
    lemma_plus_on(p, q, b);
    lemma_plus_on(q, r, b);
    lemma_plus_commutes(p, q, b);
    lemma_plus_commutes(q, r, b);
    lemma_plus_commutes(p, r, b);
    lemma_plus_commutes(p.plus(q), r, b);
    lemma_plus_commutes(p, q.plus(r), b);
    if q == p.negated() {
        lemma_plus_negated(p, b);
        lemma_plus_cancels(q, r, b);
    } else if r == q.negated() {
        lemma_plus_negated(q, b);
        lemma_plus_cancels(q, p, b);
    } else if r == p.negated() {
        lemma_plus_cancels(p, q, b);
        lemma_plus_cancels(r, q, b);
    } else if p == r {
    } else {
        if xa == xb {
            lemma_same_abscissa(b, xa, ya, yb);
        }
        if xb == xc {
            lemma_same_abscissa(b, xb, yb, yc);
        }
        if xa == xc {
            lemma_same_abscissa(b, xa, ya, yc);
        }
        if p == q {
            lemma_associates_double(b, xa, ya, xc, yc);
        } else if q == r {
            lemma_associates_double(b, xb, yb, xa, ya);
        } else {
            lemma_associates_distinct(b, xa, ya, xb, yb, xc, yc);
        }
    }
}

} // verus!
