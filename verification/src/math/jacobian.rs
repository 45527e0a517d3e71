//! Jacobian coordinates: `(X : Y : Z)` stands for `(X/Z², Y/Z³)`, and for the
//! identity when `Z = 0`. The division-free formulas for sums and doubles are
//! the chord-and-tangent law at a common scale.

use vstd::prelude::*;

use super::curve::Pt;
use super::identities;
use super::ring;
use super::ring::{FieldLaws, Ring};

verus! {

/// The point with given Jacobian coordinates.
pub open spec fn point<K: FieldLaws>(x: K, y: K, z: K) -> Pt<K> {
    if z == K::zero_spec() {
        Pt::Infinity
    } else {
        let i = z.inv_spec();
        Pt::Finite(x * (i * i), y * (i * i * i))
    }
}

proof fn lemma_ones<K: FieldLaws>(x: K, i: K, z: K)
    requires
        x.wf(),
        i.wf(),
        z.wf(),
        i * z == K::one_spec(),
    ensures
        x * ((i * z) * (i * z)) == x,
        x * ((i * z) * (i * z) * (i * z)) == x,
{
    broadcast use ring::group_wf;

    K::multiplicative(K::one_spec(), K::one_spec(), K::one_spec());
    K::multiplicative(x, x, x);
}

/// The coordinates are the affine ones at scale `z`.
pub proof fn lemma_coordinates<K: FieldLaws>(x: K, y: K, z: K)
    requires
        x.wf(),
        y.wf(),
        z.wf(),
        z != K::zero_spec(),
    ensures
        point(x, y, z) matches Pt::Finite(a, b) && a.wf() && b.wf() && x == a * (z * z) && y == b * (
        z * z * z),
{
    broadcast use ring::group_wf;

    K::inverse_law(z);
    let i = z.inv_spec();
    K::multiplicative(i, z, z);
    identities::descale(x, y, i, z);
    lemma_ones(x, i, z);
    lemma_ones(y, i, z);
}

/// Every scale gives the same point.
pub proof fn lemma_scaled<K: FieldLaws>(a: K, b: K, z: K)
    requires
        a.wf(),
        b.wf(),
        z.wf(),
        z != K::zero_spec(),
    ensures
        point(a * (z * z), b * (z * z * z), z) == Pt::Finite(a, b),
{
    broadcast use ring::group_wf;

    K::inverse_law(z);
    let i = z.inv_spec();
    identities::descale(a, b, z, i);
    lemma_ones(a, z, i);
    lemma_ones(b, z, i);
}

/// A square of a nonzero element is not zero, nor is its cube.
proof fn lemma_powers_nonzero<K: FieldLaws>(m: K)
    requires
        m.wf(),
        m != K::zero_spec(),
    ensures
        m * m != K::zero_spec(),
        m * m * m != K::zero_spec(),
{
    broadcast use ring::group_wf;

    if m * m == K::zero_spec() {
        ring::lemma_domain(m, m);
    }
    if m * m * m == K::zero_spec() {
        ring::lemma_domain(m * m, m);
    }
}

/// Scaling by a nonzero element keeps values apart.
proof fn lemma_scale_injective<K: FieldLaws>(a: K, b: K, m: K)
    requires
        a.wf(),
        b.wf(),
        m.wf(),
        m != K::zero_spec(),
    ensures
        a * m == b * m <==> a == b,
{
    broadcast use ring::group_wf;

    K::multiplicative(a, m, m);
    K::multiplicative(b, m, m);
    if a * m == b * m {
        ring::lemma_cancel(m, a, b);
    }
}

/// Mirroring keeps the scale.
pub proof fn lemma_negated<K: FieldLaws>(x: K, y: K, z: K)
    requires
        x.wf(),
        y.wf(),
        z.wf(),
    ensures
        point(x, -y, z) == point(x, y, z).negated(),
{
    broadcast use ring::group_wf;

    if z != K::zero_spec() {
        K::inverse_law(z);
        let i = z.inv_spec();
        ring::lemma_neg_mul(y, i * i * i);
    }
}

/// Doubling: the width `w` of the result is zero exactly for points of order two, and
/// otherwise the coordinates are those of the double at scale `w`.
pub proof fn lemma_double<K: FieldLaws>(x: K, y: K, z: K)
    requires
        x.wf(),
        y.wf(),
        z.wf(),
        z != K::zero_spec(),
    ensures
        ({
            let a = x * x;
            let b = y * y;
            let c = b * b;
            let t = (x + b) * (x + b) - a - c;
            let d = t + t;
            let e = (a + a) + a;
            let x3 = e * e - (d + d);
            let c4 = (c + c) + (c + c);
            let y3 = e * (d - x3) - (c4 + c4);
            let w = y * z + y * z;
            &&& point(x3, y3, w) == point(x, y, z).plus(point(x, y, z))
            &&& x3.wf() && y3.wf() && w.wf()
        }),
{
    broadcast use ring::group_wf;

    let o = K::zero_spec();
    lemma_coordinates(x, y, z);
    let p = point(x, y, z);
    let (u, v) = (p->Finite_0, p->Finite_1);
    let s = z * z;
    let q = v * (s * s);
    let w = y * z + y * z;
    identities::double_width(v, z);
    identities::double_product(u, v, s);
    assert(w == q + q);
    let a = x * x;
    let b = y * y;
    let c = b * b;
    let t = (x + b) * (x + b) - a - c;
    let d = t + t;
    let e = (a + a) + a;
    let x3 = e * e - (d + d);
    let c4 = (c + c) + (c + c);
    let y3 = e * (d - x3) - (c4 + c4);
    lemma_powers_nonzero(z);
    lemma_powers_nonzero(s);
    ring::lemma_mul_zero(s * s);
    K::additive(o, o, o);
    if v == o {
        assert(w == o);
    } else {
        if q == o {
            ring::lemma_domain(v, s * s);
        }
        ring::lemma_double_nonzero(q);
        ring::lemma_double_nonzero(v);
        let r = u * u + u * u + u * u;
        let l = r * (v + v).inv_spec();
        K::inverse_law(v + v);
        ring::lemma_quotient(r, v + v);
        assert(e == l * w) by {
            identities::double_rise(u, z);
            K::multiplicative(l, v + v, s * s);
        }
        assert(b == (v * v) * (s * s * s) && x * b == u * (q * q)) by {
            identities::double_shift(u, v, s, z * z * z);
            identities::cube_squared(z);
        }
        assert(d == u * (w * w)) by {
            identities::double_span(x, b);
            identities::double_multiple(u, q);
        }
        assert(c4 + c4 == v * (w * w * w)) by {
            identities::double_multiple(v, q);
        }
        identities::double_abscissa(l, w, u);
        let x3a = l * l - u - u;
        assert(x3 == x3a * (w * w));
        identities::sum_ordinate(l, w, u, x3a, v);
        let y3a = l * (u - x3a) - v;
        assert(y3 == y3a * (w * w * w));
        lemma_scaled(x3a, y3a, w);
        assert(p.plus(p) == Pt::Finite(x3a, y3a));
    }
}

/// Two points brought to the common scale `m`: their differences vanish together with those
/// of the affine coordinates.
proof fn lemma_differences<K: FieldLaws>(x1: K, y1: K, x2: K, y2: K, m: K)
    requires
        x1.wf(),
        y1.wf(),
        x2.wf(),
        y2.wf(),
        m.wf(),
        m != K::zero_spec(),
    ensures
        ({
            let h = x2 * (m * m) - x1 * (m * m);
            let g = y2 * (m * m * m) - y1 * (m * m * m);
            &&& h == K::zero_spec() <==> x1 == x2
            &&& g + g == K::zero_spec() <==> y1 == y2
        }),
{
    broadcast use ring::group_wf;

    lemma_powers_nonzero(m);
    lemma_scale_injective(x2, x1, m * m);
    lemma_scale_injective(y2, y1, m * m * m);
    ring::lemma_sub_zero(x2 * (m * m), x1 * (m * m));
    ring::lemma_sub_zero(y2 * (m * m * m), y1 * (m * m * m));
    let g = y2 * (m * m * m) - y1 * (m * m * m);
    K::additive(K::zero_spec(), K::zero_spec(), K::zero_spec());
    if g != K::zero_spec() {
        ring::lemma_double_nonzero(g);
    }
}

/// The chord of two points with different abscissae, at the common scale `m`: the coordinates
/// are those of the sum at scale `2mh`.
proof fn lemma_chord<K: FieldLaws>(x1: K, y1: K, x2: K, y2: K, m: K)
    requires
        x1.wf(),
        y1.wf(),
        x2.wf(),
        y2.wf(),
        m.wf(),
        m != K::zero_spec(),
        x1 != x2,
    ensures
        ({
            let (u1, s1) = (x1 * (m * m), y1 * (m * m * m));
            let h = x2 * (m * m) - u1;
            let g = y2 * (m * m * m) - s1;
            let r = g + g;
            let i = (h + h) * (h + h);
            let j = h * i;
            let v = u1 * i;
            let x3 = r * r - j - (v + v);
            let y3 = r * (v - x3) - (s1 * j + s1 * j);
            let w = m * h + m * h;
            &&& point(x3, y3, w) == Pt::Finite(x1, y1).plus(Pt::Finite(x2, y2))
            &&& x3.wf() && y3.wf() && w.wf()
        }),
{
    broadcast use ring::group_wf;

    let o = K::zero_spec();
    let (u1, s1) = (x1 * (m * m), y1 * (m * m * m));
    let h = x2 * (m * m) - u1;
    let g = y2 * (m * m * m) - s1;
    let r = g + g;
    let i = (h + h) * (h + h);
    let j = h * i;
    let v = u1 * i;
    let x3 = r * r - j - (v + v);
    let y3 = r * (v - x3) - (s1 * j + s1 * j);
    let w = m * h + m * h;
    let d = x2 - x1;
    let f = y2 - y1;
    lemma_differences(x1, y1, x2, y2, m);
    ring::lemma_sub_zero(x2, x1);
    if m * h == o {
        ring::lemma_domain(m, h);
    }
    ring::lemma_double_nonzero(m * h);
    K::inverse_law(d);
    let l = f * d.inv_spec();
    ring::lemma_quotient(f, d);
    identities::chord_span(x1, x2, m);
    identities::chord_span(y1, y2, m);
    assert(r == l * w) by {
        identities::chord_rise(l, d, m);
    }
    identities::chord_scale(x1, m, h);
    assert(v == x1 * (w * w));
    identities::chord_scale(d, m, h);
    assert(j == d * (w * w));
    identities::chord_cube(y1, m, h);
    assert(s1 * j + s1 * j == y1 * (w * w * w));
    identities::chord_abscissa(l, w, x1, x2);
    let x3a = l * l - x1 - x2;
    assert(x3 == x3a * (w * w));
    identities::sum_ordinate(l, w, x1, x3a, y1);
    let y3a = l * (x1 - x3a) - y1;
    assert(y3 == y3a * (w * w * w));
    lemma_scaled(x3a, y3a, w);
}

/// The sum of two points in Jacobian coordinates, apart from the doubling case.
pub proof fn lemma_sum<K: FieldLaws>(x1: K, y1: K, z1: K, x2: K, y2: K, z2: K)
    requires
        x1.wf(),
        y1.wf(),
        z1.wf(),
        x2.wf(),
        y2.wf(),
        z2.wf(),
        z1 != K::zero_spec(),
        z2 != K::zero_spec(),
    ensures
        ({
            let (z1z1, z2z2) = (z1 * z1, z2 * z2);
            let (u1, u2) = (x1 * z2z2, x2 * z1z1);
            let (s1, s2) = (y1 * z2 * z2z2, y2 * z1 * z1z1);
            let h = u2 - u1;
            let g = s2 - s1;
            let r = g + g;
            let i = (h + h) * (h + h);
            let j = h * i;
            let v = u1 * i;
            let x3 = r * r - j - (v + v);
            let y3 = r * (v - x3) - (s1 * j + s1 * j);
            let w = ((z1 + z2) * (z1 + z2) - z1z1 - z2z2) * h;
            let (p, q) = (point(x1, y1, z1), point(x2, y2, z2));
            &&& h == K::zero_spec() && r == K::zero_spec() ==> p == q
            &&& h == K::zero_spec() && r != K::zero_spec() ==> p.plus(q) == Pt::<K>::Infinity
            &&& h != K::zero_spec() ==> point(x3, y3, w) == p.plus(q) && x3.wf() && y3.wf()
                && w.wf()
        }),
{
    broadcast use ring::group_wf;

    lemma_coordinates(x1, y1, z1);
    lemma_coordinates(x2, y2, z2);
    let (p, q) = (point(x1, y1, z1), point(x2, y2, z2));
    let (a1, b1) = (p->Finite_0, p->Finite_1);
    let (a2, b2) = (q->Finite_0, q->Finite_1);
    let m = z1 * z2;
    if m == K::zero_spec() {
        ring::lemma_domain(z1, z2);
    }
    identities::common_scale(a1, b1, z1, z2);
    identities::common_scale(a2, b2, z1, z2);
    lemma_differences(a1, b1, a2, b2, m);
    let h = x2 * (z1 * z1) - x1 * (z2 * z2);
    identities::chord_width(z1, z2, h);
    if a1 != a2 {
        lemma_chord(a1, b1, a2, b2, m);
    }
}

/// The sum of a point in Jacobian coordinates and an affine one, apart from the doubling case.
pub proof fn lemma_mixed_sum<K: FieldLaws>(x1: K, y1: K, z1: K, x2: K, y2: K)
    requires
        x1.wf(),
        y1.wf(),
        z1.wf(),
        x2.wf(),
        y2.wf(),
        z1 != K::zero_spec(),
    ensures
        ({
            let z1z1 = z1 * z1;
            let u2 = x2 * z1z1;
            let s2 = y2 * z1 * z1z1;
            let h = u2 - x1;
            let g = s2 - y1;
            let r = g + g;
            let hh = h * h;
            let i = (hh + hh) + (hh + hh);
            let j = h * i;
            let v = x1 * i;
            let x3 = r * r - j - (v + v);
            let y3 = r * (v - x3) - (y1 * j + y1 * j);
            let w = (z1 + h) * (z1 + h) - z1z1 - hh;
            let (p, q) = (point(x1, y1, z1), Pt::Finite(x2, y2));
            &&& h == K::zero_spec() && r == K::zero_spec() ==> p == q
            &&& h == K::zero_spec() && r != K::zero_spec() ==> p.plus(q) == Pt::<K>::Infinity
            &&& h != K::zero_spec() ==> point(x3, y3, w) == p.plus(q) && x3.wf() && y3.wf()
                && w.wf()
        }),
{
    broadcast use ring::group_wf;

    lemma_coordinates(x1, y1, z1);
    let p = point(x1, y1, z1);
    let (a1, b1) = (p->Finite_0, p->Finite_1);
    let h = x2 * (z1 * z1) - x1;
    identities::mixed_width(y2, z1);
    identities::mixed_width(z1, h);
    lemma_differences(a1, b1, x2, y2, z1);
    if a1 != x2 {
        lemma_chord(a1, b1, x2, y2, z1);
    }
}

/// Cross-multiplied coordinates are equal exactly when the points are.
pub proof fn lemma_same<K: FieldLaws>(x1: K, y1: K, z1: K, x2: K, y2: K, z2: K)
    requires
        x1.wf(),
        y1.wf(),
        z1.wf(),
        x2.wf(),
        y2.wf(),
        z2.wf(),
        z1 != K::zero_spec(),
        z2 != K::zero_spec(),
    ensures
        ({
            let (z1z1, z2z2) = (z1 * z1, z2 * z2);
            point(x1, y1, z1) == point(x2, y2, z2) <==> x1 * z2z2 == x2 * z1z1 && y1 * z2z2 * z2
                == y2 * z1z1 * z1
        }),
{
    broadcast use ring::group_wf;

    lemma_coordinates(x1, y1, z1);
    lemma_coordinates(x2, y2, z2);
    let (p, q) = (point(x1, y1, z1), point(x2, y2, z2));
    let (a1, b1) = (p->Finite_0, p->Finite_1);
    let (a2, b2) = (q->Finite_0, q->Finite_1);
    let m = z1 * z2;
    if m == K::zero_spec() {
        ring::lemma_domain(z1, z2);
    }
    identities::common_scale(a1, b1, z1, z2);
    identities::common_scale(a2, b2, z1, z2);
    lemma_powers_nonzero(m);
    lemma_scale_injective(a1, a2, m * m);
    lemma_scale_injective(b1, b2, m * m * m);
}

} // verus!
