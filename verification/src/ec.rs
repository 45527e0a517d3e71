//! Short-Weierstrass curve arithmetic for `y² = x³ + b` (a = 0), generic over
//! the coordinate field so that BN254's G1 (over `Fp`) and G2 (over `Fp2`)
//! share one implementation. Jacobian coordinates for accumulation, affine for
//! storage: the proving key stores affine points and a multi-scalar sum adds
//! affine points into Jacobian buckets.

use vstd::arithmetic::div_mod::*;
use vstd::arithmetic::power::*;
use vstd::prelude::*;

use crate::consts;
use crate::field::{Field, Fp, Fr};
use crate::fp2::Fp2;
use crate::limbs;
use crate::math::certificates;
use crate::math::curve;
use crate::math::curve::Pt;
use crate::math::group;
use crate::math::jacobian;
use crate::math::ring;
use crate::math::ring::{FieldLaws, Ring};

verus! {

/// An affine point, or the point at infinity.
#[derive(Clone, Copy, Debug, Hash)]
pub struct Affine<F: Field> {
    /// x coordinate (unspecified when `infinity`).
    pub x: F,
    /// y coordinate (unspecified when `infinity`).
    pub y: F,
    /// Whether this is the identity.
    pub infinity: bool,
}

/// A point in Jacobian coordinates `(X : Y : Z)` with `x = X/Z²`, `y = Y/Z³`;
/// the identity is any point with `Z = 0`.
#[derive(Clone, Copy, Debug)]
pub struct Jacobian<F: Field> {
    /// X coordinate.
    pub x: F,
    /// Y coordinate.
    pub y: F,
    /// Z coordinate; zero for the identity.
    pub z: F,
}

impl<F: Field> Affine<F> {
    /// The coordinates are reduced.
    pub open spec fn wf(self) -> bool {
        self.x.wf() && self.y.wf()
    }

    /// The point of the curve.
    pub open spec fn pt(self) -> Pt<F> {
        if self.infinity {
            Pt::Infinity
        } else {
            Pt::Finite(self.x, self.y)
        }
    }

    /// The point at infinity.
    pub open spec fn infinity_spec() -> Self {
        Affine { x: F::zero_spec(), y: F::zero_spec(), infinity: true }
    }

    /// The point at infinity.
    pub fn infinity() -> (r: Self)
        ensures
            r == Affine::<F>::infinity_spec(),
            r.wf(),
            r.pt() == Pt::<F>::Infinity,
    {
        proof {
            F::constants_wf();
        }
        Affine { x: F::zero(), y: F::zero(), infinity: true }
    }

    /// A finite point.
    pub fn new(x: F, y: F) -> (r: Self)
        ensures
            r == (Affine { x, y, infinity: false }),
    {
        Affine { x, y, infinity: false }
    }

    /// `-P`.
    pub fn neg(&self) -> (r: Self)
        ensures
            r == (if self.infinity {
                *self
            } else {
                Affine { x: self.x, y: -self.y, infinity: false }
            }),
            r.pt() == self.pt().negated(),
            self.wf() ==> r.wf(),
    {
        proof {
            if self.wf() {
                F::closed(self.y, self.y);
            }
        }
        if self.infinity {
            *self
        } else {
            Affine::new(self.x, self.y.neg())
        }
    }

    /// Whether `y² = x³ + b` holds (the identity is on every curve).
    pub fn is_on_curve(&self, b: &F) -> (r: bool)
        ensures
            r == (self.infinity || self.y.square_spec() == self.x.square_spec() * self.x + *b),
            self.wf() ==> r == self.pt().on(*b),
    {
        proof {
            if self.wf() {
                F::square_law(self.x);
                F::square_law(self.y);
            }
        }
        self.infinity || self.y.square().same(&self.x.square().mul(&self.x).add(b))
    }

    /// Lift to Jacobian coordinates.
    pub fn to_jacobian(&self) -> (r: Jacobian<F>)
        ensures
            r == (if self.infinity {
                Jacobian::<F>::infinity_spec()
            } else {
                Jacobian { x: self.x, y: self.y, z: F::one_spec() }
            }),
            self.wf() ==> r.wf() && r.pt() == self.pt(),
    {
        proof {
            F::constants_wf();
            if self.wf() {
                ring::lemma_one_nonzero::<F>();
                let o = F::one_spec();
                jacobian::lemma_scaled(self.x, self.y, o);
                F::multiplicative(o, o, o);
                F::multiplicative(self.x, o, o);
                F::multiplicative(self.y, o, o);
            }
        }
        if self.infinity {
            Jacobian::infinity()
        } else {
            Jacobian { x: self.x, y: self.y, z: F::one() }
        }
    }
}

/// Two affine points are equal when all their fields are.
impl<F: Field> PartialEq for Affine<F> {
    fn eq(&self, other: &Self) -> (r: bool) {
        self.x.same(&other.x) && self.y.same(&other.y) && self.infinity == other.infinity
    }
}

impl<F: Field> vstd::std_specs::cmp::PartialEqSpecImpl for Affine<F> {
    open spec fn obeys_eq_spec() -> bool {
        true
    }

    open spec fn eq_spec(&self, other: &Self) -> bool {
        self.x == other.x && self.y == other.y && self.infinity == other.infinity
    }
}

impl<F: Field> Eq for Affine<F> {

}

impl<F: Field> Jacobian<F> {
    /// The coordinates are reduced.
    pub open spec fn wf(self) -> bool {
        self.x.wf() && self.y.wf() && self.z.wf()
    }

    /// The point of the curve.
    pub open spec fn pt(self) -> Pt<F> {
        jacobian::point(self.x, self.y, self.z)
    }

    /// The point at infinity.
    pub open spec fn infinity_spec() -> Self {
        Jacobian { x: F::one_spec(), y: F::one_spec(), z: F::zero_spec() }
    }

    /// The point at infinity.
    pub fn infinity() -> (r: Self)
        ensures
            r == Jacobian::<F>::infinity_spec(),
            r.wf(),
            r.pt() == Pt::<F>::Infinity,
    {
        proof {
            F::constants_wf();
        }
        Jacobian { x: F::one(), y: F::one(), z: F::zero() }
    }

    /// Whether this is the identity.
    #[inline]
    pub fn is_infinity(&self) -> (r: bool)
        ensures
            r == (self.z == F::zero_spec()),
            r == (self.pt() is Infinity),
    {
        self.z.is_zero()
    }

    /// `-P`.
    pub fn neg(&self) -> (r: Self)
        ensures
            r == (Jacobian { x: self.x, y: -self.y, z: self.z }),
            self.wf() ==> r.wf() && r.pt() == self.pt().negated(),
    {
        proof {
            if self.wf() {
                F::closed(self.y, self.y);
                jacobian::lemma_negated(self.x, self.y, self.z);
            }
        }
        Jacobian { x: self.x, y: self.y.neg(), z: self.z }
    }

    /// `2P` (dbl-2009-l, a = 0).
    pub fn double(&self) -> (r: Self)
        ensures
            self.wf() ==> r.wf() && r.pt() == self.pt().plus(self.pt()),
    {
        if self.is_infinity() {
            return *self;
        }
        let a = self.x.square();
        let b = self.y.square();
        let c = b.square();
        let d = self.x.add(&b).square().sub(&a).sub(&c).double();
        let e = a.double().add(&a);
        let f = e.square();
        let x3 = f.sub(&d.double());
        let eight_c = c.double().double().double();
        let y3 = e.mul(&d.sub(&x3)).sub(&eight_c);
        let z3 = self.y.mul(&self.z).double();
        proof {
            if self.wf() {
                broadcast use ring::group_wf;

                F::square_law(self.x);
                F::square_law(self.y);
                F::square_law(b);
                F::square_law(self.x + b);
                F::square_law(e);
                jacobian::lemma_double(self.x, self.y, self.z);
            }
        }
        Jacobian { x: x3, y: y3, z: z3 }
    }

    /// `P + Q` (add-2007-bl, with the doubling and inverse cases handled).
    pub fn add(&self, other: &Self) -> (r: Self)
        ensures
            self.wf() && other.wf() ==> r.wf() && r.pt() == self.pt().plus(other.pt()),
    {
        if self.is_infinity() {
            return *other;
        }
        if other.is_infinity() {
            return *self;
        }
        let z1z1 = self.z.square();
        let z2z2 = other.z.square();
        let u1 = self.x.mul(&z2z2);
        let u2 = other.x.mul(&z1z1);
        let s1 = self.y.mul(&other.z).mul(&z2z2);
        let s2 = other.y.mul(&self.z).mul(&z1z1);
        let h = u2.sub(&u1);
        let rr = s2.sub(&s1).double();
        proof {
            if self.wf() && other.wf() {
                broadcast use ring::group_wf;

                F::square_law(self.z);
                F::square_law(other.z);
                jacobian::lemma_sum(self.x, self.y, self.z, other.x, other.y, other.z);
                F::square_law(rr);
                F::square_law(h + h);
                F::square_law(self.z + other.z);
            }
        }
        if h.is_zero() {
            return if rr.is_zero() {
                self.double()
            } else {
                Jacobian::infinity()
            };
        }
        let i = h.double().square();
        let j = h.mul(&i);
        let v = u1.mul(&i);
        let x3 = rr.square().sub(&j).sub(&v.double());
        let y3 = rr.mul(&v.sub(&x3)).sub(&s1.mul(&j).double());
        let z3 = self.z.add(&other.z).square().sub(&z1z1).sub(&z2z2).mul(&h);
        Jacobian { x: x3, y: y3, z: z3 }
    }

    /// `P + Q` for an affine `Q` (madd-2007-bl); the bucket step of a multi-scalar sum.
    pub fn add_affine(&self, other: &Affine<F>) -> (r: Self)
        ensures
            self.wf() && other.wf() ==> r.wf() && r.pt() == self.pt().plus(other.pt()),
    {
        if other.infinity {
            return *self;
        }
        if self.is_infinity() {
            return other.to_jacobian();
        }
        let z1z1 = self.z.square();
        let u2 = other.x.mul(&z1z1);
        let s2 = other.y.mul(&self.z).mul(&z1z1);
        let h = u2.sub(&self.x);
        let rr = s2.sub(&self.y).double();
        proof {
            if self.wf() && other.wf() {
                broadcast use ring::group_wf;

                F::square_law(self.z);
                jacobian::lemma_mixed_sum(self.x, self.y, self.z, other.x, other.y);
                F::square_law(rr);
                F::square_law(h);
                F::square_law(self.z + h);
            }
        }
        if h.is_zero() {
            return if rr.is_zero() {
                self.double()
            } else {
                Jacobian::infinity()
            };
        }
        let hh = h.square();
        let i = hh.double().double();
        let j = h.mul(&i);
        let v = self.x.mul(&i);
        let x3 = rr.square().sub(&j).sub(&v.double());
        let y3 = rr.mul(&v.sub(&x3)).sub(&self.y.mul(&j).double());
        let z3 = self.z.add(&h).square().sub(&z1z1).sub(&hh);
        Jacobian { x: x3, y: y3, z: z3 }
    }

    /// `k·P` for a canonical little-endian limb scalar (double-and-add).
    pub fn mul_limbs(&self, k: &[u64; 4]) -> (acc: Self)
        ensures
            self.wf() ==> acc.wf() && acc.pt() == group::doubled(
                self.pt(),
                limbs::value(*k) as nat,
            ),
            forall|b: F|
                curve::smooth(b) && self.wf() && #[trigger] self.pt().on(b) ==> acc.pt()
                    == group::times(self.pt(), limbs::value(*k) as nat),
    {
        let mut acc = Jacobian::infinity();
        let mut i: u32 = 256;
        proof {
            limbs::lemma_bits_start(*k);
        }
        while i > 0
            invariant
                i <= 256,
                self.wf() ==> acc.wf() && acc.pt() == group::doubled(
                    self.pt(),
                    limbs::leading(*k, i as nat),
                ),
            decreases i,
        {
            i -= 1;
            acc = acc.double();
            let ghost h = limbs::leading(*k, (i + 1) as nat);
            proof {
                limbs::lemma_bits_step(*k, i as nat);
            }
            if limbs::bit_at(k, i) {
                acc = acc.add(self);
            }
            proof {
                if self.wf() && limbs::leading(*k, i as nat) == 0 {
                    assert(h == 0);
                }
            }
        }
        proof {
            limbs::lemma_bits_end(*k);
            assert forall|b: F| curve::smooth(b) && self.wf() && #[trigger] self.pt().on(
                b,
            ) implies acc.pt() == group::times(self.pt(), limbs::value(*k) as nat) by {
                group::lemma_doubled(self.pt(), limbs::value(*k) as nat, b);
            }
        }
        acc
    }

    /// `k·P` for a scalar-field element.
    pub fn mul(&self, k: &Fr) -> (r: Self)
        ensures
            self.wf() ==> r.wf() && r.pt() == group::doubled(self.pt(), k.val() as nat),
            forall|b: F|
                curve::smooth(b) && self.wf() && #[trigger] self.pt().on(b) ==> r.pt()
                    == group::times(self.pt(), k.val() as nat),
    {
        self.mul_limbs(&k.to_canonical())
    }

    /// The affine form: `(x/z², y/z³)` as the field's operations compute it, also of coordinates
    /// that are not reduced.
    pub open spec fn affine_form(self) -> Affine<F> {
        match self.z.inverse_spec() {
            None => Affine::<F>::infinity_spec(),
            Some(i) => Affine {
                x: self.x * i.square_spec(),
                y: self.y * (i.square_spec() * i),
                infinity: false,
            },
        }
    }

    /// Normalise to affine coordinates (one field inversion).
    pub fn to_affine(&self) -> (r: Affine<F>)
        ensures
            r == self.affine_form(),
            self.wf() ==> r.wf() && r.pt() == self.pt(),
            self.wf() && self.pt() is Infinity ==> r == Affine::<F>::infinity_spec(),
    {
        match self.z.inverse() {
            None => Affine::infinity(),
            Some(zinv) => {
                let zinv2 = zinv.square();
                let zinv3 = zinv2.mul(&zinv);
                proof {
                    if self.wf() {
                        broadcast use ring::group_wf;

                        F::inverse_law(self.z);
                        F::square_law(zinv);
                    }
                }
                Affine::new(self.x.mul(&zinv2), self.y.mul(&zinv3))
            },
        }
    }
}

impl<F: Field> Jacobian<F> {
    /// `==` is equality of points.
    pub proof fn lemma_eq(a: Self, b: Self)
        requires
            a.wf(),
            b.wf(),
        ensures
            vstd::std_specs::cmp::PartialEqSpec::eq_spec(&a, &b) <==> a.pt() == b.pt(),
    {
        F::square_law(a.z);
        F::square_law(b.z);
        if a.z != F::zero_spec() && b.z != F::zero_spec() {
            jacobian::lemma_same(a.x, a.y, a.z, b.x, b.y, b.z);
        }
    }
}

/// Projective equality: the same affine point (both infinite, or
/// `X1·Z2² = X2·Z1²` and `Y1·Z2³ = Y2·Z1³`).
impl<F: Field> PartialEq for Jacobian<F> {
    fn eq(&self, other: &Self) -> (r: bool) {
        match (self.is_infinity(), other.is_infinity()) {
            (true, true) => true,
            (true, false) => false,
            (false, true) => false,
            (false, false) => {
                let z1z1 = self.z.square();
                let z2z2 = other.z.square();
                self.x.mul(&z2z2).same(&other.x.mul(&z1z1)) && self.y.mul(&z2z2).mul(
                    &other.z,
                ).same(&other.y.mul(&z1z1).mul(&self.z))
            },
        }
    }
}

impl<F: Field> vstd::std_specs::cmp::PartialEqSpecImpl for Jacobian<F> {
    open spec fn obeys_eq_spec() -> bool {
        true
    }

    open spec fn eq_spec(&self, other: &Self) -> bool {
        if self.z == F::zero_spec() || other.z == F::zero_spec() {
            self.z == other.z
        } else {
            let z1z1 = self.z.square_spec();
            let z2z2 = other.z.square_spec();
            &&& self.x * z2z2 == other.x * z1z1
            &&& self.y * z2z2 * other.z == other.y * z1z1 * self.z
        }
    }
}

impl<F: Field> Eq for Jacobian<F> {

}

/// BN254 G1 in affine coordinates.
pub type G1Affine = Affine<Fp>;

/// BN254 G1 in Jacobian coordinates.
pub type G1Jacobian = Jacobian<Fp>;

/// BN254 G2 in affine coordinates.
pub type G2Affine = Affine<Fp2>;

/// BN254 G2 in Jacobian coordinates.
pub type G2Jacobian = Jacobian<Fp2>;

/// The G1 curve constant `b = 3`.
pub open spec fn g1_b_spec() -> Fp {
    Fp::of(3)
}

/// The G2 twist constant `b' = 3/(9+u)`.
pub open spec fn g2_b_spec() -> Fp2 {
    Fp2 {
        c0: Fp::of(limbs::value(consts::G2_B_C0_CANONICAL)),
        c1: Fp::of(limbs::value(consts::G2_B_C1_CANONICAL)),
    }
}

/// The G1 curve constant `b = 3`.
pub fn g1_b() -> (r: Fp)
    ensures
        r == g1_b_spec(),
        r.wf(),
        r.val() == 3,
{
    let c = consts::G1_B_CANONICAL;
    assert(limbs::value(c) == 3);
    Fp::from_canonical(c)
}

/// The G2 twist constant `b' = 3/(9+u)`.
pub fn g2_b() -> (r: Fp2)
    ensures
        r == g2_b_spec(),
        r.wf(),
        (Fp2 { c0: Fp::of(9), c1: Fp::of(1) }) * r == (Fp2 { c0: Fp::of(3), c1: Fp::of(0) }),
{
    proof {
        lemma_g2_b();
    }
    let (c0, c1) = (consts::G2_B_C0_CANONICAL, consts::G2_B_C1_CANONICAL);
    Fp2::new(Fp::from_canonical(c0), Fp::from_canonical(c1))
}

/// The twist constant in numbers.
pub proof fn lemma_g2_b()
    ensures
        limbs::value(consts::G2_B_C0_CANONICAL)
            == 0x2b149d40ceb8aaae81be18991be06ac3b5b4c5e559dbefa33267e6dc24a138e5int,
        limbs::value(consts::G2_B_C1_CANONICAL)
            == 0x9713b03af0fed4cd2cafadeed8fdf4a74fa084e52d1852e4a2bd0685c315d2int,
        g2_b_spec().c0.val()
            == 0x2b149d40ceb8aaae81be18991be06ac3b5b4c5e559dbefa33267e6dc24a138e5int,
        g2_b_spec().c1.val()
            == 0x9713b03af0fed4cd2cafadeed8fdf4a74fa084e52d1852e4a2bd0685c315d2int,
        limbs::value(consts::G2_B_C0_CANONICAL) < certificates::q(),
        limbs::value(consts::G2_B_C1_CANONICAL) < certificates::q(),
        g2_b_spec().wf(),
        (Fp2 { c0: Fp::of(9), c1: Fp::of(1) }) * g2_b_spec() == (Fp2 {
            c0: Fp::of(3),
            c1: Fp::of(0),
        }),
{
    broadcast use ring::group_wf;

    let (c0, c1) = (consts::G2_B_C0_CANONICAL, consts::G2_B_C1_CANONICAL);
    let q = certificates::q();
    assert(limbs::value(c0) == 0x2b149d40ceb8aaae81be18991be06ac3b5b4c5e559dbefa33267e6dc24a138e5int);
    assert(limbs::value(c1) == 0x9713b03af0fed4cd2cafadeed8fdf4a74fa084e52d1852e4a2bd0685c315d2int);
    let b = g2_b_spec();
    Fp::lemma_of(0x2b149d40ceb8aaae81be18991be06ac3b5b4c5e559dbefa33267e6dc24a138e5int);
    Fp::lemma_of(0x9713b03af0fed4cd2cafadeed8fdf4a74fa084e52d1852e4a2bd0685c315d2int);
    Fp::lemma_of(9);
    Fp::lemma_of(1);
    Fp::lemma_of(3);
    Fp::lemma_of(0);
    let (nine, one) = (Fp::of(9), Fp::of(1));
    Fp::lemma_ops(nine, b.c0);
    Fp::lemma_ops(nine, b.c1);
    Fp::lemma_ops(one, b.c0);
    Fp::lemma_ops(one, b.c1);
    Fp::lemma_ops(nine * b.c0, one * b.c1);
    Fp::lemma_ops(nine * b.c1, one * b.c0);
    assert((9 * 0x2b149d40ceb8aaae81be18991be06ac3b5b4c5e559dbefa33267e6dc24a138e5int) % q == 0x9713b03af0fed4cd2cafadeed8fdf4a74fa084e52d1852e4a2bd0685c315d5int);
    assert((9 * 0x9713b03af0fed4cd2cafadeed8fdf4a74fa084e52d1852e4a2bd0685c315d2int) % q == 0x54fb1321278f57b36922d1d65a0ed99e1cca4ac0e95daea09b8a53ab3dbc462int);
    assert((1 * 0x2b149d40ceb8aaae81be18991be06ac3b5b4c5e559dbefa33267e6dc24a138e5int) % q == 0x2b149d40ceb8aaae81be18991be06ac3b5b4c5e559dbefa33267e6dc24a138e5int);
    assert((1 * 0x9713b03af0fed4cd2cafadeed8fdf4a74fa084e52d1852e4a2bd0685c315d2int) % q == 0x9713b03af0fed4cd2cafadeed8fdf4a74fa084e52d1852e4a2bd0685c315d2int);
    assert((0x9713b03af0fed4cd2cafadeed8fdf4a74fa084e52d1852e4a2bd0685c315d5int - 0x9713b03af0fed4cd2cafadeed8fdf4a74fa084e52d1852e4a2bd0685c315d2int) % q == 3);
    assert((0x54fb1321278f57b36922d1d65a0ed99e1cca4ac0e95daea09b8a53ab3dbc462int + 0x2b149d40ceb8aaae81be18991be06ac3b5b4c5e559dbefa33267e6dc24a138e5int) % q == 0);
    Fp::lemma_val(nine * b.c0 - one * b.c1);
    Fp::lemma_val(nine * b.c1 + one * b.c0);
}

/// G1 is smooth.
pub proof fn lemma_g1_smooth()
    ensures
        curve::smooth(g1_b_spec()),
{
    Fp::lemma_of(3);
    Fp::lemma_constants();
}

/// G2 is smooth.
pub proof fn lemma_g2_smooth()
    ensures
        curve::smooth(g2_b_spec()),
{
    lemma_g2_b();
    Fp::lemma_constants();
}

} // verus!
