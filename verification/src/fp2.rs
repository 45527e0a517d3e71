//! The quadratic extension `Fp2 = Fp[u] / (u^2 + 1)` that BN254's G2 lives on.

use vstd::prelude::*;

use crate::field;
use crate::field::{Field, Fp};
use crate::math::certificates;
use crate::math::identities;
use crate::math::ring;
use crate::math::ring::{FieldLaws, Ring};

verus! {

/// An element `c0 + c1·u` with `u^2 = -1`.
#[derive(Clone, Copy, Debug, Hash)]
pub struct Fp2 {
    /// The real part.
    pub c0: Fp,
    /// The coefficient of `u`.
    pub c1: Fp,
}

/// Minus one is not a square in the base field.
proof fn lemma_no_root_of_minus_one(t: Fp)
    requires
        t.wf(),
    ensures
        t * t != -Fp::one_spec(),
{
    broadcast use {ring::group_wf, ring::lemma_wf_power};

    let one = Fp::one_spec();
    let q = certificates::q();
    let k = ((q - 3) / 4) as nat;
    if t * t == -one {
        field::lemma_fp_modulus();
        if t == Fp::zero_spec() {
            ring::lemma_mul_zero(t);
            ring::lemma_neg_neg(one);
            ring::lemma_neg_zero::<Fp>();
            ring::lemma_one_nonzero::<Fp>();
        }
        Fp::inverse_law(t);
        let e = (q - 2) as nat;
        Fp::multiplicative(t, ring::power(t, e), t);
        assert(ring::power(t, e + 1) == one);
        ring::lemma_power_multiplies(t, 2, 2 * k + 1);
        ring::lemma_power_small(t);
        assert(2 * (2 * k + 1) == e + 1);
        ring::lemma_power_minus_one::<Fp>(k);
        Fp::additive(one, one, one);
        Fp::two_nonzero();
        assert(one == -one);
    }
}

impl Fp2 {
    /// The norm `c0² + c1²` to the base field.
    pub open spec fn norm(self) -> Fp {
        self.c0 * self.c0 + self.c1 * self.c1
    }

    /// Only zero has norm zero.
    pub proof fn lemma_norm(a: Self)
        requires
            a.wf(),
        ensures
            a.norm() == Fp::zero_spec() <==> a == Fp2::zero_spec(),
    {
        broadcast use ring::group_wf;

        let z = Fp::zero_spec();
        ring::lemma_mul_zero(z);
        Fp::additive(z, z, z);
        if a.norm() == z {
            if a.c1 == z {
                Fp::additive(a.c0 * a.c0, z, z);
                ring::lemma_domain(a.c0, a.c0);
            } else {
                Fp::inverse_law(a.c1);
                let i = a.c1.inv_spec();
                let t = a.c0 * i;
                let one = Fp::one_spec();
                // t² + 1 == (c0² + c1²)·i²
                Fp::multiplicative(a.c0, i, t);
                Fp::multiplicative(i, a.c0, i);
                Fp::multiplicative(a.c0, i, i);
                Fp::multiplicative(a.c0, a.c0, i * i);
                Fp::multiplicative(a.c1, a.c1, i * i);
                Fp::multiplicative(a.c1, i, i);
                Fp::multiplicative(a.c1, i, one);
                Fp::multiplicative(one, i, i);
                Fp::multiplicative(i, one, i);
                assert(t * t == (a.c0 * a.c0) * (i * i));
                assert((a.c1 * a.c1) * (i * i) == one);
                Fp::multiplicative(i * i, a.c0 * a.c0, a.c1 * a.c1);
                Fp::multiplicative(a.c0 * a.c0, i * i, one);
                Fp::multiplicative(a.c1 * a.c1, i * i, one);
                Fp::multiplicative(a.norm(), i * i, one);
                ring::lemma_mul_zero(i * i);
                assert(t * t + one == z);
                ring::lemma_neg_unique(one, t * t);
                Fp::additive(t * t, one, one);
                ring::lemma_neg_unique(t * t, one);
                lemma_no_root_of_minus_one(t);
            }
        }
    }

    /// Build from the two coordinates.
    pub fn new(c0: Fp, c1: Fp) -> (r: Self)
        ensures
            r == (Fp2 { c0, c1 }),
    {
        Fp2 { c0, c1 }
    }

    /// Multiply by the base-field element `k`.
    pub fn scale(&self, k: &Fp) -> (r: Self)
        ensures
            r == (Fp2 { c0: self.c0 * *k, c1: self.c1 * *k }),
            self.wf() && k.wf() ==> r == *self * (Fp2 { c0: *k, c1: Fp::zero_spec() }),
    {
        proof {
            if self.wf() && k.wf() {
                broadcast use ring::group_wf;

                let z = Fp::zero_spec();
                ring::lemma_mul_zero(self.c0);
                ring::lemma_mul_zero(self.c1);
                identities::minus_zero(self.c0 * *k);
                Fp::additive(z, self.c1 * *k, z);
                Fp::additive(self.c1 * *k, z, z);
            }
        }
        Fp2::new(self.c0.mul(k), self.c1.mul(k))
    }
}

/// The `==` of the field is equality of both coordinates.
impl PartialEq for Fp2 {
    fn eq(&self, other: &Self) -> (r: bool) {
        self.c0 == other.c0 && self.c1 == other.c1
    }
}

impl vstd::std_specs::cmp::PartialEqSpecImpl for Fp2 {
    open spec fn obeys_eq_spec() -> bool {
        true
    }

    open spec fn eq_spec(&self, other: &Self) -> bool {
        self.c0.raw() == other.c0.raw() && self.c1.raw() == other.c1.raw()
    }
}

impl Eq for Fp2 {

}

impl Default for Fp2 {
    fn default() -> (r: Self)
        ensures
            r == Fp2::zero_spec(),
    {
        <Fp2 as Field>::zero()
    }
}

impl Ring for Fp2 {
    open spec fn wf(self) -> bool {
        self.c0.wf() && self.c1.wf()
    }

    open spec fn zero_spec() -> Self {
        Fp2 { c0: Fp::zero_spec(), c1: Fp::zero_spec() }
    }

    open spec fn one_spec() -> Self {
        Fp2 { c0: Fp::one_spec(), c1: Fp::zero_spec() }
    }

    open spec fn spec_add(self, other: Self) -> Self {
        Fp2 { c0: self.c0 + other.c0, c1: self.c1 + other.c1 }
    }

    open spec fn spec_sub(self, other: Self) -> Self {
        Fp2 { c0: self.c0 - other.c0, c1: self.c1 - other.c1 }
    }

    open spec fn spec_mul(self, other: Self) -> Self {
        Fp2 {
            c0: self.c0 * other.c0 - self.c1 * other.c1,
            c1: self.c0 * other.c1 + self.c1 * other.c0,
        }
    }

    open spec fn spec_neg(self) -> Self {
        Fp2 { c0: -self.c0, c1: -self.c1 }
    }

    proof fn constants_wf() {
        Fp::constants_wf();
    }

    proof fn closed(a: Self, b: Self) {
        broadcast use ring::group_wf;

    }

    proof fn additive(a: Self, b: Self, c: Self) {
        Fp::additive(a.c0, b.c0, c.c0);
        Fp::additive(a.c1, b.c1, c.c1);
    }

    proof fn multiplicative(a: Self, b: Self, c: Self) {
        broadcast use ring::group_wf;

        let z = Fp::zero_spec();
        identities::complex_associates(a.c0, a.c1, b.c0, b.c1, c.c0, c.c1);
        identities::complex_distributes(a.c0, a.c1, b.c0, b.c1, c.c0, c.c1);
        Fp::multiplicative(a.c0, b.c0, z);
        Fp::multiplicative(a.c1, b.c1, z);
        Fp::multiplicative(a.c0, b.c1, z);
        Fp::multiplicative(a.c1, b.c0, z);
        Fp::additive(a.c0 * b.c1, a.c1 * b.c0, z);
        ring::lemma_mul_zero(a.c0);
        ring::lemma_mul_zero(a.c1);
        identities::minus_zero(a.c0);
        Fp::additive(z, a.c1, z);
        Fp::additive(a.c1, z, z);
    }
}

impl FieldLaws for Fp2 {
    open spec fn inv_spec(self) -> Self {
        let i = self.norm().inv_spec();
        Fp2 { c0: self.c0 * i, c1: -(self.c1 * i) }
    }

    proof fn inverse_law(a: Self) {
        broadcast use ring::group_wf;

        let z = Fp::zero_spec();
        Fp2::lemma_norm(a);
        Fp::inverse_law(a.norm());
        let i = a.norm().inv_spec();
        let x = a.c1 * i;
        identities::complex_norm(a.c0, a.c1, i);
        Fp::additive(z, x, z);
        Fp::additive(-x, z, z);
        Fp::additive(z, -x, z);
        assert(z - x == -x);
    }

    proof fn two_nonzero() {
        Fp::two_nonzero();
    }

    proof fn three_nonzero() {
        Fp::three_nonzero();
    }
}

impl Field for Fp2 {
    open spec fn square_spec(self) -> Self {
        Fp2 {
            c0: (self.c0 - self.c1) * (self.c0 + self.c1),
            c1: self.c0 * self.c1 + self.c0 * self.c1,
        }
    }

    proof fn square_law(a: Self) {
        identities::squares_difference(a.c0, a.c1);
        Fp::multiplicative(a.c0, a.c1, a.c0);
    }

    open spec fn inverse_spec(self) -> Option<Self> {
        match self.norm().inverse_spec() {
            None => None,
            Some(i) => Some(Fp2 { c0: self.c0 * i, c1: -(self.c1 * i) }),
        }
    }

    proof fn inverse_spec_law(a: Self) {
        broadcast use ring::group_wf;

        Fp2::lemma_norm(a);
        Fp::inverse_spec_law(a.norm());
    }

    fn zero() -> (r: Self) {
        Fp2::new(Fp::zero(), Fp::zero())
    }

    fn one() -> (r: Self) {
        Fp2::new(Fp::one(), Fp::zero())
    }

    #[inline]
    fn add(&self, other: &Self) -> (r: Self) {
        Fp2::new(self.c0.add(&other.c0), self.c1.add(&other.c1))
    }

    #[inline]
    fn sub(&self, other: &Self) -> (r: Self) {
        Fp2::new(self.c0.sub(&other.c0), self.c1.sub(&other.c1))
    }

    #[inline]
    fn mul(&self, other: &Self) -> (r: Self) {
        // (a0 + a1 u)(b0 + b1 u) = (a0 b0 - a1 b1) + (a0 b1 + a1 b0) u
        let a0b0 = self.c0.mul(&other.c0);
        let a1b1 = self.c1.mul(&other.c1);
        let a0b1 = self.c0.mul(&other.c1);
        let a1b0 = self.c1.mul(&other.c0);
        Fp2::new(a0b0.sub(&a1b1), a0b1.add(&a1b0))
    }

    #[inline]
    fn neg(&self) -> (r: Self) {
        Fp2::new(self.c0.neg(), self.c1.neg())
    }

    #[inline]
    fn square(&self) -> (r: Self) {
        // (a0 + a1 u)^2 = (a0 - a1)(a0 + a1) + 2 a0 a1 u
        let c0 = self.c0.sub(&self.c1).mul(&self.c0.add(&self.c1));
        let c1 = self.c0.mul(&self.c1).double();
        Fp2::new(c0, c1)
    }

    #[inline]
    fn same(&self, other: &Self) -> (r: bool) {
        self.c0.same(&other.c0) && self.c1.same(&other.c1)
    }

    fn inverse(&self) -> (r: Option<Self>) {
        // (a0 + a1 u)^-1 = (a0 - a1 u) / (a0^2 + a1^2)
        let norm = self.c0.square().add(&self.c1.square());
        proof {
            if self.wf() {
                Fp2::inverse_spec_law(*self);
            }
        }
        match norm.inverse() {
            None => None,
            Some(inv) => Some(Fp2::new(self.c0.mul(&inv), self.c1.mul(&inv).neg())),
        }
    }
}

} // verus!
