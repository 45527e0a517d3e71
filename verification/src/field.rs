//! The BN254 prime fields, [`Fp`] (base field, modulus `q`) and [`Fr`] (scalar
//! field, modulus `r`), in Montgomery form with four little-endian 64-bit limbs.
//!
//! Every operation on reduced elements returns a reduced element, so equality
//! of limbs is equality in the field. The operations are specified exactly, as
//! functions of the limbs, for unreduced limbs too.

use vstd::arithmetic::div_mod::*;
use vstd::arithmetic::power::*;
use vstd::arithmetic::power2::*;
use vstd::prelude::*;

use crate::bytes;
use crate::consts;
use crate::limbs;
use crate::math::certificates;
use crate::math::montgomery;
use crate::math::montgomery::Modulus;
use crate::math::primes;
use crate::math::ring;
use crate::math::ring::{FieldLaws, Ring};

verus! {

/// What the curve and polynomial code needs from a field.
pub trait Field: FieldLaws + Copy {
    /// What [`Field::square`] computes.
    spec fn square_spec(self) -> Self;

    /// The square of a field element is its product with itself.
    proof fn square_law(a: Self)
        requires
            a.wf(),
        ensures
            a.square_spec() == a * a,
    ;

    /// The additive identity.
    fn zero() -> (r: Self)
        ensures
            r == Self::zero_spec(),
    ;

    /// The multiplicative identity.
    fn one() -> (r: Self)
        ensures
            r == Self::one_spec(),
    ;

    /// `self + other`.
    fn add(&self, other: &Self) -> (r: Self)
        ensures
            r == *self + *other,
    ;

    /// `self - other`.
    fn sub(&self, other: &Self) -> (r: Self)
        ensures
            r == *self - *other,
    ;

    /// `self * other`.
    fn mul(&self, other: &Self) -> (r: Self)
        ensures
            r == *self * *other,
    ;

    /// `-self`.
    fn neg(&self) -> (r: Self)
        ensures
            r == -*self,
    ;

    /// `self^2`.
    fn square(&self) -> (r: Self)
        ensures
            r == self.square_spec(),
    ;

    /// `2 * self`.
    fn double(&self) -> (r: Self)
        ensures
            r == *self + *self,
    {
        self.add(self)
    }

    /// Whether `self == other`.
    fn same(&self, other: &Self) -> (r: bool)
        ensures
            r == (*self == *other),
    ;

    /// Whether `self == 0`.
    fn is_zero(&self) -> (r: bool)
        ensures
            r == (*self == Self::zero_spec()),
    {
        self.same(&Self::zero())
    }

    /// What [`Field::inverse`] computes.
    spec fn inverse_spec(self) -> Option<Self>;

    /// The inverse of a field element that is not zero.
    proof fn inverse_spec_law(a: Self)
        requires
            a.wf(),
        ensures
            a.inverse_spec() == (if a == Self::zero_spec() {
                None::<Self>
            } else {
                Some(a.inv_spec())
            }),
    ;

    /// `self^-1`, or `None` for zero.
    fn inverse(&self) -> (r: Option<Self>)
        ensures
            r == self.inverse_spec(),
            self.wf() ==> (r is None <==> *self == Self::zero_spec()),
            self.wf() && *self != Self::zero_spec() ==> r == Some(self.inv_spec()),
    ;
}

// ---- Fp ---------------------------------------------------------------------------------

/// The modulus of [`Fp`] with its Montgomery constants.
pub open spec fn fp_modulus() -> Modulus {
    Modulus {
        m: certificates::q(),
        rinv: 0x2e67157159e5c639cf63e9cfb74492d9eb2022850278edf8ed84884a014afa37int,
        ninv: 0xf57a22b791888c6bd8afcbd01833da809ede7d651eca6ac987d20782e4866389int,
    }
}

/// The constants of [`Fp`] belong together.
pub proof fn lemma_fp_modulus()
    ensures
        fp_modulus().valid(),
        limbs::value(consts::FP_MODULUS) == fp_modulus().m,
        limbs::value(consts::FP_R) == fp_modulus().stored(1),
        limbs::value(consts::FP_R2) == (limbs::radix() * limbs::radix()) % fp_modulus().m,
        limbs::value(consts::FP_MODULUS_MINUS_2) == fp_modulus().m - 2,
        (consts::FP_MODULUS[0] * consts::FP_INV + 1) % (limbs::WORD as int) == 0,
{
    certificates::lemma_q_prime();
    assert((limbs::radix() * 0x2e67157159e5c639cf63e9cfb74492d9eb2022850278edf8ed84884a014afa37int) % certificates::q() == 1) by (nonlinear_arith);
    assert((certificates::q() * 0xf57a22b791888c6bd8afcbd01833da809ede7d651eca6ac987d20782e4866389int + 1) % limbs::radix() == 0) by (nonlinear_arith);
    assert((limbs::radix() * limbs::radix()) % certificates::q() == 0x6d89f71cab8351f47ab1eff0a417ff6b5e71911d44501fbf32cfc5b538afa89int) by (nonlinear_arith);
    assert((1 * limbs::radix()) % certificates::q() == 0xe0a77c19a07df2f666ea36f7879462c0a78eb28f5c70b3dd35d438dc58f0d9dint) by (nonlinear_arith);
    assert((0x3c208c16d87cfd47int * 0x87d20782e4866389int + 1) % 0x1_0000_0000_0000_0000int == 0) by (nonlinear_arith);
    let (a, b, c, d) = (
        consts::FP_MODULUS,
        consts::FP_R,
        consts::FP_R2,
        consts::FP_MODULUS_MINUS_2,
    );
    assert(limbs::value(a) == certificates::q());
    assert(limbs::value(b) == 0xe0a77c19a07df2f666ea36f7879462c0a78eb28f5c70b3dd35d438dc58f0d9dint);
    assert(limbs::value(c) == 0x6d89f71cab8351f47ab1eff0a417ff6b5e71911d44501fbf32cfc5b538afa89int);
    assert(limbs::value(d) == certificates::q() - 2);
    assert(a[0] == 0x3c208c16d87cfd47);
}

/// The BN254 base field (modulus `q`), Montgomery form.
#[derive(Clone, Copy, Debug, Hash)]
pub struct Fp {
    limbs: [u64; 4],
}

impl Fp {
    /// The integer that the limbs stand for: the Montgomery representative.
    pub closed spec fn raw(self) -> int {
        limbs::value(self.limbs)
    }

    /// The element with a given Montgomery representative.
    pub closed spec fn of_raw(x: int) -> Self {
        Fp { limbs: limbs::limbs_of(x) }
    }

    /// The residue modulo the modulus.
    pub open spec fn val(self) -> int {
        fp_modulus().residue(self.raw())
    }

    /// The element with a given residue.
    pub open spec fn of(v: int) -> Self {
        Fp::of_raw(fp_modulus().stored(v))
    }

    /// Representatives are 256-bit integers and determine the element.
    pub proof fn lemma_raw(a: Self)
        ensures
            0 <= a.raw() < limbs::radix(),
            Fp::of_raw(a.raw()) == a,
    {
        limbs::lemma_value(a.limbs);
    }

    /// Every 256-bit integer is a representative.
    pub proof fn lemma_of_raw(x: int)
        requires
            0 <= x < limbs::radix(),
        ensures
            Fp::of_raw(x).raw() == x,
    {
        limbs::lemma_limbs_of(x);
    }

    /// Every residue is the residue of one reduced element.
    pub proof fn lemma_of(v: int)
        requires
            0 <= v < fp_modulus().m,
        ensures
            Fp::of(v).wf(),
            Fp::of(v).val() == v,
    {
        lemma_fp_modulus();
        montgomery::lemma_stored(fp_modulus(), v);
        Fp::lemma_of_raw(fp_modulus().stored(v));
    }

    /// Reduced elements with equal residues are equal.
    pub proof fn lemma_val(a: Self)
        requires
            a.wf(),
        ensures
            0 <= a.val() < fp_modulus().m,
            Fp::of(a.val()) == a,
            a.val() == 0 <==> a == Fp::zero_spec(),
    {
        lemma_fp_modulus();
        Fp::lemma_raw(a);
        Fp::lemma_of_raw(0);
        montgomery::lemma_residue(fp_modulus(), a.raw());
    }

    /// The operations on reduced elements are the operations on residues.
    pub proof fn lemma_ops(a: Self, b: Self)
        requires
            a.wf(),
            b.wf(),
        ensures
            (a + b).wf() && (a + b).val() == (a.val() + b.val()) % fp_modulus().m,
            (a - b).wf() && (a - b).val() == (a.val() - b.val()) % fp_modulus().m,
            (a * b).wf() && (a * b).val() == (a.val() * b.val()) % fp_modulus().m,
            (-a).wf() && (-a).val() == (-a.val()) % fp_modulus().m,
    {
        let p = fp_modulus();
        lemma_fp_modulus();
        Fp::lemma_raw(a);
        Fp::lemma_raw(b);
        montgomery::lemma_plus(p, a.raw(), b.raw());
        montgomery::lemma_minus(p, a.raw(), b.raw());
        montgomery::lemma_times(p, a.raw(), b.raw());
        montgomery::lemma_negative(p, a.raw());
        Fp::lemma_of_raw(p.plus(a.raw(), b.raw()));
        Fp::lemma_of_raw(p.minus(a.raw(), b.raw()));
        Fp::lemma_of_raw(p.times(a.raw(), b.raw()));
        Fp::lemma_of_raw(p.negative(a.raw()));
    }

    /// Zero and one.
    pub proof fn lemma_constants()
        ensures
            Fp::zero_spec().wf(),
            Fp::zero_spec().val() == 0,
            Fp::one_spec().wf(),
            Fp::one_spec().val() == 1,
            Fp::zero_spec() == Fp::of(0),
            Fp::one_spec() == Fp::of(1),
    {
        lemma_fp_modulus();
        Fp::lemma_of(0);
        Fp::lemma_of(1);
        Fp::lemma_of_raw(0);
        lemma_small_mod(0, fp_modulus().m as nat);
        assert(0 * limbs::radix() == 0);
    }

    /// Powers of an element are powers of its residue.
    pub proof fn lemma_power(a: Self, n: nat)
        requires
            a.wf(),
        ensures
            ring::power(a, n).wf(),
            ring::power(a, n).val() == pow(a.val(), n) % fp_modulus().m,
        decreases n,
    {
        Fp::lemma_constants();
        reveal(pow);
        if n == 0 {
            lemma_small_mod(1, fp_modulus().m as nat);
        } else {
            let m = (n - 1) as nat;
            Fp::lemma_power(a, m);
            Fp::lemma_ops(ring::power(a, m), a);
            lemma_mul_mod_noop_left(pow(a.val(), m), a.val(), fp_modulus().m);
            vstd::arithmetic::mul::lemma_mul_is_commutative(pow(a.val(), m), a.val());
        }
    }

    /// The modulus, little-endian limbs.
    pub const MODULUS: [u64; 4] = consts::FP_MODULUS;

    /// Montgomery multiplication modulo the modulus.
    #[inline]
    fn mont(a: &[u64; 4], b: &[u64; 4]) -> (r: [u64; 4])
        ensures
            limbs::value(r) == fp_modulus().times(limbs::value(*a), limbs::value(*b)),
    {
        proof {
            lemma_fp_modulus();
        }
        let m = consts::FP_MODULUS;
        let r = limbs::mont_mul(a, b, &m, consts::FP_INV);
        proof {
            let x = limbs::value(*a) * limbs::value(*b);
            let (k, t) = choose|k: int, t: int|
                0 <= k < limbs::radix() && t * limbs::radix() == x + #[trigger] (k * limbs::value(m))
                    && limbs::value(r) == #[trigger] limbs::reduced_once(t, limbs::value(m));
            montgomery::lemma_redc(fp_modulus(), x, k, t);
        }
        r
    }

    /// Wrap raw Montgomery-form limbs. Arithmetic expects them reduced.
    #[inline]
    pub fn from_montgomery_limbs(limbs: [u64; 4]) -> (r: Self)
        ensures
            r.raw() == limbs::value(limbs),
    {
        Fp { limbs }
    }

    /// The Montgomery-form limbs.
    #[inline]
    pub fn montgomery_limbs(&self) -> (r: [u64; 4])
        ensures
            limbs::value(r) == self.raw(),
    {
        self.limbs
    }

    /// From a canonical (non-Montgomery) value below the modulus.
    #[inline]
    pub fn from_canonical(x: [u64; 4]) -> (r: Self)
        requires
            limbs::value(x) < fp_modulus().m,
        ensures
            r.wf(),
            r.val() == limbs::value(x),
            r == Fp::of(limbs::value(x)),
    {
        let r2 = consts::FP_R2;
        let limbs = Fp::mont(&x, &r2);
        proof {
            lemma_fp_modulus();
            limbs::lemma_value(x);
            limbs::lemma_value(limbs);
            montgomery::lemma_times_square(fp_modulus(), limbs::value(x), limbs::value(r2));
            Fp::lemma_of(limbs::value(x));
        }
        Fp { limbs }
    }

    /// To the canonical (non-Montgomery) value.
    #[inline]
    pub fn to_canonical(&self) -> (r: [u64; 4])
        ensures
            limbs::value(r) == self.val(),
            limbs::value(r) < fp_modulus().m,
    {
        let one: [u64; 4] = [1, 0, 0, 0];
        let r = Fp::mont(&self.limbs, &one);
        proof {
            lemma_fp_modulus();
            limbs::lemma_value(self.limbs);
            assert(limbs::value(one) == 1);
            montgomery::lemma_times_one(fp_modulus(), self.raw());
            lemma_mod_bound(self.raw() * fp_modulus().rinv, fp_modulus().m);
        }
        r
    }

    /// From a small integer.
    #[inline]
    pub fn from_u64(v: u64) -> (r: Self)
        ensures
            r.wf(),
            r.val() == v,
            r == Fp::of(v as int),
    {
        let x: [u64; 4] = [v, 0, 0, 0];
        assert(limbs::value(x) == v);
        Fp::from_canonical(x)
    }

    /// From 32 canonical little-endian bytes; `None` if not below the modulus.
    pub fn from_le_bytes(b: &[u8; 32]) -> (r: Option<Self>)
        ensures
            r is None <==> bytes::le(b@) >= fp_modulus().m,
            r matches Some(x) ==> x.wf() && x.val() == bytes::le(b@) && x == Fp::of(
                bytes::le(b@),
            ),
    {
        let x = bytes::limbs_at(b.as_slice(), 0);
        let m = consts::FP_MODULUS;
        proof {
            lemma_fp_modulus();
            assert(b@.subrange(0, 32) =~= b@);
        }
        if limbs::geq(&x, &m) {
            None
        } else {
            Some(Fp::from_canonical(x))
        }
    }

    /// To 32 canonical little-endian bytes.
    pub fn to_le_bytes(&self) -> (r: [u8; 32])
        ensures
            r@ == bytes::le_bytes(self.val(), 32),
    {
        bytes::limbs_bytes(&self.to_canonical())
    }

    /// `self^exp` for a little-endian limb exponent.
    pub fn pow(&self, exp: &[u64; 4]) -> (result: Self)
        ensures
            result == ring::binary_power(*self, limbs::value(*exp) as nat),
            self.wf() ==> result == ring::power(*self, limbs::value(*exp) as nat),
    {
        let mut result = <Fp as Field>::one();
        let mut i: u32 = 256;
        proof {
            limbs::lemma_bits_start(*exp);
        }
        while i > 0
            invariant
                i <= 256,
                result == ring::binary_power(*self, limbs::leading(*exp, i as nat)),
            decreases i,
        {
            i -= 1;
            result = result.square();
            proof {
                limbs::lemma_bits_step(*exp, i as nat);
                ring::lemma_binary_power_step(
                    *self,
                    limbs::leading(*exp, (i + 1) as nat),
                    limbs::bit(limbs::value(*exp), i as nat),
                );
            }
            if limbs::bit_at(exp, i) {
                result = result.mul(self);
            }
        }
        proof {
            limbs::lemma_bits_end(*exp);
            if self.wf() {
                ring::lemma_binary_power(*self, limbs::value(*exp) as nat);
            }
        }
        result
    }
}

/// The `==` of the field is equality of limbs.
impl PartialEq for Fp {
    #[inline]
    fn eq(&self, other: &Self) -> (r: bool) {
        proof {
            Fp::lemma_raw(*self);
            Fp::lemma_raw(*other);
        }
        limbs::same(&self.limbs, &other.limbs)
    }
}

impl vstd::std_specs::cmp::PartialEqSpecImpl for Fp {
    open spec fn obeys_eq_spec() -> bool {
        true
    }

    open spec fn eq_spec(&self, other: &Self) -> bool {
        self.raw() == other.raw()
    }
}

impl Eq for Fp {

}

impl Default for Fp {
    fn default() -> (r: Self)
        ensures
            r == Fp::zero_spec(),
    {
        <Fp as Field>::zero()
    }
}

impl Ring for Fp {
    open spec fn wf(self) -> bool {
        self.raw() < fp_modulus().m
    }

    open spec fn zero_spec() -> Self {
        Fp::of_raw(0)
    }

    open spec fn one_spec() -> Self {
        Fp::of_raw(fp_modulus().stored(1))
    }

    open spec fn spec_add(self, other: Self) -> Self {
        Fp::of_raw(fp_modulus().plus(self.raw(), other.raw()))
    }

    open spec fn spec_sub(self, other: Self) -> Self {
        Fp::of_raw(fp_modulus().minus(self.raw(), other.raw()))
    }

    open spec fn spec_mul(self, other: Self) -> Self {
        Fp::of_raw(fp_modulus().times(self.raw(), other.raw()))
    }

    open spec fn spec_neg(self) -> Self {
        Fp::of_raw(fp_modulus().negative(self.raw()))
    }

    proof fn constants_wf() {
        Fp::lemma_constants();
    }

    proof fn closed(a: Self, b: Self) {
        Fp::lemma_ops(a, b);
    }

    proof fn additive(a: Self, b: Self, c: Self) {
        let p = fp_modulus();
        lemma_fp_modulus();
        Fp::lemma_raw(a);
        Fp::lemma_raw(b);
        Fp::lemma_raw(c);
        Fp::lemma_ops(a, b);
        Fp::lemma_ops(b, c);
        montgomery::lemma_plus(p, a.raw(), b.raw());
        montgomery::lemma_plus(p, b.raw(), c.raw());
        montgomery::lemma_negative(p, a.raw());
        montgomery::lemma_negative(p, b.raw());
        Fp::lemma_of_raw(p.plus(a.raw(), b.raw()));
        Fp::lemma_of_raw(p.plus(b.raw(), c.raw()));
        Fp::lemma_of_raw(p.negative(a.raw()));
        Fp::lemma_of_raw(p.negative(b.raw()));
        Fp::lemma_of_raw(0);
        montgomery::lemma_additive(p, a.raw(), b.raw(), c.raw());
    }

    proof fn multiplicative(a: Self, b: Self, c: Self) {
        let p = fp_modulus();
        lemma_fp_modulus();
        Fp::lemma_raw(a);
        Fp::lemma_raw(b);
        Fp::lemma_raw(c);
        montgomery::lemma_plus(p, b.raw(), c.raw());
        montgomery::lemma_times(p, a.raw(), b.raw());
        montgomery::lemma_times(p, b.raw(), c.raw());
        montgomery::lemma_times(p, a.raw(), c.raw());
        montgomery::lemma_stored(p, 1);
        Fp::lemma_of_raw(p.plus(b.raw(), c.raw()));
        Fp::lemma_of_raw(p.times(a.raw(), b.raw()));
        Fp::lemma_of_raw(p.times(b.raw(), c.raw()));
        Fp::lemma_of_raw(p.times(a.raw(), c.raw()));
        Fp::lemma_of_raw(p.stored(1));
        montgomery::lemma_multiplicative(p, a.raw(), b.raw(), c.raw());
    }
}

impl FieldLaws for Fp {
    open spec fn inv_spec(self) -> Self {
        ring::power(self, (fp_modulus().m - 2) as nat)
    }

    proof fn inverse_law(a: Self) {
        let m = fp_modulus().m;
        lemma_fp_modulus();
        Fp::lemma_val(a);
        lemma_small_mod(a.val() as nat, m as nat);
        primes::lemma_fermat(a.val(), m);
        Fp::lemma_power(a, (m - 2) as nat);
        Fp::lemma_power(a, (m - 1) as nat);
        Fp::lemma_constants();
        Fp::lemma_val(ring::power(a, (m - 1) as nat));
        let e = (m - 2) as nat;
        assert(ring::power(a, (m - 1) as nat) == ring::power(a, e) * a);
        Fp::multiplicative(a, ring::power(a, e), a);
    }

    proof fn two_nonzero() {
        let p = fp_modulus();
        lemma_fp_modulus();
        montgomery::lemma_two(p);
        montgomery::lemma_stored(p, 1);
        montgomery::lemma_plus(p, p.stored(1), p.stored(1));
        Fp::lemma_of_raw(p.stored(1));
        Fp::lemma_of_raw(p.plus(p.stored(1), p.stored(1)));
        Fp::lemma_of_raw(0);
    }

    proof fn three_nonzero() {
        broadcast use ring::group_wf;

        let one = Fp::one_spec();
        lemma_fp_modulus();
        Fp::lemma_constants();
        Fp::constants_wf();
        Fp::lemma_ops(one, one);
        Fp::lemma_ops(one + one, one);
    }
}

impl Field for Fp {
    open spec fn square_spec(self) -> Self {
        self * self
    }

    proof fn square_law(a: Self) {
    }

    open spec fn inverse_spec(self) -> Option<Self> {
        if self == Fp::zero_spec() {
            None
        } else {
            Some(ring::binary_power(self, (fp_modulus().m - 2) as nat))
        }
    }

    proof fn inverse_spec_law(a: Self) {
        lemma_fp_modulus();
        ring::lemma_binary_power(a, (fp_modulus().m - 2) as nat);
    }

    fn zero() -> (r: Self) {
        let r = Fp { limbs: [0, 0, 0, 0] };
        proof {
            Fp::lemma_raw(r);
        }
        r
    }

    fn one() -> (r: Self) {
        let r = Fp { limbs: consts::FP_R };
        proof {
            lemma_fp_modulus();
            Fp::lemma_raw(r);
        }
        r
    }

    #[inline]
    fn add(&self, other: &Self) -> (r: Self) {
        let m = consts::FP_MODULUS;
        let (sum, carry) = limbs::add_carry(&self.limbs, &other.limbs);
        proof {
            lemma_fp_modulus();
            Fp::lemma_raw(*self);
            Fp::lemma_raw(*other);
            limbs::lemma_value(sum);
        }
        let r = if carry != 0 || limbs::geq(&sum, &m) {
            let d = limbs::sub_limbs(&sum, &m);
            proof {
                if carry == 1 {
                    lemma_mod_add_multiples_vanish(
                        limbs::value(sum) - limbs::value(m),
                        limbs::radix(),
                    );
                }
            }
            Fp { limbs: d }
        } else {
            Fp { limbs: sum }
        };
        proof {
            Fp::lemma_raw(r);
        }
        r
    }

    #[inline]
    fn sub(&self, other: &Self) -> (r: Self) {
        let m = consts::FP_MODULUS;
        let (diff, borrow) = limbs::sub_borrow(&self.limbs, &other.limbs);
        proof {
            lemma_fp_modulus();
            Fp::lemma_raw(*self);
            Fp::lemma_raw(*other);
            limbs::lemma_value(diff);
        }
        let r = if borrow != 0 {
            let (s, carry) = limbs::add_carry(&diff, &m);
            proof {
                limbs::lemma_value(s);
                let x = self.raw() - other.raw() + fp_modulus().m;
                // x + 2^256 == s + carry·2^256
                if carry == 0 {
                    lemma_mod_add_multiples_vanish(x, limbs::radix());
                }
                lemma_small_mod(limbs::value(s) as nat, limbs::radix() as nat);
            }
            Fp { limbs: s }
        } else {
            Fp { limbs: diff }
        };
        proof {
            Fp::lemma_raw(r);
        }
        r
    }

    #[inline]
    fn mul(&self, other: &Self) -> (r: Self) {
        let r = Fp { limbs: Fp::mont(&self.limbs, &other.limbs) };
        proof {
            Fp::lemma_raw(r);
        }
        r
    }

    #[inline]
    fn neg(&self) -> (r: Self) {
        proof {
            lemma_fp_modulus();
            Fp::lemma_raw(*self);
            Fp::lemma_of_raw(0);
        }
        if self.is_zero() {
            *self
        } else {
            let m = consts::FP_MODULUS;
            let r = Fp { limbs: limbs::sub_limbs(&m, &self.limbs) };
            proof {
                Fp::lemma_raw(r);
            }
            r
        }
    }

    #[inline]
    fn square(&self) -> (r: Self) {
        self.mul(self)
    }

    #[inline]
    fn same(&self, other: &Self) -> (r: bool) {
        limbs::same(&self.limbs, &other.limbs)
    }

    fn inverse(&self) -> (r: Option<Self>)
    {
        if self.is_zero() {
            None
        } else {
            proof {
                lemma_fp_modulus();
                if self.wf() {
                    Fp::inverse_spec_law(*self);
                }
            }
            let e = consts::FP_MODULUS_MINUS_2;
            Some(self.pow(&e))
        }
    }
}

// ---- Fr ---------------------------------------------------------------------------------

/// The modulus of [`Fr`] with its Montgomery constants.
pub open spec fn fr_modulus() -> Modulus {
    Modulus {
        m: certificates::r(),
        rinv: 0x15ebf95182c5551cc8260de4aeb85d5d090ef5a9e111ec87dc5ba0056db1194eint,
        ninv: 0x73f82f1d0d8341b2e39a9828990623916586864b4c6911b3c2e1f593efffffffint,
    }
}

/// The constants of [`Fr`] belong together.
pub proof fn lemma_fr_modulus()
    ensures
        fr_modulus().valid(),
        limbs::value(consts::FR_MODULUS) == fr_modulus().m,
        limbs::value(consts::FR_R) == fr_modulus().stored(1),
        limbs::value(consts::FR_R2) == (limbs::radix() * limbs::radix()) % fr_modulus().m,
        limbs::value(consts::FR_MODULUS_MINUS_2) == fr_modulus().m - 2,
        (consts::FR_MODULUS[0] * consts::FR_INV + 1) % (limbs::WORD as int) == 0,
{
    certificates::lemma_r_prime();
    assert((limbs::radix() * 0x15ebf95182c5551cc8260de4aeb85d5d090ef5a9e111ec87dc5ba0056db1194eint) % certificates::r() == 1) by (nonlinear_arith);
    assert((certificates::r() * 0x73f82f1d0d8341b2e39a9828990623916586864b4c6911b3c2e1f593efffffffint + 1) % limbs::radix() == 0) by (nonlinear_arith);
    assert((limbs::radix() * limbs::radix()) % certificates::r() == 0x216d0b17f4e44a58c49833d53bb808553fe3ab1e35c59e31bb8e645ae216da7int) by (nonlinear_arith);
    assert((1 * limbs::radix()) % certificates::r() == 0xe0a77c19a07df2f666ea36f7879462e36fc76959f60cd29ac96341c4ffffffbint) by (nonlinear_arith);
    assert((0x43e1f593f0000001int * 0xc2e1f593efffffffint + 1) % 0x1_0000_0000_0000_0000int == 0) by (nonlinear_arith);
    let (a, b, c, d) = (
        consts::FR_MODULUS,
        consts::FR_R,
        consts::FR_R2,
        consts::FR_MODULUS_MINUS_2,
    );
    assert(limbs::value(a) == certificates::r());
    assert(limbs::value(b) == 0xe0a77c19a07df2f666ea36f7879462e36fc76959f60cd29ac96341c4ffffffbint);
    assert(limbs::value(c) == 0x216d0b17f4e44a58c49833d53bb808553fe3ab1e35c59e31bb8e645ae216da7int);
    assert(limbs::value(d) == certificates::r() - 2);
    assert(a[0] == 0x43e1f593f0000001);
}

/// The BN254 scalar field (modulus `r`), Montgomery form.
#[derive(Clone, Copy, Debug, Hash)]
pub struct Fr {
    limbs: [u64; 4],
}

impl Fr {
    /// The integer that the limbs stand for: the Montgomery representative.
    pub closed spec fn raw(self) -> int {
        limbs::value(self.limbs)
    }

    /// The element with a given Montgomery representative.
    pub closed spec fn of_raw(x: int) -> Self {
        Fr { limbs: limbs::limbs_of(x) }
    }

    /// The residue modulo the modulus.
    pub open spec fn val(self) -> int {
        fr_modulus().residue(self.raw())
    }

    /// The element with a given residue.
    pub open spec fn of(v: int) -> Self {
        Fr::of_raw(fr_modulus().stored(v))
    }

    /// Representatives are 256-bit integers and determine the element.
    pub proof fn lemma_raw(a: Self)
        ensures
            0 <= a.raw() < limbs::radix(),
            Fr::of_raw(a.raw()) == a,
    {
        limbs::lemma_value(a.limbs);
    }

    /// Every 256-bit integer is a representative.
    pub proof fn lemma_of_raw(x: int)
        requires
            0 <= x < limbs::radix(),
        ensures
            Fr::of_raw(x).raw() == x,
    {
        limbs::lemma_limbs_of(x);
    }

    /// Every residue is the residue of one reduced element.
    pub proof fn lemma_of(v: int)
        requires
            0 <= v < fr_modulus().m,
        ensures
            Fr::of(v).wf(),
            Fr::of(v).val() == v,
    {
        lemma_fr_modulus();
        montgomery::lemma_stored(fr_modulus(), v);
        Fr::lemma_of_raw(fr_modulus().stored(v));
    }

    /// Reduced elements with equal residues are equal.
    pub proof fn lemma_val(a: Self)
        requires
            a.wf(),
        ensures
            0 <= a.val() < fr_modulus().m,
            Fr::of(a.val()) == a,
            a.val() == 0 <==> a == Fr::zero_spec(),
    {
        lemma_fr_modulus();
        Fr::lemma_raw(a);
        Fr::lemma_of_raw(0);
        montgomery::lemma_residue(fr_modulus(), a.raw());
    }

    /// The operations on reduced elements are the operations on residues.
    pub proof fn lemma_ops(a: Self, b: Self)
        requires
            a.wf(),
            b.wf(),
        ensures
            (a + b).wf() && (a + b).val() == (a.val() + b.val()) % fr_modulus().m,
            (a - b).wf() && (a - b).val() == (a.val() - b.val()) % fr_modulus().m,
            (a * b).wf() && (a * b).val() == (a.val() * b.val()) % fr_modulus().m,
            (-a).wf() && (-a).val() == (-a.val()) % fr_modulus().m,
    {
        let p = fr_modulus();
        lemma_fr_modulus();
        Fr::lemma_raw(a);
        Fr::lemma_raw(b);
        montgomery::lemma_plus(p, a.raw(), b.raw());
        montgomery::lemma_minus(p, a.raw(), b.raw());
        montgomery::lemma_times(p, a.raw(), b.raw());
        montgomery::lemma_negative(p, a.raw());
        Fr::lemma_of_raw(p.plus(a.raw(), b.raw()));
        Fr::lemma_of_raw(p.minus(a.raw(), b.raw()));
        Fr::lemma_of_raw(p.times(a.raw(), b.raw()));
        Fr::lemma_of_raw(p.negative(a.raw()));
    }

    /// Zero and one.
    pub proof fn lemma_constants()
        ensures
            Fr::zero_spec().wf(),
            Fr::zero_spec().val() == 0,
            Fr::one_spec().wf(),
            Fr::one_spec().val() == 1,
            Fr::zero_spec() == Fr::of(0),
            Fr::one_spec() == Fr::of(1),
    {
        lemma_fr_modulus();
        Fr::lemma_of(0);
        Fr::lemma_of(1);
        Fr::lemma_of_raw(0);
        lemma_small_mod(0, fr_modulus().m as nat);
        assert(0 * limbs::radix() == 0);
    }

    /// Powers of an element are powers of its residue.
    pub proof fn lemma_power(a: Self, n: nat)
        requires
            a.wf(),
        ensures
            ring::power(a, n).wf(),
            ring::power(a, n).val() == pow(a.val(), n) % fr_modulus().m,
        decreases n,
    {
        Fr::lemma_constants();
        reveal(pow);
        if n == 0 {
            lemma_small_mod(1, fr_modulus().m as nat);
        } else {
            let m = (n - 1) as nat;
            Fr::lemma_power(a, m);
            Fr::lemma_ops(ring::power(a, m), a);
            lemma_mul_mod_noop_left(pow(a.val(), m), a.val(), fr_modulus().m);
            vstd::arithmetic::mul::lemma_mul_is_commutative(pow(a.val(), m), a.val());
        }
    }

    /// The modulus, little-endian limbs.
    pub const MODULUS: [u64; 4] = consts::FR_MODULUS;

    /// Montgomery multiplication modulo the modulus.
    #[inline]
    fn mont(a: &[u64; 4], b: &[u64; 4]) -> (r: [u64; 4])
        ensures
            limbs::value(r) == fr_modulus().times(limbs::value(*a), limbs::value(*b)),
    {
        proof {
            lemma_fr_modulus();
        }
        let m = consts::FR_MODULUS;
        let r = limbs::mont_mul(a, b, &m, consts::FR_INV);
        proof {
            let x = limbs::value(*a) * limbs::value(*b);
            let (k, t) = choose|k: int, t: int|
                0 <= k < limbs::radix() && t * limbs::radix() == x + #[trigger] (k * limbs::value(m))
                    && limbs::value(r) == #[trigger] limbs::reduced_once(t, limbs::value(m));
            montgomery::lemma_redc(fr_modulus(), x, k, t);
        }
        r
    }

    /// Wrap raw Montgomery-form limbs. Arithmetic expects them reduced.
    #[inline]
    pub fn from_montgomery_limbs(limbs: [u64; 4]) -> (r: Self)
        ensures
            r.raw() == limbs::value(limbs),
    {
        Fr { limbs }
    }

    /// The Montgomery-form limbs.
    #[inline]
    pub fn montgomery_limbs(&self) -> (r: [u64; 4])
        ensures
            limbs::value(r) == self.raw(),
    {
        self.limbs
    }

    /// From a canonical (non-Montgomery) value below the modulus.
    #[inline]
    pub fn from_canonical(x: [u64; 4]) -> (r: Self)
        requires
            limbs::value(x) < fr_modulus().m,
        ensures
            r.wf(),
            r.val() == limbs::value(x),
            r == Fr::of(limbs::value(x)),
    {
        let r2 = consts::FR_R2;
        let limbs = Fr::mont(&x, &r2);
        proof {
            lemma_fr_modulus();
            limbs::lemma_value(x);
            limbs::lemma_value(limbs);
            montgomery::lemma_times_square(fr_modulus(), limbs::value(x), limbs::value(r2));
            Fr::lemma_of(limbs::value(x));
        }
        Fr { limbs }
    }

    /// To the canonical (non-Montgomery) value.
    #[inline]
    pub fn to_canonical(&self) -> (r: [u64; 4])
        ensures
            limbs::value(r) == self.val(),
            limbs::value(r) < fr_modulus().m,
    {
        let one: [u64; 4] = [1, 0, 0, 0];
        let r = Fr::mont(&self.limbs, &one);
        proof {
            lemma_fr_modulus();
            limbs::lemma_value(self.limbs);
            assert(limbs::value(one) == 1);
            montgomery::lemma_times_one(fr_modulus(), self.raw());
            lemma_mod_bound(self.raw() * fr_modulus().rinv, fr_modulus().m);
        }
        r
    }

    /// From a small integer.
    #[inline]
    pub fn from_u64(v: u64) -> (r: Self)
        ensures
            r.wf(),
            r.val() == v,
            r == Fr::of(v as int),
    {
        let x: [u64; 4] = [v, 0, 0, 0];
        assert(limbs::value(x) == v);
        Fr::from_canonical(x)
    }

    /// From 32 canonical little-endian bytes; `None` if not below the modulus.
    pub fn from_le_bytes(b: &[u8; 32]) -> (r: Option<Self>)
        ensures
            r is None <==> bytes::le(b@) >= fr_modulus().m,
            r matches Some(x) ==> x.wf() && x.val() == bytes::le(b@) && x == Fr::of(
                bytes::le(b@),
            ),
    {
        let x = bytes::limbs_at(b.as_slice(), 0);
        let m = consts::FR_MODULUS;
        proof {
            lemma_fr_modulus();
            assert(b@.subrange(0, 32) =~= b@);
        }
        if limbs::geq(&x, &m) {
            None
        } else {
            Some(Fr::from_canonical(x))
        }
    }

    /// To 32 canonical little-endian bytes.
    pub fn to_le_bytes(&self) -> (r: [u8; 32])
        ensures
            r@ == bytes::le_bytes(self.val(), 32),
    {
        bytes::limbs_bytes(&self.to_canonical())
    }

    /// `self^exp` for a little-endian limb exponent.
    pub fn pow(&self, exp: &[u64; 4]) -> (result: Self)
        ensures
            result == ring::binary_power(*self, limbs::value(*exp) as nat),
            self.wf() ==> result == ring::power(*self, limbs::value(*exp) as nat),
    {
        let mut result = <Fr as Field>::one();
        let mut i: u32 = 256;
        proof {
            limbs::lemma_bits_start(*exp);
        }
        while i > 0
            invariant
                i <= 256,
                result == ring::binary_power(*self, limbs::leading(*exp, i as nat)),
            decreases i,
        {
            i -= 1;
            result = result.square();
            proof {
                limbs::lemma_bits_step(*exp, i as nat);
                ring::lemma_binary_power_step(
                    *self,
                    limbs::leading(*exp, (i + 1) as nat),
                    limbs::bit(limbs::value(*exp), i as nat),
                );
            }
            if limbs::bit_at(exp, i) {
                result = result.mul(self);
            }
        }
        proof {
            limbs::lemma_bits_end(*exp);
            if self.wf() {
                ring::lemma_binary_power(*self, limbs::value(*exp) as nat);
            }
        }
        result
    }
}

/// The `==` of the field is equality of limbs.
impl PartialEq for Fr {
    #[inline]
    fn eq(&self, other: &Self) -> (r: bool) {
        proof {
            Fr::lemma_raw(*self);
            Fr::lemma_raw(*other);
        }
        limbs::same(&self.limbs, &other.limbs)
    }
}

impl vstd::std_specs::cmp::PartialEqSpecImpl for Fr {
    open spec fn obeys_eq_spec() -> bool {
        true
    }

    open spec fn eq_spec(&self, other: &Self) -> bool {
        self.raw() == other.raw()
    }
}

impl Eq for Fr {

}

impl Default for Fr {
    fn default() -> (r: Self)
        ensures
            r == Fr::zero_spec(),
    {
        <Fr as Field>::zero()
    }
}

impl Ring for Fr {
    open spec fn wf(self) -> bool {
        self.raw() < fr_modulus().m
    }

    open spec fn zero_spec() -> Self {
        Fr::of_raw(0)
    }

    open spec fn one_spec() -> Self {
        Fr::of_raw(fr_modulus().stored(1))
    }

    open spec fn spec_add(self, other: Self) -> Self {
        Fr::of_raw(fr_modulus().plus(self.raw(), other.raw()))
    }

    open spec fn spec_sub(self, other: Self) -> Self {
        Fr::of_raw(fr_modulus().minus(self.raw(), other.raw()))
    }

    open spec fn spec_mul(self, other: Self) -> Self {
        Fr::of_raw(fr_modulus().times(self.raw(), other.raw()))
    }

    open spec fn spec_neg(self) -> Self {
        Fr::of_raw(fr_modulus().negative(self.raw()))
    }

    proof fn constants_wf() {
        Fr::lemma_constants();
    }

    proof fn closed(a: Self, b: Self) {
        Fr::lemma_ops(a, b);
    }

    proof fn additive(a: Self, b: Self, c: Self) {
        let p = fr_modulus();
        lemma_fr_modulus();
        Fr::lemma_raw(a);
        Fr::lemma_raw(b);
        Fr::lemma_raw(c);
        Fr::lemma_ops(a, b);
        Fr::lemma_ops(b, c);
        montgomery::lemma_plus(p, a.raw(), b.raw());
        montgomery::lemma_plus(p, b.raw(), c.raw());
        montgomery::lemma_negative(p, a.raw());
        montgomery::lemma_negative(p, b.raw());
        Fr::lemma_of_raw(p.plus(a.raw(), b.raw()));
        Fr::lemma_of_raw(p.plus(b.raw(), c.raw()));
        Fr::lemma_of_raw(p.negative(a.raw()));
        Fr::lemma_of_raw(p.negative(b.raw()));
        Fr::lemma_of_raw(0);
        montgomery::lemma_additive(p, a.raw(), b.raw(), c.raw());
    }

    proof fn multiplicative(a: Self, b: Self, c: Self) {
        let p = fr_modulus();
        lemma_fr_modulus();
        Fr::lemma_raw(a);
        Fr::lemma_raw(b);
        Fr::lemma_raw(c);
        montgomery::lemma_plus(p, b.raw(), c.raw());
        montgomery::lemma_times(p, a.raw(), b.raw());
        montgomery::lemma_times(p, b.raw(), c.raw());
        montgomery::lemma_times(p, a.raw(), c.raw());
        montgomery::lemma_stored(p, 1);
        Fr::lemma_of_raw(p.plus(b.raw(), c.raw()));
        Fr::lemma_of_raw(p.times(a.raw(), b.raw()));
        Fr::lemma_of_raw(p.times(b.raw(), c.raw()));
        Fr::lemma_of_raw(p.times(a.raw(), c.raw()));
        Fr::lemma_of_raw(p.stored(1));
        montgomery::lemma_multiplicative(p, a.raw(), b.raw(), c.raw());
    }
}

impl FieldLaws for Fr {
    open spec fn inv_spec(self) -> Self {
        ring::power(self, (fr_modulus().m - 2) as nat)
    }

    proof fn inverse_law(a: Self) {
        let m = fr_modulus().m;
        lemma_fr_modulus();
        Fr::lemma_val(a);
        lemma_small_mod(a.val() as nat, m as nat);
        primes::lemma_fermat(a.val(), m);
        Fr::lemma_power(a, (m - 2) as nat);
        Fr::lemma_power(a, (m - 1) as nat);
        Fr::lemma_constants();
        Fr::lemma_val(ring::power(a, (m - 1) as nat));
        let e = (m - 2) as nat;
        assert(ring::power(a, (m - 1) as nat) == ring::power(a, e) * a);
        Fr::multiplicative(a, ring::power(a, e), a);
    }

    proof fn two_nonzero() {
        let p = fr_modulus();
        lemma_fr_modulus();
        montgomery::lemma_two(p);
        montgomery::lemma_stored(p, 1);
        montgomery::lemma_plus(p, p.stored(1), p.stored(1));
        Fr::lemma_of_raw(p.stored(1));
        Fr::lemma_of_raw(p.plus(p.stored(1), p.stored(1)));
        Fr::lemma_of_raw(0);
    }

    proof fn three_nonzero() {
        broadcast use ring::group_wf;

        let one = Fr::one_spec();
        lemma_fr_modulus();
        Fr::lemma_constants();
        Fr::constants_wf();
        Fr::lemma_ops(one, one);
        Fr::lemma_ops(one + one, one);
    }
}

impl Field for Fr {
    open spec fn square_spec(self) -> Self {
        self * self
    }

    proof fn square_law(a: Self) {
    }

    open spec fn inverse_spec(self) -> Option<Self> {
        if self == Fr::zero_spec() {
            None
        } else {
            Some(ring::binary_power(self, (fr_modulus().m - 2) as nat))
        }
    }

    proof fn inverse_spec_law(a: Self) {
        lemma_fr_modulus();
        ring::lemma_binary_power(a, (fr_modulus().m - 2) as nat);
    }

    fn zero() -> (r: Self) {
        let r = Fr { limbs: [0, 0, 0, 0] };
        proof {
            Fr::lemma_raw(r);
        }
        r
    }

    fn one() -> (r: Self) {
        let r = Fr { limbs: consts::FR_R };
        proof {
            lemma_fr_modulus();
            Fr::lemma_raw(r);
        }
        r
    }

    #[inline]
    fn add(&self, other: &Self) -> (r: Self) {
        let m = consts::FR_MODULUS;
        let (sum, carry) = limbs::add_carry(&self.limbs, &other.limbs);
        proof {
            lemma_fr_modulus();
            Fr::lemma_raw(*self);
            Fr::lemma_raw(*other);
            limbs::lemma_value(sum);
        }
        let r = if carry != 0 || limbs::geq(&sum, &m) {
            let d = limbs::sub_limbs(&sum, &m);
            proof {
                if carry == 1 {
                    lemma_mod_add_multiples_vanish(
                        limbs::value(sum) - limbs::value(m),
                        limbs::radix(),
                    );
                }
            }
            Fr { limbs: d }
        } else {
            Fr { limbs: sum }
        };
        proof {
            Fr::lemma_raw(r);
        }
        r
    }

    #[inline]
    fn sub(&self, other: &Self) -> (r: Self) {
        let m = consts::FR_MODULUS;
        let (diff, borrow) = limbs::sub_borrow(&self.limbs, &other.limbs);
        proof {
            lemma_fr_modulus();
            Fr::lemma_raw(*self);
            Fr::lemma_raw(*other);
            limbs::lemma_value(diff);
        }
        let r = if borrow != 0 {
            let (s, carry) = limbs::add_carry(&diff, &m);
            proof {
                limbs::lemma_value(s);
                let x = self.raw() - other.raw() + fr_modulus().m;
                // x + 2^256 == s + carry·2^256
                if carry == 0 {
                    lemma_mod_add_multiples_vanish(x, limbs::radix());
                }
                lemma_small_mod(limbs::value(s) as nat, limbs::radix() as nat);
            }
            Fr { limbs: s }
        } else {
            Fr { limbs: diff }
        };
        proof {
            Fr::lemma_raw(r);
        }
        r
    }

    #[inline]
    fn mul(&self, other: &Self) -> (r: Self) {
        let r = Fr { limbs: Fr::mont(&self.limbs, &other.limbs) };
        proof {
            Fr::lemma_raw(r);
        }
        r
    }

    #[inline]
    fn neg(&self) -> (r: Self) {
        proof {
            lemma_fr_modulus();
            Fr::lemma_raw(*self);
            Fr::lemma_of_raw(0);
        }
        if self.is_zero() {
            *self
        } else {
            let m = consts::FR_MODULUS;
            let r = Fr { limbs: limbs::sub_limbs(&m, &self.limbs) };
            proof {
                Fr::lemma_raw(r);
            }
            r
        }
    }

    #[inline]
    fn square(&self) -> (r: Self) {
        self.mul(self)
    }

    #[inline]
    fn same(&self, other: &Self) -> (r: bool) {
        limbs::same(&self.limbs, &other.limbs)
    }

    fn inverse(&self) -> (r: Option<Self>)
    {
        if self.is_zero() {
            None
        } else {
            proof {
                lemma_fr_modulus();
                if self.wf() {
                    Fr::inverse_spec_law(*self);
                }
            }
            let e = consts::FR_MODULUS_MINUS_2;
            Some(self.pow(&e))
        }
    }
}

// ---- roots of unity ---------------------------------------------------------------------------

/// The `2^28`-th root of unity that all others are powers of.
pub open spec fn root_spec() -> Fr {
    Fr::of(limbs::value(consts::FR_TWO_ADIC_ROOT_CANONICAL))
}

/// The `2^k`-th root of unity, for `k` up to the two-adicity.
pub open spec fn two_adic_root_spec(k: nat) -> Fr {
    ring::power(root_spec(), pow2((consts::FR_TWO_ADICITY - k) as nat))
}

proof fn lemma_square_step(i: nat, v: int, w: int)
    requires
        root_spec().wf(),
        ring::power(root_spec(), pow2(i)).val() == v,
        (v * v) % fr_modulus().m == w,
    ensures
        ring::power(root_spec(), pow2(i + 1)).val() == w,
{
    let x = ring::power(root_spec(), pow2(i));
    Fr::lemma_power(root_spec(), pow2(i));
    Fr::lemma_ops(x, x);
    ring::lemma_power_adds(root_spec(), pow2(i), pow2(i));
    lemma_pow2_adds(1, i);
    lemma2_to64();
}

/// The root is reduced, and half of its order turns it into `-1`.
pub proof fn lemma_root()
    ensures
        root_spec().wf(),
        ring::power(root_spec(), pow2(27)) == -Fr::one_spec(),
{
    let c = consts::FR_TWO_ADIC_ROOT_CANONICAL;
    assert(limbs::value(c) == 0x2a3c09f0a58a7e8500e0a7eb8ef62abc402d111e41112ed49bd61b6e725b19f0int);
    Fr::lemma_of(0x2a3c09f0a58a7e8500e0a7eb8ef62abc402d111e41112ed49bd61b6e725b19f0int);
    lemma2_to64();
    ring::lemma_power_small(root_spec());
    assert((0x2a3c09f0a58a7e8500e0a7eb8ef62abc402d111e41112ed49bd61b6e725b19f0int * 0x2a3c09f0a58a7e8500e0a7eb8ef62abc402d111e41112ed49bd61b6e725b19f0int) % certificates::r() == 0x49ae702b363ebe85f256a9f6dc6e364b4823532f6437da2034afc4580928c44int) by (nonlinear_arith);
    lemma_square_step(0, 0x2a3c09f0a58a7e8500e0a7eb8ef62abc402d111e41112ed49bd61b6e725b19f0int, 0x49ae702b363ebe85f256a9f6dc6e364b4823532f6437da2034afc4580928c44int);
    assert((0x49ae702b363ebe85f256a9f6dc6e364b4823532f6437da2034afc4580928c44int * 0x49ae702b363ebe85f256a9f6dc6e364b4823532f6437da2034afc4580928c44int) % certificates::r() == 0x1067569af1ff73b20113eff9b8d89d4a605b52b63d68f9ae1c79bd572f4e9212int) by (nonlinear_arith);
    lemma_square_step(1, 0x49ae702b363ebe85f256a9f6dc6e364b4823532f6437da2034afc4580928c44int, 0x1067569af1ff73b20113eff9b8d89d4a605b52b63d68f9ae1c79bd572f4e9212int);
    assert((0x1067569af1ff73b20113eff9b8d89d4a605b52b63d68f9ae1c79bd572f4e9212int * 0x1067569af1ff73b20113eff9b8d89d4a605b52b63d68f9ae1c79bd572f4e9212int) % certificates::r() == 0x2a734ebb326341efa19b0361d9130cd47b26b7488dc6d26eeccd4f3eb878331aint) by (nonlinear_arith);
    lemma_square_step(2, 0x1067569af1ff73b20113eff9b8d89d4a605b52b63d68f9ae1c79bd572f4e9212int, 0x2a734ebb326341efa19b0361d9130cd47b26b7488dc6d26eeccd4f3eb878331aint);
    assert((0x2a734ebb326341efa19b0361d9130cd47b26b7488dc6d26eeccd4f3eb878331aint * 0x2a734ebb326341efa19b0361d9130cd47b26b7488dc6d26eeccd4f3eb878331aint) % certificates::r() == 0xc9fabc7845d50d2852e2a0371c6441f145e0db82e8326961c25f1e3e32b045bint) by (nonlinear_arith);
    lemma_square_step(3, 0x2a734ebb326341efa19b0361d9130cd47b26b7488dc6d26eeccd4f3eb878331aint, 0xc9fabc7845d50d2852e2a0371c6441f145e0db82e8326961c25f1e3e32b045bint);
    assert((0xc9fabc7845d50d2852e2a0371c6441f145e0db82e8326961c25f1e3e32b045bint * 0xc9fabc7845d50d2852e2a0371c6441f145e0db82e8326961c25f1e3e32b045bint) % certificates::r() == 0x210fe635ab4c74d6b7bcf70bc23a1395680c64022dd991fb54d4506ab80c59dint) by (nonlinear_arith);
    lemma_square_step(4, 0xc9fabc7845d50d2852e2a0371c6441f145e0db82e8326961c25f1e3e32b045bint, 0x210fe635ab4c74d6b7bcf70bc23a1395680c64022dd991fb54d4506ab80c59dint);
    assert((0x210fe635ab4c74d6b7bcf70bc23a1395680c64022dd991fb54d4506ab80c59dint * 0x210fe635ab4c74d6b7bcf70bc23a1395680c64022dd991fb54d4506ab80c59dint) % certificates::r() == 0x1ad92f46b1f8d9a7cda0ceb68be08215ec1a1f05359eebbba76dde56a219447eint) by (nonlinear_arith);
    lemma_square_step(5, 0x210fe635ab4c74d6b7bcf70bc23a1395680c64022dd991fb54d4506ab80c59dint, 0x1ad92f46b1f8d9a7cda0ceb68be08215ec1a1f05359eebbba76dde56a219447eint);
    assert((0x1ad92f46b1f8d9a7cda0ceb68be08215ec1a1f05359eebbba76dde56a219447eint * 0x1ad92f46b1f8d9a7cda0ceb68be08215ec1a1f05359eebbba76dde56a219447eint) % certificates::r() == 0x1ded8980ae2bdd1a4222150e8598fc8c58f50577ca5a5ce3b2c87885fcd0b523int) by (nonlinear_arith);
    lemma_square_step(6, 0x1ad92f46b1f8d9a7cda0ceb68be08215ec1a1f05359eebbba76dde56a219447eint, 0x1ded8980ae2bdd1a4222150e8598fc8c58f50577ca5a5ce3b2c87885fcd0b523int);
    assert((0x1ded8980ae2bdd1a4222150e8598fc8c58f50577ca5a5ce3b2c87885fcd0b523int * 0x1ded8980ae2bdd1a4222150e8598fc8c58f50577ca5a5ce3b2c87885fcd0b523int) % certificates::r() == 0x26125da10a0ed06327508aba06d1e303ac616632dbed349f53422da953337857int) by (nonlinear_arith);
    lemma_square_step(7, 0x1ded8980ae2bdd1a4222150e8598fc8c58f50577ca5a5ce3b2c87885fcd0b523int, 0x26125da10a0ed06327508aba06d1e303ac616632dbed349f53422da953337857int);
    assert((0x26125da10a0ed06327508aba06d1e303ac616632dbed349f53422da953337857int * 0x26125da10a0ed06327508aba06d1e303ac616632dbed349f53422da953337857int) % certificates::r() == 0x2260e724844bca5251829353968e4915305258418357473a5c1d597f613f6cbdint) by (nonlinear_arith);
    lemma_square_step(8, 0x26125da10a0ed06327508aba06d1e303ac616632dbed349f53422da953337857int, 0x2260e724844bca5251829353968e4915305258418357473a5c1d597f613f6cbdint);
    assert((0x2260e724844bca5251829353968e4915305258418357473a5c1d597f613f6cbdint * 0x2260e724844bca5251829353968e4915305258418357473a5c1d597f613f6cbdint) % certificates::r() == 0x19ddbcaf3a8d46c15c0176fbb5b95e4dc57088ff13f4d1bd84c6bfa57dcdc0e0int) by (nonlinear_arith);
    lemma_square_step(9, 0x2260e724844bca5251829353968e4915305258418357473a5c1d597f613f6cbdint, 0x19ddbcaf3a8d46c15c0176fbb5b95e4dc57088ff13f4d1bd84c6bfa57dcdc0e0int);
    assert((0x19ddbcaf3a8d46c15c0176fbb5b95e4dc57088ff13f4d1bd84c6bfa57dcdc0e0int * 0x19ddbcaf3a8d46c15c0176fbb5b95e4dc57088ff13f4d1bd84c6bfa57dcdc0e0int) % certificates::r() == 0x1bf82deba7d74902c3708cc6e70e61f30512eca95655210e276e5858ce8f58e5int) by (nonlinear_arith);
    lemma_square_step(10, 0x19ddbcaf3a8d46c15c0176fbb5b95e4dc57088ff13f4d1bd84c6bfa57dcdc0e0int, 0x1bf82deba7d74902c3708cc6e70e61f30512eca95655210e276e5858ce8f58e5int);
    assert((0x1bf82deba7d74902c3708cc6e70e61f30512eca95655210e276e5858ce8f58e5int * 0x1bf82deba7d74902c3708cc6e70e61f30512eca95655210e276e5858ce8f58e5int) % certificates::r() == 0xeeb2cb5981ed45649abebde081dcff16c8601de4347e7dd1628ba2daac43b7int) by (nonlinear_arith);
    lemma_square_step(11, 0x1bf82deba7d74902c3708cc6e70e61f30512eca95655210e276e5858ce8f58e5int, 0xeeb2cb5981ed45649abebde081dcff16c8601de4347e7dd1628ba2daac43b7int);
    assert((0xeeb2cb5981ed45649abebde081dcff16c8601de4347e7dd1628ba2daac43b7int * 0xeeb2cb5981ed45649abebde081dcff16c8601de4347e7dd1628ba2daac43b7int) % certificates::r() == 0x2d1ba66f5941dc91017171fa69ec2bd0022a2a2d4115a009a93458fd4e26ecfbint) by (nonlinear_arith);
    lemma_square_step(12, 0xeeb2cb5981ed45649abebde081dcff16c8601de4347e7dd1628ba2daac43b7int, 0x2d1ba66f5941dc91017171fa69ec2bd0022a2a2d4115a009a93458fd4e26ecfbint);
    assert((0x2d1ba66f5941dc91017171fa69ec2bd0022a2a2d4115a009a93458fd4e26ecfbint * 0x2d1ba66f5941dc91017171fa69ec2bd0022a2a2d4115a009a93458fd4e26ecfbint) % certificates::r() == 0x2d965651cdd9e4811f4e51b80ddca8a8b4a93ee17420aae6adaa01c2617c6e85int) by (nonlinear_arith);
    lemma_square_step(13, 0x2d1ba66f5941dc91017171fa69ec2bd0022a2a2d4115a009a93458fd4e26ecfbint, 0x2d965651cdd9e4811f4e51b80ddca8a8b4a93ee17420aae6adaa01c2617c6e85int);
    assert((0x2d965651cdd9e4811f4e51b80ddca8a8b4a93ee17420aae6adaa01c2617c6e85int * 0x2d965651cdd9e4811f4e51b80ddca8a8b4a93ee17420aae6adaa01c2617c6e85int) % certificates::r() == 0x6fab49b869ae62001deac878b2667bd31bf3e28e3a2d764aa49b8d9bbdd310int) by (nonlinear_arith);
    lemma_square_step(14, 0x2d965651cdd9e4811f4e51b80ddca8a8b4a93ee17420aae6adaa01c2617c6e85int, 0x6fab49b869ae62001deac878b2667bd31bf3e28e3a2d764aa49b8d9bbdd310int);
    assert((0x6fab49b869ae62001deac878b2667bd31bf3e28e3a2d764aa49b8d9bbdd310int * 0x6fab49b869ae62001deac878b2667bd31bf3e28e3a2d764aa49b8d9bbdd310int) % certificates::r() == 0x931d596de2fd10f01ddd073fd5a90a976f169c76f039bb91c4775720042d43aint) by (nonlinear_arith);
    lemma_square_step(15, 0x6fab49b869ae62001deac878b2667bd31bf3e28e3a2d764aa49b8d9bbdd310int, 0x931d596de2fd10f01ddd073fd5a90a976f169c76f039bb91c4775720042d43aint);
    assert((0x931d596de2fd10f01ddd073fd5a90a976f169c76f039bb91c4775720042d43aint * 0x931d596de2fd10f01ddd073fd5a90a976f169c76f039bb91c4775720042d43aint) % certificates::r() == 0x27a358499c5042bb4027fd7a5355d71b8c12c177494f0cad00a58f9769a2ee2int) by (nonlinear_arith);
    lemma_square_step(16, 0x931d596de2fd10f01ddd073fd5a90a976f169c76f039bb91c4775720042d43aint, 0x27a358499c5042bb4027fd7a5355d71b8c12c177494f0cad00a58f9769a2ee2int);
    assert((0x27a358499c5042bb4027fd7a5355d71b8c12c177494f0cad00a58f9769a2ee2int * 0x27a358499c5042bb4027fd7a5355d71b8c12c177494f0cad00a58f9769a2ee2int) % certificates::r() == 0x6fd19c17017a420ebbebc2bb08771e339ba79c0a8d2d7ab11f995e1bc2e5912int) by (nonlinear_arith);
    lemma_square_step(17, 0x27a358499c5042bb4027fd7a5355d71b8c12c177494f0cad00a58f9769a2ee2int, 0x6fd19c17017a420ebbebc2bb08771e339ba79c0a8d2d7ab11f995e1bc2e5912int);
    assert((0x6fd19c17017a420ebbebc2bb08771e339ba79c0a8d2d7ab11f995e1bc2e5912int * 0x6fd19c17017a420ebbebc2bb08771e339ba79c0a8d2d7ab11f995e1bc2e5912int) % certificates::r() == 0xf1ded1ef6e72f5bffc02c0edd9b0675e8302a41fc782d75893a7fa1470157ceint) by (nonlinear_arith);
    lemma_square_step(18, 0x6fd19c17017a420ebbebc2bb08771e339ba79c0a8d2d7ab11f995e1bc2e5912int, 0xf1ded1ef6e72f5bffc02c0edd9b0675e8302a41fc782d75893a7fa1470157ceint);
    assert((0xf1ded1ef6e72f5bffc02c0edd9b0675e8302a41fc782d75893a7fa1470157ceint * 0xf1ded1ef6e72f5bffc02c0edd9b0675e8302a41fc782d75893a7fa1470157ceint) % certificates::r() == 0x7b0c561a6148404f086204a9f36ffb0617942546750f230c893619174a57a76int) by (nonlinear_arith);
    lemma_square_step(19, 0xf1ded1ef6e72f5bffc02c0edd9b0675e8302a41fc782d75893a7fa1470157ceint, 0x7b0c561a6148404f086204a9f36ffb0617942546750f230c893619174a57a76int);
    assert((0x7b0c561a6148404f086204a9f36ffb0617942546750f230c893619174a57a76int * 0x7b0c561a6148404f086204a9f36ffb0617942546750f230c893619174a57a76int) % certificates::r() == 0x16e73dfdad310991df5ce19ce85943e01dcb5564b6f24c799d0e470cba9d1811int) by (nonlinear_arith);
    lemma_square_step(20, 0x7b0c561a6148404f086204a9f36ffb0617942546750f230c893619174a57a76int, 0x16e73dfdad310991df5ce19ce85943e01dcb5564b6f24c799d0e470cba9d1811int);
    assert((0x16e73dfdad310991df5ce19ce85943e01dcb5564b6f24c799d0e470cba9d1811int * 0x16e73dfdad310991df5ce19ce85943e01dcb5564b6f24c799d0e470cba9d1811int) % certificates::r() == 0x1418144d5b080fcac24cdb7649bdadf246a6cb2426e324bedb94fb05118f023aint) by (nonlinear_arith);
    lemma_square_step(21, 0x16e73dfdad310991df5ce19ce85943e01dcb5564b6f24c799d0e470cba9d1811int, 0x1418144d5b080fcac24cdb7649bdadf246a6cb2426e324bedb94fb05118f023aint);
    assert((0x1418144d5b080fcac24cdb7649bdadf246a6cb2426e324bedb94fb05118f023aint * 0x1418144d5b080fcac24cdb7649bdadf246a6cb2426e324bedb94fb05118f023aint) % certificates::r() == 0x9c532c6306b93d29678200d47c0b2a99c18d51b838eeb1d3eed4c533bb512d0int) by (nonlinear_arith);
    lemma_square_step(22, 0x1418144d5b080fcac24cdb7649bdadf246a6cb2426e324bedb94fb05118f023aint, 0x9c532c6306b93d29678200d47c0b2a99c18d51b838eeb1d3eed4c533bb512d0int);
    assert((0x9c532c6306b93d29678200d47c0b2a99c18d51b838eeb1d3eed4c533bb512d0int * 0x9c532c6306b93d29678200d47c0b2a99c18d51b838eeb1d3eed4c533bb512d0int) % certificates::r() == 0x21082ca216cbbf4e1c6e4f4594dd508c996dfbe1174efb98b11509c6e306460bint) by (nonlinear_arith);
    lemma_square_step(23, 0x9c532c6306b93d29678200d47c0b2a99c18d51b838eeb1d3eed4c533bb512d0int, 0x21082ca216cbbf4e1c6e4f4594dd508c996dfbe1174efb98b11509c6e306460bint);
    assert((0x21082ca216cbbf4e1c6e4f4594dd508c996dfbe1174efb98b11509c6e306460bint * 0x21082ca216cbbf4e1c6e4f4594dd508c996dfbe1174efb98b11509c6e306460bint) % certificates::r() == 0x2b337de1c8c14f22ec9b9e2f96afef3652627366f8170a0a948dad4ac1bd5e80int) by (nonlinear_arith);
    lemma_square_step(24, 0x21082ca216cbbf4e1c6e4f4594dd508c996dfbe1174efb98b11509c6e306460bint, 0x2b337de1c8c14f22ec9b9e2f96afef3652627366f8170a0a948dad4ac1bd5e80int);
    assert((0x2b337de1c8c14f22ec9b9e2f96afef3652627366f8170a0a948dad4ac1bd5e80int * 0x2b337de1c8c14f22ec9b9e2f96afef3652627366f8170a0a948dad4ac1bd5e80int) % certificates::r() == 0x30644e72e131a029048b6e193fd841045cea24f6fd736bec231204708f703636int) by (nonlinear_arith);
    lemma_square_step(25, 0x2b337de1c8c14f22ec9b9e2f96afef3652627366f8170a0a948dad4ac1bd5e80int, 0x30644e72e131a029048b6e193fd841045cea24f6fd736bec231204708f703636int);
    assert((0x30644e72e131a029048b6e193fd841045cea24f6fd736bec231204708f703636int * 0x30644e72e131a029048b6e193fd841045cea24f6fd736bec231204708f703636int) % certificates::r() == 0x30644e72e131a029b85045b68181585d2833e84879b9709143e1f593f0000000int) by (nonlinear_arith);
    lemma_square_step(26, 0x30644e72e131a029048b6e193fd841045cea24f6fd736bec231204708f703636int, 0x30644e72e131a029b85045b68181585d2833e84879b9709143e1f593f0000000int);
    Fr::lemma_constants();
    Fr::lemma_ops(Fr::one_spec(), Fr::one_spec());
    Fr::lemma_power(root_spec(), pow2(27));
    Fr::lemma_val(ring::power(root_spec(), pow2(27)));
    Fr::lemma_val(-Fr::one_spec());
    lemma_small_mod((certificates::r() - 1) as nat, certificates::r() as nat);
    lemma_mod_add_multiples_vanish(-1, certificates::r());
}

/// The order of the root divides `2^28`.
proof fn lemma_root_order()
    ensures
        ring::power(root_spec(), pow2(28)) == Fr::one_spec(),
{
    let one = Fr::one_spec();
    lemma_root();
    Fr::constants_wf();
    Fr::closed(one, one);
    ring::lemma_power_adds(root_spec(), pow2(27), pow2(27));
    lemma_pow2_unfold(28);
    ring::lemma_neg_mul(one, -one);
    ring::lemma_neg_neg(one);
    Fr::multiplicative(-one, one, one);
    Fr::multiplicative(one, -one, one);
}

/// The `2^k`-th root of unity has order `2^k`: it is the square root of the one before,
/// and half of its order turns it into `-1`.
pub proof fn lemma_two_adic_root(k: nat)
    requires
        k <= 28,
    ensures
        two_adic_root_spec(k).wf(),
        ring::power(two_adic_root_spec(k), pow2(k)) == Fr::one_spec(),
        k > 0 ==> ring::power(two_adic_root_spec(k), pow2((k - 1) as nat)) == -Fr::one_spec(),
        k > 0 ==> two_adic_root_spec((k - 1) as nat) == two_adic_root_spec(k)
            * two_adic_root_spec(k),
{
    let g = root_spec();
    let m = (28 - k) as nat;
    lemma_root();
    Fr::lemma_power(g, pow2(m));
    lemma_root_order();
    assert(ring::power(two_adic_root_spec(k), pow2(k)) == Fr::one_spec()) by {
        ring::lemma_power_multiplies(g, pow2(m), pow2(k));
        lemma_pow2_adds(m, k);
    }
    if k > 0 {
        let l = (k - 1) as nat;
        assert(ring::power(two_adic_root_spec(k), pow2(l)) == -Fr::one_spec()) by {
            ring::lemma_power_multiplies(g, pow2(m), pow2(l));
            lemma_pow2_adds(m, l);
        }
        assert(two_adic_root_spec(l) == two_adic_root_spec(k) * two_adic_root_spec(k)) by {
            ring::lemma_power_adds(g, pow2(m), pow2(m));
            lemma_pow2_unfold(m + 1);
        }
    }
}

impl Fr {
    /// The generator of the order-`2^k` subgroup of the multiplicative group.
    pub fn two_adic_root(k: u32) -> (r: Self)
        requires
            k <= consts::FR_TWO_ADICITY,
        ensures
            r == two_adic_root_spec(k as nat),
            r.wf(),
    {
        let c = consts::FR_TWO_ADIC_ROOT_CANONICAL;
        assert(limbs::value(c) == 0x2a3c09f0a58a7e8500e0a7eb8ef62abc402d111e41112ed49bd61b6e725b19f0int);
        let mut root = Fr::from_canonical(c);
        let mut i: u32 = consts::FR_TWO_ADICITY;
        proof {
            lemma2_to64();
            ring::lemma_power_small(root_spec());
        }
        while i > k
            invariant
                k <= i <= consts::FR_TWO_ADICITY,
                root == two_adic_root_spec(i as nat),
            decreases i,
        {
            proof {
                lemma_two_adic_root(i as nat);
            }
            root = root.square();
            i -= 1;
        }
        proof {
            lemma_two_adic_root(k as nat);
        }
        root
    }
}

} // verus!
