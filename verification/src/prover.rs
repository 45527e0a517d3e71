//! The Groth16 prover pipeline on the CPU: coefficient scatter,
//! `C = A∘B` on the domain, three coset transforms, `h·Z` on the coset, five
//! multi-scalar multiplications, and the host-side assembly with the blinding
//! scalars `r`, `s`.

use vstd::arithmetic::power2::*;
use vstd::prelude::*;

use crate::consts;
use crate::ec;
use crate::ec::{Affine, G1Affine, G1Jacobian, G2Affine, G2Jacobian, Jacobian};
use crate::field;
use crate::field::{Field, Fp, Fr};
use crate::fp2::Fp2;
use crate::math::curve;
use crate::math::curve::Pt;
use crate::math::dft;
use crate::math::group;
use crate::math::ring;
use crate::math::ring::{FieldLaws, Ring};
use crate::msm;
use crate::msm::msm_pippenger;
use crate::ntt;
use crate::ntt::{h_to_coset, lg2};
use crate::reading;
use crate::text;
use crate::zkey::{Coefficient, VerifyingKey, Zkey};

pub use crate::coeff::GroupedCoeff;
pub use crate::json::{proof_json, public_json, verifying_key_json};
pub use crate::text::decimal;

verus! {

/// A Groth16 proof `(π_A, π_B, π_C)`.
#[derive(Clone, Debug, PartialEq, Eq)]
pub struct Proof {
    /// π_A in G1.
    pub a: G1Affine,
    /// π_B in G2.
    pub b: G2Affine,
    /// π_C in G1.
    pub c: G1Affine,
}

/// Why a proof could not be produced.
#[derive(Clone, Debug, PartialEq, Eq)]
pub enum ProveError {
    /// The witness has the wrong length for this key.
    WitnessLength {
        /// Expected `num_vars`.
        expected: usize,
        /// Provided.
        found: usize,
    },
    /// `w[0]` is not 1.
    WitnessConstant,
}

impl ProveError {
    /// The message for a reader.
    pub open spec fn text(self) -> Seq<char> {
        match self {
            ProveError::WitnessLength { expected, found } => "witness has "@ + text::decimal_of(
                found as nat,
            ) + " values, the key expects "@ + text::decimal_of(expected as nat),
            ProveError::WitnessConstant => "witness[0] must be 1"@,
        }
    }

    /// The message for a reader.
    pub fn message(&self) -> (r: String)
        ensures
            r@ == self.text(),
    {
        match self {
            ProveError::WitnessLength { expected, found } => {
                let mut r = text::owned("witness has ");
                text::push_u64(&mut r, *found as u64);
                text::push(&mut r, " values, the key expects ");
                text::push_u64(&mut r, *expected as u64);
                r
            },
            ProveError::WitnessConstant => text::owned("witness[0] must be 1"),
        }
    }
}

/// Pippenger window width used by the reference (any width is correct; this
/// one is a reasonable CPU default).
pub const WINDOW_BITS: u32 = 12;

// ---- scatter -------------------------------------------------------------------------------

/// The value at constraint `c` of the A polynomial (`first`) or the B polynomial: the sum of
/// `w[signal]·value` over the coefficients of that matrix and constraint, in file order.
pub open spec fn scattered(
    coefficients: Seq<Coefficient>,
    witness: Seq<Fr>,
    first: bool,
    c: int,
) -> Fr
    decreases coefficients.len(),
{
    if coefficients.len() == 0 {
        Fr::zero_spec()
    } else {
        let co = coefficients.last();
        let rest = scattered(coefficients.drop_last(), witness, first, c);
        if (co.matrix == 0) == first && co.constraint == c {
            rest + witness[co.signal as int] * co.value
        } else {
            rest
        }
    }
}

/// The A polynomial (`first`) or the B polynomial on the domain.
pub open spec fn polynomial(
    coefficients: Seq<Coefficient>,
    witness: Seq<Fr>,
    first: bool,
    domain: nat,
) -> Seq<Fr> {
    Seq::new(domain, |c: int| scattered(coefficients, witness, first, c))
}

/// Every coefficient names a constraint of the domain and a signal of the witness.
pub open spec fn in_range(coefficients: Seq<Coefficient>, signals: int, domain: int) -> bool {
    forall|i: int|
        0 <= i < coefficients.len() ==> (#[trigger] coefficients[i]).constraint < domain
            && coefficients[i].signal < signals
}

/// A vector of zeros.
pub fn zeros(n: usize) -> (r: Vec<Fr>)
    ensures
        r@ == Seq::new(n as nat, |i: int| Fr::zero_spec()),
{
    let mut r: Vec<Fr> = Vec::with_capacity(n);
    let mut i: usize = 0;
    while i < n
        invariant
            i <= n,
            r@ == Seq::new(i as nat, |i: int| Fr::zero_spec()),
        decreases n - i,
    {
        r.push(<Fr as Field>::zero());
        i = i + 1;
        proof {
            assert(r@ =~= Seq::new(i as nat, |i: int| Fr::zero_spec()));
        }
    }
    r
}

/// Evaluate the A and B polynomials on the domain from the coefficient list:
/// `poly_m[c] += w[s]·v`.
pub fn scatter(zkey: &Zkey, witness: &[Fr]) -> (r: (Vec<Fr>, Vec<Fr>))
    requires
        in_range(zkey.coefficients@, witness@.len() as int, zkey.domain_size as int),
    ensures
        r.0@ == polynomial(zkey.coefficients@, witness@, true, zkey.domain_size as nat),
        r.1@ == polynomial(zkey.coefficients@, witness@, false, zkey.domain_size as nat),
{
    let mut a = zeros(zkey.domain_size);
    let mut b = zeros(zkey.domain_size);
    let ghost cs = zkey.coefficients@;
    let n = zkey.coefficients.len();
    let mut i: usize = 0;
    proof {
        assert(a@ =~= polynomial(cs.take(0), witness@, true, zkey.domain_size as nat));
        assert(b@ =~= polynomial(cs.take(0), witness@, false, zkey.domain_size as nat));
    }
    while i < n
        invariant
            i <= n,
            n == cs.len(),
            cs == zkey.coefficients@,
            in_range(cs, witness@.len() as int, zkey.domain_size as int),
            a@ == polynomial(cs.take(i as int), witness@, true, zkey.domain_size as nat),
            b@ == polynomial(cs.take(i as int), witness@, false, zkey.domain_size as nat),
        decreases n - i,
    {
        let co = zkey.coefficients[i];
        assert(cs[i as int] == co);
        let term = witness[co.signal as usize].mul(&co.value);
        let slot = co.constraint as usize;
        if co.matrix == 0 {
            let v = a[slot].add(&term);
            a[slot] = v;
        } else {
            let v = b[slot].add(&term);
            b[slot] = v;
        }
        proof {
            let t = cs.take(i + 1);
            assert(t.drop_last() =~= cs.take(i as int));
            assert(t.last() == co);
            assert(a@ =~= polynomial(t, witness@, true, zkey.domain_size as nat));
            assert(b@ =~= polynomial(t, witness@, false, zkey.domain_size as nat));
        }
        i = i + 1;
    }
    proof {
        assert(cs.take(n as int) =~= cs);
    }
    (a, b)
}

/// Coefficient values are reduced.
pub open spec fn values_wf(coefficients: Seq<Coefficient>) -> bool {
    forall|i: int| 0 <= i < coefficients.len() ==> (#[trigger] coefficients[i]).value.wf()
}

/// Scattered sums are field elements.
pub proof fn lemma_scattered_wf(
    coefficients: Seq<Coefficient>,
    witness: Seq<Fr>,
    first: bool,
    c: int,
    domain: int,
)
    requires
        values_wf(coefficients),
        dft::all_wf(witness),
        in_range(coefficients, witness.len() as int, domain),
    ensures
        scattered(coefficients, witness, first, c).wf(),
    decreases coefficients.len(),
{
    broadcast use ring::group_wf;

    if coefficients.len() > 0 {
        let co = coefficients.last();
        assert(coefficients[coefficients.len() - 1] == co);
        lemma_scattered_wf(coefficients.drop_last(), witness, first, c, domain);
        assert(witness[co.signal as int].wf());
    }
}

/// The polynomials are field elements everywhere.
pub proof fn lemma_polynomial_wf(
    coefficients: Seq<Coefficient>,
    witness: Seq<Fr>,
    first: bool,
    domain: nat,
)
    requires
        values_wf(coefficients),
        dft::all_wf(witness),
        in_range(coefficients, witness.len() as int, domain as int),
    ensures
        dft::all_wf(polynomial(coefficients, witness, first, domain)),
{
    assert forall|c: int| 0 <= c < domain implies (#[trigger] polynomial(
        coefficients,
        witness,
        first,
        domain,
    )[c]).wf() by {
        lemma_scattered_wf(coefficients, witness, first, c, domain as int);
    }
}

// ---- quotient ------------------------------------------------------------------------------

/// Termwise products.
pub open spec fn products(a: Seq<Fr>, b: Seq<Fr>) -> Seq<Fr> {
    Seq::new(a.len(), |i: int| a[i] * b[i])
}

/// `A∘B − C` on the coset `shift·H`, from the values of `A` and `B` on `H`.
pub open spec fn quotient(a: Seq<Fr>, b: Seq<Fr>, shift: Fr) -> Seq<Fr> {
    let (x, y, z) = (
        ntt::on_coset(a, shift),
        ntt::on_coset(b, shift),
        ntt::on_coset(products(a, b), shift),
    );
    Seq::new(a.len(), |i: int| x[i] * y[i] - z[i])
}

/// The shift of the coset: the primitive `2n`-th root of unity.
pub open spec fn coset_shift(n: nat) -> Fr {
    field::two_adic_root_spec((ntt::lg(n) + 1) as nat)
}

/// The domain sizes with a `2n`-th root of unity.
pub open spec fn provable_domain(n: nat) -> bool {
    dft::power_of_two(n) && ntt::lg(n) < consts::FR_TWO_ADICITY
}

/// Termwise product of two vectors.
pub fn multiply_all(a: &Vec<Fr>, b: &Vec<Fr>) -> (r: Vec<Fr>)
    requires
        a@.len() == b@.len(),
    ensures
        r@ == products(a@, b@),
{
    let mut r: Vec<Fr> = Vec::with_capacity(a.len());
    let mut i: usize = 0;
    while i < a.len()
        invariant
            i <= a@.len(),
            a@.len() == b@.len(),
            r@.len() == i,
            forall|j: int| 0 <= j < i ==> #[trigger] r@[j] == a@[j] * b@[j],
        decreases a@.len() - i,
    {
        r.push(a[i].mul(&b[i]));
        i = i + 1;
    }
    proof {
        assert(r@ =~= products(a@, b@));
    }
    r
}

/// Products of field elements.
pub proof fn lemma_products_wf(a: Seq<Fr>, b: Seq<Fr>)
    requires
        dft::all_wf(a),
        dft::all_wf(b),
        a.len() == b.len(),
    ensures
        dft::all_wf(products(a, b)),
{
    broadcast use ring::group_wf;

    assert forall|i: int| 0 <= i < a.len() implies (#[trigger] products(a, b)[i]).wf() by {
        assert(a[i].wf() && b[i].wf());
    }
}

/// The quotient evaluations `(A·B − C)(g·H)` the H-query sum consumes:
/// `C = A∘B` on `H`, move all three to the coset `g·H` with
/// `g` a `2n`-th root of unity, then `A∘B − C` there.
pub fn quotient_on_coset(zkey: &Zkey, witness: &[Fr]) -> (r: Vec<Fr>)
    requires
        provable_domain(zkey.domain_size as nat),
        in_range(zkey.coefficients@, witness@.len() as int, zkey.domain_size as int),
    ensures
        r@.len() == zkey.domain_size,
        values_wf(zkey.coefficients@) && dft::all_wf(witness@) ==> r@ == quotient_of(
            *zkey,
            witness@,
        ) && dft::all_wf(r@),
{
    let (mut a, mut b) = scatter(zkey, witness);
    let mut c = multiply_all(&a, &b);
    let ghost (pa, pb) = (a@, b@);
    let ghost wf = values_wf(zkey.coefficients@) && dft::all_wf(witness@);
    let n = zkey.domain_size;
    let shift = Fr::two_adic_root(lg2(n) + 1);
    proof {
        if wf {
            lemma_polynomial_wf(zkey.coefficients@, witness@, true, n as nat);
            lemma_polynomial_wf(zkey.coefficients@, witness@, false, n as nat);
            lemma_products_wf(pa, pb);
        }
    }
    h_to_coset(&mut a, &shift);
    h_to_coset(&mut b, &shift);
    h_to_coset(&mut c, &shift);
    let mut r: Vec<Fr> = Vec::with_capacity(n);
    let mut i: usize = 0;
    while i < n
        invariant
            i <= n,
            a@.len() == n,
            b@.len() == n,
            c@.len() == n,
            r@.len() == i,
            forall|j: int| 0 <= j < i ==> #[trigger] r@[j] == a@[j] * b@[j] - c@[j],
        decreases n - i,
    {
        r.push(a[i].mul(&b[i]).sub(&c[i]));
        i = i + 1;
    }
    proof {
        if wf {
            broadcast use ring::group_wf;

            assert(r@ =~= quotient(pa, pb, shift));
            assert forall|i: int| 0 <= i < n implies (#[trigger] r@[i]).wf() by {
                assert(a@[i].wf() && b@[i].wf() && c@[i].wf());
            }
        }
    }
    r
}

/// The quotient evaluations of a witness.
pub open spec fn quotient_of(zkey: Zkey, witness: Seq<Fr>) -> Seq<Fr> {
    let n = zkey.domain_size as nat;
    quotient(
        polynomial(zkey.coefficients@, witness, true, n),
        polynomial(zkey.coefficients@, witness, false, n),
        coset_shift(n),
    )
}

// ---- proofs --------------------------------------------------------------------------------

/// A reduced point on the G1 curve.
pub open spec fn g1_point(p: G1Affine) -> bool {
    p.wf() && p.pt().on(ec::g1_b_spec())
}

/// A reduced point on the G2 curve.
pub open spec fn g2_point(p: G2Affine) -> bool {
    p.wf() && p.pt().on(ec::g2_b_spec())
}

/// The key points that the assembly uses are reduced and on their curves.
pub open spec fn key_points(vk: VerifyingKey) -> bool {
    &&& g1_point(vk.alpha_g1)
    &&& g1_point(vk.beta_g1)
    &&& g2_point(vk.beta_g2)
    &&& g1_point(vk.delta_g1)
    &&& g2_point(vk.delta_g2)
}

/// All points of the key are reduced and on their curves, and its coefficients are reduced.
pub open spec fn key_reduced(zkey: Zkey) -> bool {
    &&& key_points(zkey.vk)
    &&& values_wf(zkey.coefficients@)
    &&& msm::on_curve(zkey.a@, ec::g1_b_spec())
    &&& msm::on_curve(zkey.b1@, ec::g1_b_spec())
    &&& msm::on_curve(zkey.b2@, ec::g2_b_spec())
    &&& msm::on_curve(zkey.c@, ec::g1_b_spec())
    &&& msm::on_curve(zkey.h@, ec::g1_b_spec())
}

/// The affine coordinates of a point.
pub open spec fn affine_of<F: Field>(p: Pt<F>) -> Affine<F> {
    match p {
        Pt::Infinity => Affine::infinity_spec(),
        Pt::Finite(x, y) => Affine { x, y, infinity: false },
    }
}

/// `A = α + Σ wᵢ·Aᵢ + r·δ`.
pub open spec fn proof_a(vk: VerifyingKey, a: Pt<Fp>, r: nat) -> Pt<Fp> {
    a.plus(vk.alpha_g1.pt()).plus(group::times(vk.delta_g1.pt(), r))
}

/// `B₁ = β₁ + Σ wᵢ·B1ᵢ + s·δ₁`.
pub open spec fn proof_b1(vk: VerifyingKey, b1: Pt<Fp>, s: nat) -> Pt<Fp> {
    b1.plus(vk.beta_g1.pt()).plus(group::times(vk.delta_g1.pt(), s))
}

/// `B₂ = β₂ + Σ wᵢ·B2ᵢ + s·δ₂`.
pub open spec fn proof_b2(vk: VerifyingKey, b2: Pt<Fp2>, s: nat) -> Pt<Fp2> {
    b2.plus(vk.beta_g2.pt()).plus(group::times(vk.delta_g2.pt(), s))
}

/// `C = Σ_{i > ℓ} wᵢ·Cᵢ + π_h + s·A + r·B₁ − (r·s)·δ`.
pub open spec fn proof_c(
    vk: VerifyingKey,
    c: Pt<Fp>,
    h: Pt<Fp>,
    a: Pt<Fp>,
    b1: Pt<Fp>,
    r: nat,
    s: nat,
    rs: nat,
) -> Pt<Fp> {
    c.plus(h).plus(group::times(a, s)).plus(group::times(b1, r)).plus(
        group::times(vk.delta_g1.pt(), rs).negated(),
    )
}

/// The proof that five multi-scalar sums are blinded into.
pub open spec fn assembled(
    vk: VerifyingKey,
    h: Pt<Fp>,
    a: Pt<Fp>,
    b1: Pt<Fp>,
    b2: Pt<Fp2>,
    c: Pt<Fp>,
    r: Fr,
    s: Fr,
) -> Proof {
    let (rn, sn, rs) = (r.val() as nat, s.val() as nat, (r * s).val() as nat);
    let pa = proof_a(vk, a, rn);
    let pb1 = proof_b1(vk, b1, sn);
    Proof {
        a: affine_of(pa),
        b: affine_of(proof_b2(vk, b2, sn)),
        c: affine_of(proof_c(vk, c, h, pa, pb1, rn, sn, rs)),
    }
}

/// The Groth16 proof of a witness, for given blinding scalars.
pub open spec fn proof_of(zkey: Zkey, witness: Seq<Fr>, r: Fr, s: Fr) -> Proof {
    proof_with(zkey, quotient_of(zkey, witness), witness, r, s)
}

/// The Groth16 proof of a witness with given quotient evaluations.
pub open spec fn proof_with(zkey: Zkey, quotient: Seq<Fr>, witness: Seq<Fr>, r: Fr, s: Fr) -> Proof {
    let w = msm::vals(witness);
    assembled(
        zkey.vk,
        group::weighted(msm::pts(zkey.h@), msm::vals(quotient)),
        group::weighted(msm::pts(zkey.a@), w),
        group::weighted(msm::pts(zkey.b1@), w),
        group::weighted(msm::pts(zkey.b2@), w),
        group::weighted(
            msm::pts(zkey.c@),
            msm::vals(witness.subrange(zkey.num_public + 1, witness.len() as int)),
        ),
        r,
        s,
    )
}

/// Blinding: `r` moves π_A by `r·δ` in G1 and `s` moves π_B by `s·δ` in G2, from where they are
/// without it, and neither moves the other.
pub proof fn lemma_blinding(zkey: Zkey, witness: Seq<Fr>, r: Fr, s: Fr, other: Fr)
    requires
        r.wf(),
        s.wf(),
    ensures
        ({
            let zero = Fr::zero_spec();
            let p = proof_of(zkey, witness, r, s);
            &&& p.a.pt() == proof_of(zkey, witness, zero, other).a.pt().plus(
                group::times(zkey.vk.delta_g1.pt(), r.val() as nat),
            )
            &&& p.b.pt() == proof_of(zkey, witness, other, zero).b.pt().plus(
                group::times(zkey.vk.delta_g2.pt(), s.val() as nat),
            )
        }),
{
    Fr::lemma_constants();
    let w = msm::vals(witness);
    group::lemma_plus_identity(
        group::weighted(msm::pts(zkey.a@), w).plus(zkey.vk.alpha_g1.pt()),
    );
    group::lemma_plus_identity(
        group::weighted(msm::pts(zkey.b2@), w).plus(zkey.vk.beta_g2.pt()),
    );
}

/// What the message on a witness of the wrong length says: the number of its values, then the
/// number that the key expects.
pub proof fn lemma_length_named(expected: usize, found: usize)
    ensures
        ({
            let f = reading::fields(ProveError::WitnessLength { expected, found }.text(), ' ');
            &&& f.len() == 8
            &&& reading::numerals(f[2]) && reading::number(f[2]) == found
            &&& f[6] == "expects"@
            &&& reading::numerals(f[7]) && reading::number(f[7]) == expected
        }),
{
    reveal_strlit("witness has ");
    reveal_strlit(" values, the key expects ");
    reveal_strlit("expects");
    let (a, b) = (text::decimal_of(found as nat), text::decimal_of(expected as nat));
    reading::lemma_decimal(found as nat);
    reading::lemma_decimal(expected as nat);
    reading::lemma_decimal_free(found as nat);
    reading::lemma_decimal_free(expected as nat);
    let t0 = seq!['w', 'i', 't', 'n', 'e', 's', 's'];
    let t1 = t0.push(' ') + seq!['h', 'a', 's'];
    let t2 = t1.push(' ') + a;
    let t3 = t2.push(' ') + seq!['v', 'a', 'l', 'u', 'e', 's', ','];
    let t4 = t3.push(' ') + seq!['t', 'h', 'e'];
    let t5 = t4.push(' ') + seq!['k', 'e', 'y'];
    let t6 = t5.push(' ') + "expects"@;
    let t7 = t6.push(' ') + b;
    reading::lemma_fields_free(t0, ' ');
    reading::lemma_fields_next(t0, seq!['h', 'a', 's'], ' ');
    reading::lemma_fields_next(t1, a, ' ');
    reading::lemma_fields_next(t2, seq!['v', 'a', 'l', 'u', 'e', 's', ','], ' ');
    reading::lemma_fields_next(t3, seq!['t', 'h', 'e'], ' ');
    reading::lemma_fields_next(t4, seq!['k', 'e', 'y'], ' ');
    reading::lemma_fields_next(t5, "expects"@, ' ');
    reading::lemma_fields_next(t6, b, ' ');
    assert("witness has "@ + a + " values, the key expects "@ + b =~= t7);
}

/// The outcome of a proof: an error exactly where the witness has the wrong length or does not
/// start with one, else the Groth16 proof.
pub open spec fn outcome(zkey: Zkey, witness: Seq<Fr>, r: Fr, s: Fr) -> Result<
    Proof,
    ProveError,
> {
    if witness.len() != zkey.num_vars {
        Err(ProveError::WitnessLength { expected: zkey.num_vars, found: witness.len() as usize })
    } else if witness[0] != Fr::one_spec() {
        Err(ProveError::WitnessConstant)
    } else {
        Ok(proof_of(zkey, witness, r, s))
    }
}

/// The key has consistent sizes and a domain that can be proved over.
pub open spec fn usable(zkey: Zkey) -> bool {
    zkey.consistent() && provable_domain(zkey.domain_size as nat)
}

/// Whether a key with consistent sizes can be proved with: whether the field has the roots of
/// unity that its domain needs.
pub fn is_usable(zkey: &Zkey) -> (r: bool)
    requires
        zkey.consistent(),
    ensures
        r == usable(*zkey),
{
    ntt::lg2(zkey.domain_size) < consts::FR_TWO_ADICITY
}

/// Produce a proof for `witness` under `zkey` with blinding scalars `r`, `s`.
/// Deterministic for fixed `(r, s)`; callers sample them uniformly.
pub fn prove(zkey: &Zkey, witness: &[Fr], r: &Fr, s: &Fr) -> (result: Result<Proof, ProveError>)
    requires
        usable(*zkey),
    ensures
        match result {
            Err(e) => e == (if witness@.len() != zkey.num_vars {
                ProveError::WitnessLength { expected: zkey.num_vars, found: witness.len() }
            } else {
                ProveError::WitnessConstant
            }),
            Ok(proof) => key_reduced(*zkey) && dft::all_wf(witness@) && r.wf() && s.wf() ==> proof
                == proof_of(*zkey, witness@, *r, *s),
        },
        result is Ok <==> witness@.len() == zkey.num_vars && witness@[0] == Fr::one_spec(),
        key_reduced(*zkey) && dft::all_wf(witness@) && r.wf() && s.wf() ==> result == outcome(
            *zkey,
            witness@,
            *r,
            *s,
        ),
{
    if witness.len() != zkey.num_vars {
        return Err(
            ProveError::WitnessLength { expected: zkey.num_vars, found: witness.len() },
        );
    }
    if !witness[0].same(&<Fr as Field>::one()) {
        return Err(ProveError::WitnessConstant);
    }
    let h_evals = quotient_on_coset(zkey, witness);
    let private = vstd::slice::slice_subrange(witness, zkey.num_public + 1, witness.len());
    let msms = Msms {
        h: msm_pippenger(&zkey.h, &h_evals, WINDOW_BITS),
        a: msm_pippenger(&zkey.a, witness, WINDOW_BITS),
        b1: msm_pippenger(&zkey.b1, witness, WINDOW_BITS),
        b2: msm_pippenger(&zkey.b2, witness, WINDOW_BITS),
        c: msm_pippenger(&zkey.c, private, WINDOW_BITS),
    };
    proof {
        if key_reduced(*zkey) {
            lemma_msm_on(zkey.h@, h_evals@, ec::g1_b_spec());
            lemma_msm_on(zkey.a@, witness@, ec::g1_b_spec());
            lemma_msm_on(zkey.b1@, witness@, ec::g1_b_spec());
            lemma_msm_on(zkey.b2@, witness@, ec::g2_b_spec());
            lemma_msm_on(zkey.c@, private@, ec::g1_b_spec());
        }
    }
    Ok(assemble(zkey, &msms, r, s))
}

/// A multi-scalar sum of points of a curve is on the curve.
pub proof fn lemma_msm_on<F: Field>(points: Seq<Affine<F>>, scalars: Seq<Fr>, b: F)
    requires
        msm::on_curve(points, b),
        points.len() == scalars.len(),
    ensures
        msm::curve_points(points),
        group::weighted(msm::pts(points), msm::vals(scalars)).on(b),
{
    assert(group::all_on(msm::pts(points), b)) by {
        assert forall|i: int| 0 <= i < points.len() implies (#[trigger] msm::pts(points)[i]).on(
            b,
        ) by {
            assert(points[i].pt().on(b));
        }
    }
    group::lemma_weighted_on(msm::pts(points), msm::vals(scalars), b);
}

/// The five multi-scalar multiplications a Groth16 proof is assembled from.
#[derive(Clone, Debug)]
pub struct Msms {
    /// `Σ q_i·H_i` over the quotient's coset evaluations.
    pub h: G1Jacobian,
    /// `Σ w_i·A_i`.
    pub a: G1Jacobian,
    /// `Σ w_i·B1_i` (G1).
    pub b1: G1Jacobian,
    /// `Σ w_i·B2_i` (G2).
    pub b2: G2Jacobian,
    /// `Σ_{i > num_public} w_i·C_i`.
    pub c: G1Jacobian,
}

impl Msms {
    /// The sums are reduced and on their curves.
    pub open spec fn on_curves(self) -> bool {
        &&& self.h.wf() && self.h.pt().on(ec::g1_b_spec())
        &&& self.a.wf() && self.a.pt().on(ec::g1_b_spec())
        &&& self.b1.wf() && self.b1.pt().on(ec::g1_b_spec())
        &&& self.b2.wf() && self.b2.pt().on(ec::g2_b_spec())
        &&& self.c.wf() && self.c.pt().on(ec::g1_b_spec())
    }
}

/// Blind a sum: `Σ + P + k·D`.
fn blinded<F: Field>(sum: &Jacobian<F>, p: &Affine<F>, d: &Affine<F>, k: &Fr) -> (r: Jacobian<F>)
    ensures
        forall|b: F|
            curve::smooth(b) && sum.wf() && #[trigger] sum.pt().on(b) && p.wf() && p.pt().on(b)
                && d.wf() && d.pt().on(b) ==> r.wf() && r.pt().on(b) && r.pt() == sum.pt().plus(
                p.pt(),
            ).plus(group::times(d.pt(), k.val() as nat)),
{
    let r = sum.add_affine(p).add(&d.to_jacobian().mul(k));
    proof {
        assert forall|b: F|
            curve::smooth(b) && sum.wf() && #[trigger] sum.pt().on(b) && p.wf() && p.pt().on(b)
                && d.wf() && d.pt().on(b) implies r.wf() && r.pt().on(b) && r.pt()
            == sum.pt().plus(p.pt()).plus(group::times(d.pt(), k.val() as nat)) by {
            curve::lemma_plus_on(sum.pt(), p.pt(), b);
            group::lemma_times_on(d.pt(), k.val() as nat, b);
            group::lemma_doubled(d.pt(), k.val() as nat, b);
            curve::lemma_plus_on(
                sum.pt().plus(p.pt()),
                group::times(d.pt(), k.val() as nat),
                b,
            );
        }
    }
    r
}

/// The host-side assembly: blind the five sums with `r`, `s` and the verifying
/// key into `(π_A, π_B, π_C)`. Shared by every pipeline, so a pipeline
/// implements only the sums and the quotient.
pub fn assemble(zkey: &Zkey, msms: &Msms, r: &Fr, s: &Fr) -> (proof: Proof)
    ensures
        key_points(zkey.vk) && msms.on_curves() ==> proof == assembled(
            zkey.vk,
            msms.h.pt(),
            msms.a.pt(),
            msms.b1.pt(),
            msms.b2.pt(),
            msms.c.pt(),
            *r,
            *s,
        ),
{
    let vk = &zkey.vk;
    let delta_g1 = vk.delta_g1.to_jacobian();
    // A = α + Σ wᵢ·Aᵢ + r·δ
    let a = blinded(&msms.a, &vk.alpha_g1, &vk.delta_g1, r);
    // B₂ = β₂ + Σ wᵢ·B2ᵢ + s·δ₂ ;  B₁ = β₁ + Σ wᵢ·B1ᵢ + s·δ₁
    let b2 = blinded(&msms.b2, &vk.beta_g2, &vk.delta_g2, s);
    let b1 = blinded(&msms.b1, &vk.beta_g1, &vk.delta_g1, s);
    // C = Σ_{i > ℓ} wᵢ·Cᵢ + π_h + s·A + r·B₁ − (r·s)·δ
    let rs = r.mul(s);
    let sa = a.mul(s);
    let rb = b1.mul(r);
    let blind = delta_g1.mul(&rs);
    let c = msms.c.add(&msms.h).add(&sa).add(&rb).add(&blind.neg());
    proof {
        if key_points(*vk) && msms.on_curves() {
            let b = ec::g1_b_spec();
            ec::lemma_g1_smooth();
            ec::lemma_g2_smooth();
            group::lemma_doubled(a.pt(), s.val() as nat, b);
            group::lemma_doubled(b1.pt(), r.val() as nat, b);
            group::lemma_doubled(vk.delta_g1.pt(), rs.val() as nat, b);
        }
    }
    Proof { a: a.to_affine(), b: b2.to_affine(), c: c.to_affine() }
}

// ---- grouped coefficients ------------------------------------------------------------------

/// The A- and B-matrix coefficients regrouped by constraint, the layout a
/// scatter kernel consumes.
#[derive(Clone, Debug, PartialEq, Eq)]
pub struct CoefficientGroups {
    /// A-matrix coefficients in group order.
    pub a: Vec<GroupedCoeff>,
    /// Group start indices into `a` (one more than the number of groups).
    pub a_starts: Vec<u32>,
    /// The constraint index each A group writes to.
    pub a_constraint: Vec<u32>,
    /// B-matrix coefficients in group order.
    pub b: Vec<GroupedCoeff>,
    /// Group start indices into `b`.
    pub b_starts: Vec<u32>,
    /// The constraint index each B group writes to.
    pub b_constraint: Vec<u32>,
}

impl Default for CoefficientGroups {
    fn default() -> (r: Self)
        ensures
            r.a@.len() == 0 && r.a_starts@.len() == 0 && r.a_constraint@.len() == 0,
            r.b@.len() == 0 && r.b_starts@.len() == 0 && r.b_constraint@.len() == 0,
    {
        CoefficientGroups {
            a: Vec::new(),
            a_starts: Vec::new(),
            a_constraint: Vec::new(),
            b: Vec::new(),
            b_starts: Vec::new(),
            b_constraint: Vec::new(),
        }
    }
}

/// The coefficients of the A matrix (`first`) or the B matrix, in file order.
pub open spec fn picked(coefficients: Seq<Coefficient>, first: bool) -> Seq<Coefficient>
    decreases coefficients.len(),
{
    if coefficients.len() == 0 {
        Seq::empty()
    } else {
        let rest = picked(coefficients.drop_last(), first);
        let co = coefficients.last();
        if (co.matrix == 0) == first {
            rest.push(co)
        } else {
            rest
        }
    }
}

/// The scatter records of a coefficient list.
pub open spec fn records(list: Seq<Coefficient>) -> Seq<GroupedCoeff> {
    Seq::new(list.len(), |i: int| GroupedCoeff { signal: list[i].signal, value: list[i].value })
}

/// `starts` and `constraints` cut the list into its runs of equal constraint: run `g` is
/// `starts[g]..starts[g + 1]`, nonempty, all of constraint `constraints[g]`, and neighbouring
/// runs differ. There is one start more than there are runs: an empty list has the start `0`.
pub open spec fn runs(list: Seq<Coefficient>, starts: Seq<u32>, constraints: Seq<u32>) -> bool {
    if list.len() == 0 {
        constraints.len() == 0 && starts == seq![0u32]
    } else {
        &&& open_runs(list, starts.drop_last(), constraints)
        &&& starts.len() == constraints.len() + 1
        &&& starts.last() == list.len()
    }
}

/// The runs of a nonempty list, without the end of the last one.
pub open spec fn open_runs(
    list: Seq<Coefficient>,
    starts: Seq<u32>,
    constraints: Seq<u32>,
) -> bool {
    &&& constraints.len() > 0
    &&& starts.len() == constraints.len()
    &&& starts[0] == 0
    &&& forall|g: int, h: int|
        0 <= g < h < starts.len() ==> #[trigger] starts[g] < #[trigger] starts[h]
    &&& forall|g: int| 0 <= g < starts.len() ==> #[trigger] starts[g] < list.len()
    &&& forall|g: int, i: int|
        0 <= g < starts.len() && starts[g] <= i < run_end(list, starts, g) ==> (
        #[trigger] list[i]).constraint == #[trigger] constraints[g]
    &&& forall|g: int, h: int|
        0 <= g && h == g + 1 && h < constraints.len() ==> #[trigger] constraints[g]
            != #[trigger] constraints[h]
}

/// The end of run `g`.
pub open spec fn run_end(list: Seq<Coefficient>, starts: Seq<u32>, g: int) -> int {
    if g + 1 < starts.len() {
        starts[g + 1] as int
    } else {
        list.len() as int
    }
}

/// Append one coefficient to a list and its runs.
fn push_coefficient(
    list: &mut Vec<GroupedCoeff>,
    starts: &mut Vec<u32>,
    constraints: &mut Vec<u32>,
    co: &Coefficient,
    Ghost(before): Ghost<Seq<Coefficient>>,
)
    requires
        old(list)@ == records(before),
        old(list)@.len() < u32::MAX,
        before.len() == 0 ==> old(starts)@ == seq![0u32] && old(constraints)@.len() == 0,
        before.len() > 0 ==> open_runs(before, old(starts)@, old(constraints)@),
    ensures
        final(list)@ == records(before.push(*co)),
        open_runs(before.push(*co), final(starts)@, final(constraints)@),
{
    let ghost after = before.push(*co);
    let ghost (s0, c0) = (starts@, constraints@);
    let same = constraints.len() > 0 && constraints[constraints.len() - 1] == co.constraint;
    if !same {
        if constraints.len() > 0 {
            starts.push(list.len() as u32);
        }
        constraints.push(co.constraint);
    }
    list.push(GroupedCoeff { signal: co.signal, value: co.value });
    proof {
        assert(list@ =~= records(after));
        if before.len() == 0 {
            assert(starts@ =~= seq![0u32]);
        }
        assert forall|g: int| 0 <= g < starts@.len() implies #[trigger] starts@[g] < run_end(
            after,
            starts@,
            g,
        ) && run_end(after, starts@, g) <= after.len() by {
            if before.len() > 0 && g < s0.len() {
                assert(s0[g] < run_end(before, s0, g));
            }
        }
        assert forall|g: int, i: int|
            0 <= g < starts@.len() && starts@[g] <= i < run_end(after, starts@, g) implies (
        #[trigger] after[i]).constraint == #[trigger] constraints@[g] by {
            assert(starts@[g] < run_end(after, starts@, g));
            if i < before.len() {
                assert(before.len() > 0);
                assert(g < s0.len());
                assert(starts@[g] == s0[g]);
                assert(s0[g] < run_end(before, s0, g));
                assert(before[i].constraint == c0[g]);
            } else {
                assert(i == before.len());
                assert(g == starts@.len() - 1);
            }
        }
        assert forall|g: int, h: int|
            0 <= g && h == g + 1 && h < constraints@.len() implies #[trigger] constraints@[g]
            != #[trigger] constraints@[h] by {
            if h < c0.len() {
                assert(c0[g] != c0[h]);
            }
        }
    }
}

impl CoefficientGroups {
    /// The groups hold the key's coefficients, cut into runs.
    pub open spec fn of_key(self, zkey: Zkey) -> bool {
        &&& self.a@ == records(picked(zkey.coefficients@, true))
        &&& self.b@ == records(picked(zkey.coefficients@, false))
        &&& runs(picked(zkey.coefficients@, true), self.a_starts@, self.a_constraint@)
        &&& runs(picked(zkey.coefficients@, false), self.b_starts@, self.b_constraint@)
    }

    /// Group a zkey's coefficient list (already ascending by constraint).
    pub fn from_zkey(zkey: &Zkey) -> (out: Self)
        requires
            zkey.coefficients@.len() <= u32::MAX,
        ensures
            out.of_key(*zkey),
    {
        let mut a: Vec<GroupedCoeff> = Vec::new();
        let mut b: Vec<GroupedCoeff> = Vec::new();
        let mut a_starts: Vec<u32> = Vec::new();
        let mut b_starts: Vec<u32> = Vec::new();
        let mut a_constraint: Vec<u32> = Vec::new();
        let mut b_constraint: Vec<u32> = Vec::new();
        a_starts.push(0);
        b_starts.push(0);
        let ghost cs = zkey.coefficients@;
        let n = zkey.coefficients.len();
        let mut i: usize = 0;
        proof {
            assert(a@ =~= records(picked(cs.take(0), true)));
            assert(b@ =~= records(picked(cs.take(0), false)));
            assert(a_starts@ =~= seq![0u32]);
            assert(b_starts@ =~= seq![0u32]);
        }
        while i < n
            invariant
                i <= n,
                n == cs.len(),
                n <= u32::MAX,
                cs == zkey.coefficients@,
                a@ == records(picked(cs.take(i as int), true)),
                b@ == records(picked(cs.take(i as int), false)),
                a@.len() <= i,
                b@.len() <= i,
                a@.len() == 0 ==> a_starts@ == seq![0u32] && a_constraint@.len() == 0,
                b@.len() == 0 ==> b_starts@ == seq![0u32] && b_constraint@.len() == 0,
                a@.len() > 0 ==> open_runs(
                    picked(cs.take(i as int), true),
                    a_starts@,
                    a_constraint@,
                ),
                b@.len() > 0 ==> open_runs(
                    picked(cs.take(i as int), false),
                    b_starts@,
                    b_constraint@,
                ),
            decreases n - i,
        {
            let co = zkey.coefficients[i];
            proof {
                assert(cs.take(i + 1).drop_last() =~= cs.take(i as int));
            }
            if co.matrix == 0 {
                push_coefficient(
                    &mut a,
                    &mut a_starts,
                    &mut a_constraint,
                    &co,
                    Ghost(picked(cs.take(i as int), true)),
                );
            } else {
                push_coefficient(
                    &mut b,
                    &mut b_starts,
                    &mut b_constraint,
                    &co,
                    Ghost(picked(cs.take(i as int), false)),
                );
            }
            i = i + 1;
        }
        let ghost (sa, sb) = (a_starts@, b_starts@);
        if a.len() > 0 {
            a_starts.push(a.len() as u32);
        }
        if b.len() > 0 {
            b_starts.push(b.len() as u32);
        }
        proof {
            assert(cs.take(n as int) =~= cs);
            if a@.len() > 0 {
                assert(a_starts@.drop_last() =~= sa);
            }
            if b@.len() > 0 {
                assert(b_starts@.drop_last() =~= sb);
            }
        }
        CoefficientGroups { a, a_starts, a_constraint, b, b_starts, b_constraint }
    }
}

/// Picked coefficients are coefficients.
pub proof fn lemma_picked(coefficients: Seq<Coefficient>, first: bool, i: int) -> (j: int)
    requires
        0 <= i < picked(coefficients, first).len(),
    ensures
        0 <= j < coefficients.len(),
        picked(coefficients, first)[i] == coefficients[j],
    decreases coefficients.len(),
{
    let rest = picked(coefficients.drop_last(), first);
    if i < rest.len() {
        lemma_picked(coefficients.drop_last(), first, i)
    } else {
        coefficients.len() - 1
    }
}

/// A list picked from another is no longer.
pub proof fn lemma_picked_len(coefficients: Seq<Coefficient>, first: bool)
    ensures
        picked(coefficients, first).len() <= coefficients.len(),
    decreases coefficients.len(),
{
    if coefficients.len() > 0 {
        lemma_picked_len(coefficients.drop_last(), first);
    }
}

/// The constraints of a list ascend.
pub open spec fn ascends(list: Seq<Coefficient>) -> bool {
    forall|i: int, j: int|
        0 <= i <= j < list.len() ==> (#[trigger] list[i]).constraint <= (
        #[trigger] list[j]).constraint
}

/// The coefficients of one matrix ascend with all of them.
pub proof fn lemma_picked_ascends(coefficients: Seq<Coefficient>, first: bool)
    requires
        ascends(coefficients),
    ensures
        ascends(picked(coefficients, first)),
    decreases coefficients.len(),
{
    if coefficients.len() > 0 {
        let front = coefficients.drop_last();
        assert(ascends(front)) by {
            assert forall|i: int, j: int| 0 <= i <= j < front.len() implies (
            #[trigger] front[i]).constraint <= (#[trigger] front[j]).constraint by {
                assert(coefficients[i].constraint <= coefficients[j].constraint);
            }
        }
        lemma_picked_ascends(front, first);
        let list = picked(coefficients, first);
        let rest = picked(front, first);
        assert forall|i: int, j: int| 0 <= i <= j < list.len() implies (
        #[trigger] list[i]).constraint <= (#[trigger] list[j]).constraint by {
            if j < rest.len() {
                assert(rest[i].constraint <= rest[j].constraint);
            } else if i < rest.len() {
                let k = lemma_picked(front, first, i);
                assert(coefficients[k].constraint <= coefficients[coefficients.len() - 1].constraint);
            }
        }
    }
}

// ---- transform tables ----------------------------------------------------------------------

/// Tables the transforms need for a domain of size `n`.
#[derive(Clone, Debug)]
pub struct Tables {
    /// `omega^j` for `j < n/2`, `omega` the primitive `n`-th root.
    pub forward: Vec<Fr>,
    /// `omega^-j` for `j < n/2`.
    pub inverse: Vec<Fr>,
    /// `shift^i` for `i < n`, `shift` the `2n`-th root the coset uses.
    pub shift_powers: Vec<Fr>,
    /// `1/n`.
    pub n_inv: Fr,
    /// `log2(n)`.
    pub lg_n: u32,
}

/// The first `count` powers.
pub open spec fn powers_of(base: Fr, count: nat) -> Seq<Fr> {
    Seq::new(count, |i: int| ring::power(base, i as nat))
}

/// The first `count` powers.
fn powers(base: &Fr, count: usize) -> (out: Vec<Fr>)
    ensures
        out@ == powers_of(*base, count as nat),
{
    let mut out: Vec<Fr> = Vec::with_capacity(count);
    let mut p = <Fr as Field>::one();
    let mut i: usize = 0;
    while i < count
        invariant
            i <= count,
            p == ring::power(*base, i as nat),
            out@.len() == i,
            forall|j: int| 0 <= j < i ==> #[trigger] out@[j] == ring::power(*base, j as nat),
        decreases count - i,
    {
        out.push(p);
        p = p.mul(base);
        i = i + 1;
    }
    proof {
        assert(out@ =~= powers_of(*base, count as nat));
    }
    out
}

impl Tables {
    /// The tables belong to the domain of size `n`.
    pub open spec fn of_size(self, n: nat) -> bool {
        &&& self.forward@ == powers_of(ntt::omega(n), n / 2)
        &&& self.inverse@ == powers_of(ntt::omega(n).inv_spec(), n / 2)
        &&& self.shift_powers@ == powers_of(coset_shift(n), n)
        &&& self.n_inv == Fr::of(n as int).inv_spec()
        &&& self.lg_n == ntt::lg(n)
    }

    /// Build the tables for a power-of-two domain.
    pub fn new(n: usize) -> (r: Self)
        requires
            provable_domain(n as nat),
        ensures
            r.of_size(n as nat),
    {
        proof {
            ntt::lemma_domain(n as nat);
        }
        let lg_n = lg2(n);
        let omega = Fr::two_adic_root(lg_n);
        let omega_inv = match omega.inverse() {
            Some(x) => x,
            None => omega,
        };
        let shift = Fr::two_adic_root(lg_n + 1);
        let n_field = Fr::from_u64(n as u64);
        let n_inv = match n_field.inverse() {
            Some(x) => x,
            None => n_field,
        };
        Tables {
            forward: powers(&omega, n / 2),
            inverse: powers(&omega_inv, n / 2),
            shift_powers: powers(&shift, n),
            n_inv,
            lg_n,
        }
    }
}

// ---- counting sort -------------------------------------------------------------------------

/// The indices at which digit `d` stands, ascending.
pub open spec fn positions(digits: Seq<u32>, d: int) -> Seq<u32>
    decreases digits.len(),
{
    if digits.len() == 0 {
        Seq::empty()
    } else {
        let rest = positions(digits.drop_last(), d);
        if digits.last() == d {
            rest.push((digits.len() - 1) as u32)
        } else {
            rest
        }
    }
}

/// How many digits are from `1` to `d`.
pub open spec fn sorted_start(digits: Seq<u32>, d: int) -> int
    decreases d,
{
    if d <= 0 {
        0
    } else {
        sorted_start(digits, d - 1) + positions(digits, d).len()
    }
}

/// One more digit.
proof fn lemma_sorted_start_step(digits: Seq<u32>, d: int)
    requires
        digits.len() > 0,
    ensures
        sorted_start(digits, d) == sorted_start(digits.drop_last(), d) + (if 1 <= digits.last()
            <= d {
            1int
        } else {
            0int
        }),
    decreases d,
{
    if d > 0 {
        lemma_sorted_start_step(digits, d - 1);
    }
}

/// No more digits are counted than there are.
pub proof fn lemma_sorted_start_bound(digits: Seq<u32>, d: int)
    ensures
        0 <= sorted_start(digits, d) <= digits.len(),
    decreases digits.len(),
{
    if digits.len() > 0 {
        lemma_sorted_start_bound(digits.drop_last(), d);
        lemma_sorted_start_step(digits, d);
    } else {
        lemma_sorted_start_empty(digits, d);
    }
}

proof fn lemma_sorted_start_empty(digits: Seq<u32>, d: int)
    requires
        digits.len() == 0,
    ensures
        sorted_start(digits, d) == 0,
    decreases d,
{
    if d > 0 {
        lemma_sorted_start_empty(digits, d - 1);
    }
}

/// Starts ascend.
pub proof fn lemma_sorted_start_monotone(digits: Seq<u32>, c: int, d: int)
    requires
        c <= d,
    ensures
        sorted_start(digits, c) <= sorted_start(digits, d),
    decreases d - c,
{
    if c < d {
        lemma_sorted_start_monotone(digits, c, d - 1);
    }
}

/// Prefixes have prefixes of the positions.
proof fn lemma_positions_prefix(digits: Seq<u32>, n: int, d: int)
    requires
        0 <= n <= digits.len(),
    ensures
        positions(digits.take(n), d).len() <= positions(digits, d).len(),
    decreases digits.len() - n,
{
    if n < digits.len() {
        lemma_positions_prefix(digits, n + 1, d);
        assert(digits.take(n + 1).drop_last() =~= digits.take(n));
    } else {
        assert(digits.take(n) =~= digits);
    }
}

/// `order` lists the positions of every digit from `1` to `buckets`, one digit after the other,
/// and `starts` says where each digit's run begins and ends.
pub open spec fn sorted_by_digit(
    digits: Seq<u32>,
    buckets: int,
    order: Seq<u32>,
    starts: Seq<u32>,
) -> bool {
    &&& starts.len() == buckets + 1
    &&& forall|b: int| 0 <= b <= buckets ==> #[trigger] starts[b] == sorted_start(digits, b)
    &&& order.len() == sorted_start(digits, buckets)
    &&& forall|d: int|
        1 <= d <= buckets ==> order.subrange(sorted_start(digits, d - 1), sorted_start(digits, d))
            == #[trigger] positions(digits, d)
}

/// A vector of equal numbers.
pub fn repeated(x: u32, n: usize) -> (r: Vec<u32>)
    ensures
        r@.len() == n,
        forall|i: int| 0 <= i < n ==> #[trigger] r@[i] == x,
{
    let mut r: Vec<u32> = Vec::with_capacity(n);
    let mut i: usize = 0;
    while i < n
        invariant
            i <= n,
            r@.len() == i,
            forall|j: int| 0 <= j < i ==> #[trigger] r@[j] == x,
        decreases n - i,
    {
        r.push(x);
        i = i + 1;
    }
    r
}

/// How often each digit occurs; zeros are not counted.
fn count_digits(digits: &[u32], buckets: usize) -> (counts: Vec<u32>)
    requires
        digits@.len() <= u32::MAX,
        buckets < usize::MAX,
        forall|i: int| 0 <= i < digits@.len() ==> #[trigger] digits@[i] <= buckets,
    ensures
        counts@.len() == buckets + 1,
        forall|d: int| 1 <= d <= buckets ==> #[trigger] counts@[d] == positions(digits@, d).len(),
{
    let mut counts = repeated(0, buckets + 1);
    let mut i: usize = 0;
    while i < digits.len()
        invariant
            i <= digits@.len(),
            digits@.len() <= u32::MAX,
            forall|i: int| 0 <= i < digits@.len() ==> #[trigger] digits@[i] <= buckets,
            counts@.len() == buckets + 1,
            forall|d: int|
                1 <= d <= buckets ==> #[trigger] counts@[d] == positions(
                    digits@.take(i as int),
                    d,
                ).len(),
        decreases digits@.len() - i,
    {
        let d = digits[i];
        proof {
            assert(digits@.take(i + 1).drop_last() =~= digits@.take(i as int));
            if d != 0 {
                lemma_sorted_start_bound(digits@.take(i as int), d as int);
                lemma_sorted_start_bound(digits@.take(i as int), d - 1);
            }
        }
        if d != 0 {
            let c = counts[d as usize] + 1;
            counts[d as usize] = c;
        }
        i = i + 1;
    }
    proof {
        assert(digits@.take(i as int) =~= digits@);
    }
    counts
}

/// Counting-sort point indices by digit so each bucket is a contiguous run.
/// Returns `(order, starts)` with `starts.len() == buckets + 1`; digit 0
/// contributes nothing.
pub fn counting_sort_by_digit(digits: &[u32], buckets: usize) -> (r: (Vec<u32>, Vec<u32>))
    requires
        digits@.len() <= u32::MAX,
        buckets < usize::MAX,
        forall|i: int| 0 <= i < digits@.len() ==> #[trigger] digits@[i] <= buckets,
    ensures
        sorted_by_digit(digits@, buckets as int, r.0@, r.1@),
{
    let counts = count_digits(digits, buckets);
    let mut starts = repeated(0, buckets + 1);
    let mut d: usize = 1;
    while d <= buckets
        invariant
            1 <= d <= buckets + 1,
            buckets < usize::MAX,
            digits@.len() <= u32::MAX,
            counts@.len() == buckets + 1,
            starts@.len() == buckets + 1,
            forall|d: int|
                1 <= d <= buckets ==> #[trigger] counts@[d] == positions(digits@, d).len(),
            forall|b: int| 0 <= b < d ==> #[trigger] starts@[b] == sorted_start(digits@, b),
        decreases buckets + 1 - d,
    {
        proof {
            lemma_sorted_start_bound(digits@, d as int);
            assert(counts@[d as int] == positions(digits@, d as int).len());
        }
        let s = starts[d - 1] + counts[d];
        starts[d] = s;
        d = d + 1;
    }
    let mut fill = vstd::slice::slice_to_vec(&starts);
    let total = starts[buckets] as usize;
    let mut order = repeated(0, total);
    let mut i: usize = 0;
    while i < digits.len()
        invariant
            i <= digits@.len(),
            buckets < usize::MAX,
            digits@.len() <= u32::MAX,
            forall|i: int| 0 <= i < digits@.len() ==> #[trigger] digits@[i] <= buckets,
            starts@.len() == buckets + 1,
            fill@.len() == buckets + 1,
            forall|b: int| 0 <= b <= buckets ==> #[trigger] starts@[b] == sorted_start(digits@, b),
            order@.len() == sorted_start(digits@, buckets as int),
            forall|b: int|
                0 <= b < buckets ==> #[trigger] fill@[b] == sorted_start(digits@, b) + positions(
                    digits@.take(i as int),
                    b + 1,
                ).len(),
            forall|d: int, j: int|
                1 <= d <= buckets && 0 <= j < positions(digits@.take(i as int), d).len()
                    ==> order@[sorted_start(digits@, d - 1) + j] == #[trigger] positions(
                    digits@.take(i as int),
                    d,
                )[j],
        decreases digits@.len() - i,
    {
        let d = digits[i];
        let ghost before = digits@.take(i as int);
        let ghost after = digits@.take(i + 1);
        proof {
            assert(after.drop_last() =~= before);
            assert(after.last() == d);
        }
        if d != 0 {
            let slot = fill[(d - 1) as usize];
            let ghost o = order@;
            proof {
                lemma_slots(digits@, i as int, d as int, buckets as int);
            }
            order[slot as usize] = i as u32;
            fill[(d - 1) as usize] = slot + 1;
            proof {
                assert forall|c: int, j: int|
                    1 <= c <= buckets && 0 <= j < positions(after, c).len() implies order@[
                sorted_start(digits@, c - 1) + j] == #[trigger] positions(after, c)[j] by {
                    lemma_positions_prefix(digits@, i + 1, c);
                    lemma_sorted_start_bound(digits@, c - 1);
                    lemma_sorted_start_monotone(digits@, c, buckets as int);
                    if c == d {
                        if j < positions(before, c).len() {
                            assert(positions(before, c)[j] == positions(after, c)[j]);
                        }
                    } else {
                        assert(positions(before, c) == positions(after, c));
                        assert(positions(before, c)[j] == positions(after, c)[j]);
                        if c < d {
                            lemma_sorted_start_monotone(digits@, c, d - 1);
                        } else {
                            lemma_sorted_start_monotone(digits@, d as int, c - 1);
                        }
                    }
                }
            }
        } else {
            proof {
                assert forall|c: int, j: int|
                    1 <= c <= buckets && 0 <= j < positions(after, c).len() implies order@[
                sorted_start(digits@, c - 1) + j] == #[trigger] positions(after, c)[j] by {
                    assert(positions(before, c) == positions(after, c));
                    assert(positions(before, c)[j] == positions(after, c)[j]);
                }
            }
        }
        i = i + 1;
    }
    proof {
        assert(digits@.take(i as int) =~= digits@);
        assert forall|d: int| 1 <= d <= buckets implies order@.subrange(
            sorted_start(digits@, d - 1),
            sorted_start(digits@, d),
        ) == #[trigger] positions(digits@, d) by {
            lemma_sorted_start_bound(digits@, d - 1);
            lemma_sorted_start_monotone(digits@, d, buckets as int);
            assert(order@.subrange(sorted_start(digits@, d - 1), sorted_start(digits@, d))
                =~= positions(digits@, d));
        }
    }
    (order, starts)
}

/// The next slot of a digit's run is inside the run.
proof fn lemma_slots(digits: Seq<u32>, i: int, d: int, buckets: int)
    requires
        0 <= i < digits.len(),
        digits[i] == d,
        1 <= d <= buckets,
    ensures
        0 <= sorted_start(digits, d - 1),
        sorted_start(digits, d - 1) + positions(digits.take(i), d).len() < sorted_start(digits, d),
        sorted_start(digits, d) <= sorted_start(digits, buckets),
        sorted_start(digits, buckets) <= digits.len(),
        positions(digits.take(i + 1), d) == positions(digits.take(i), d).push(i as u32),
{
    lemma_positions_prefix(digits, i + 1, d);
    assert(digits.take(i + 1).drop_last() =~= digits.take(i));
    lemma_sorted_start_bound(digits, d - 1);
    lemma_sorted_start_monotone(digits, d, buckets);
    lemma_sorted_start_bound(digits, buckets);
}

/// `Σ_d d·B_d` from the bucket sums by the running-sum reduction.
pub fn reduce_buckets<F: Field>(sums: &[Jacobian<F>]) -> (total: Jacobian<F>)
    ensures
        forall|b: F| #[trigger]
            msm::jacobians_on_curve(sums@, b) ==> total.wf() && total.pt() == group::counted(
                msm::jacobian_pts(sums@),
            ),
{
    let mut running = Jacobian::<F>::infinity();
    let mut total = Jacobian::<F>::infinity();
    let ghost s = msm::jacobian_pts(sums@);
    let mut j: usize = sums.len();
    proof {
        assert(s.subrange(j as int, s.len() as int) =~= Seq::empty());
        group::lemma_counted_empty(s.subrange(j as int, s.len() as int));
    }
    while j > 0
        invariant
            j <= sums@.len(),
            s == msm::jacobian_pts(sums@),
            forall|b: F| #[trigger]
                msm::jacobians_on_curve(sums@, b) ==> running.wf() && total.wf() && running.pt()
                    == group::sum(s.subrange(j as int, s.len() as int)) && total.pt()
                    == group::counted(s.subrange(j as int, s.len() as int)),
        decreases j,
    {
        let ghost u = s.subrange(j as int, s.len() as int);
        j = j - 1;
        running = running.add(&sums[j]);
        total = total.add(&running);
        proof {
            let v = s.subrange(j as int, s.len() as int);
            assert(v =~= seq![s[j as int]] + u);
            assert forall|b: F| #[trigger] msm::jacobians_on_curve(sums@, b) implies running.wf()
                && total.wf() && running.pt() == group::sum(v) && total.pt() == group::counted(
                v,
            ) by {
                assert(sums@[j as int].wf());
                assert forall|i: int| 0 <= i < u.len() implies (#[trigger] u[i]).on(b) by {
                    assert(sums@[j + 1 + i].pt().on(b));
                }
                group::lemma_counted_below(s[j as int], u, b);
            }
        }
    }
    proof {
        assert(s.subrange(0, s.len() as int) =~= s);
    }
    total
}

/// Combine per-window sums by Horner's rule (`window_sums[0]` is the lowest window).
pub fn horner<F: Field>(window_sums: &[Jacobian<F>], w: u32) -> (result: Jacobian<F>)
    ensures
        forall|b: F| #[trigger]
            msm::jacobians_on_curve(window_sums@, b) ==> result.wf() && result.pt()
                == group::windowed(msm::jacobian_pts(window_sums@), w as nat),
{
    let mut result = Jacobian::<F>::infinity();
    let ghost s = msm::jacobian_pts(window_sums@);
    let mut j: usize = window_sums.len();
    proof {
        assert(s.subrange(j as int, s.len() as int) =~= Seq::empty());
        assert(group::windowed(Seq::<Pt<F>>::empty(), w as nat) == Pt::<F>::Infinity) by {
            group::lemma_sum_identities(
                Seq::<Pt<F>>::new(
                    0,
                    |i: int|
                        group::times(
                            Seq::<Pt<F>>::empty()[i],
                            group::window_weights(0, w as nat)[i],
                        ),
                ),
            );
        }
    }
    while j > 0
        invariant
            j <= window_sums@.len(),
            s == msm::jacobian_pts(window_sums@),
            forall|b: F| #[trigger]
                msm::jacobians_on_curve(window_sums@, b) ==> result.wf() && result.pt()
                    == group::windowed(s.subrange(j as int, s.len() as int), w as nat),
        decreases j,
    {
        let ghost u = s.subrange(j as int, s.len() as int);
        j = j - 1;
        let ghost before = result;
        let doubled = msm::double_times(&result, w);
        result = doubled.add(&window_sums[j]);
        proof {
            let v = s.subrange(j as int, s.len() as int);
            assert(v =~= seq![s[j as int]] + u);
            assert forall|b: F| #[trigger] msm::jacobians_on_curve(window_sums@, b) implies result.wf()
                && result.pt() == group::windowed(v, w as nat) by {
                assert(window_sums@[j as int].wf());
                assert forall|i: int| 0 <= i < u.len() implies (#[trigger] u[i]).on(b) by {
                    assert(window_sums@[j + 1 + i].pt().on(b));
                }
                group::lemma_windowed_below(s[j as int], u, w as nat, b);
                assert(before.pt().on(b));
            }
        }
    }
    proof {
        assert(s.subrange(0, s.len() as int) =~= s);
    }
    result
}

// ---- laws ----------------------------------------------------------------------------------

/// `A·B − C` vanishes on the domain, so the vanishing polynomial divides it: the polynomials that
/// take the values `a`, `b` and `a∘b` on `H` satisfy `A·B = C` there.
pub proof fn lemma_quotient_vanishes(a: Seq<Fr>, b: Seq<Fr>, k: int)
    requires
        ntt::domain(a.len()),
        a.len() == b.len(),
        dft::all_wf(a),
        dft::all_wf(b),
        0 <= k < a.len(),
    ensures
        ({
            let x = ring::power(ntt::omega(a.len()), k as nat);
            dft::eval(ntt::interpolated(a), x) * dft::eval(ntt::interpolated(b), x) == dft::eval(
                ntt::interpolated(products(a, b)),
                x,
            )
        }),
{
    let w = ntt::omega(a.len());
    lemma_products_wf(a, b);
    ntt::lemma_transforms_invert(a);
    ntt::lemma_transforms_invert(b);
    ntt::lemma_transforms_invert(products(a, b));
    ntt::lemma_interpolated_wf(a);
    ntt::lemma_interpolated_wf(b);
    ntt::lemma_interpolated_wf(products(a, b));
    assert(dft::dft(ntt::interpolated(a), w)[k] == a[k]);
    assert(dft::dft(ntt::interpolated(b), w)[k] == b[k]);
    assert(dft::dft(ntt::interpolated(products(a, b)), w)[k] == products(a, b)[k]);
}

/// The vanishing polynomial `x^n − 1` is constant on the coset: every point `g·ω^k` of it has
/// `x^n = −1`.
pub proof fn lemma_vanishing_constant(n: nat, k: nat)
    requires
        provable_domain(n),
    ensures
        ring::power(coset_shift(n) * ring::power(ntt::omega(n), k), n) == -Fr::one_spec(),
{
    broadcast use {ring::group_wf, ring::lemma_wf_power};

    let one = Fr::one_spec();
    let e = ntt::lg(n);
    let w = ntt::omega(n);
    field::lemma_two_adic_root(e);
    field::lemma_two_adic_root(e + 1);
    let g = coset_shift(n);
    ring::lemma_power_distributes(g, ring::power(w, k), n);
    ring::lemma_power_multiplies(w, k, n);
    ring::lemma_power_multiplies(w, n, k);
    assert(k * n == n * k) by (nonlinear_arith);
    ring::lemma_power_one::<Fr>(k);
    assert(ring::power(ring::power(w, k), n) == one);
    assert(ring::power(g, n) == -one);
    Fr::multiplicative(-one, one, one);
}

} // verus!
