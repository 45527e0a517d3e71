#![allow(dead_code, unused_imports)]

use ark_ec::{AffineRepr as _, CurveGroup as _, PrimeGroup as _};
use ark_ff::{BigInteger as _, PrimeField as _};
use groth16_prover::ec::{G1Affine, G1Jacobian, G2Affine, G2Jacobian};
use groth16_prover::field::{Field, Fp, Fr};
use groth16_prover::fp2::Fp2;
use ark_ff::{AdditiveGroup as _, FftField as _, Field as _};
use groth16_prover::artifacts::{
    is_identity, parse_fuzzed_msm_results, parse_preprocessed_coeffs, write_preprocessed_coeffs,
    ArtifactError, FRES_SIZE,
};
use groth16_prover::bytes::limbs_at;
use groth16_prover::ec::{g1_b, g2_b};
use groth16_prover::json::{proof_json, public_json, verifying_key_json};
use groth16_prover::prover::{
    prove, quotient_on_coset, scatter, CoefficientGroups, Proof, ProveError,
};
use groth16_prover::text::decimal;
use groth16_prover::zkey::{parse_wtns, WtnsError, Zkey, ZkeyError};

fn fp_from_ark(v: ark_bn254::Fq) -> Fp {
    Fp::from_le_bytes(&v.into_bigint().to_bytes_le().try_into().unwrap()).unwrap()
}

fn fp_to_ark(v: &Fp) -> ark_bn254::Fq {
    ark_bn254::Fq::from_le_bytes_mod_order(&v.to_le_bytes())
}

fn fp2_from_ark(v: ark_bn254::Fq2) -> Fp2 {
    Fp2::new(fp_from_ark(v.c0), fp_from_ark(v.c1))
}

fn fp2_to_ark(v: &Fp2) -> ark_bn254::Fq2 {
    ark_bn254::Fq2::new(fp_to_ark(&v.c0), fp_to_ark(&v.c1))
}

fn fr_from_ark(v: ark_bn254::Fr) -> Fr {
    Fr::from_le_bytes(&v.into_bigint().to_bytes_le().try_into().unwrap()).unwrap()
}

fn fr_to_ark(v: &Fr) -> ark_bn254::Fr {
    ark_bn254::Fr::from_le_bytes_mod_order(&v.to_le_bytes())
}

fn g1_from_ark(p: ark_bn254::G1Affine) -> G1Affine {
    match p.xy() {
        None => G1Affine::infinity(),
        Some((x, y)) => G1Affine::new(fp_from_ark(x), fp_from_ark(y)),
    }
}

fn g1_to_ark(p: &G1Affine) -> ark_bn254::G1Affine {
    if p.infinity {
        ark_bn254::G1Affine::identity()
    } else {
        ark_bn254::G1Affine::new_unchecked(fp_to_ark(&p.x), fp_to_ark(&p.y))
    }
}

fn g2_from_ark(p: ark_bn254::G2Affine) -> G2Affine {
    match p.xy() {
        None => G2Affine::infinity(),
        Some((x, y)) => G2Affine::new(fp2_from_ark(x), fp2_from_ark(y)),
    }
}

fn g2_to_ark(p: &G2Affine) -> ark_bn254::G2Affine {
    if p.infinity {
        ark_bn254::G2Affine::identity()
    } else {
        ark_bn254::G2Affine::new_unchecked(fp2_to_ark(&p.x), fp2_to_ark(&p.y))
    }
}

fn g1_proj_to_ark(p: &G1Jacobian) -> ark_bn254::G1Affine {
    g1_to_ark(&p.to_affine())
}

fn g2_proj_to_ark(p: &G2Jacobian) -> ark_bn254::G2Affine {
    g2_to_ark(&p.to_affine())
}

/// Deterministic scalars.
struct Scalars(u64);

impl Scalars {
    fn next_u64(&mut self) -> u64 {
        let mut x = self.0;
        x ^= x << 13;
        x ^= x >> 7;
        x ^= x << 17;
        self.0 = x;
        x
    }

    fn next_fr(&mut self) -> ark_bn254::Fr {
        let mut b = [0u8; 32];
        for chunk in b.chunks_mut(8) {
            chunk.copy_from_slice(&self.next_u64().to_le_bytes());
        }
        ark_bn254::Fr::from_le_bytes_mod_order(&b)
    }
}

fn raw(l: [u64; 4]) -> Vec<u8> {
    l.iter().flat_map(|x| x.to_le_bytes()).collect()
}

fn fq_bytes(x: ark_bn254::Fq) -> Vec<u8> {
    raw(x.0 .0)
}

fn g1_bytes(p: ark_bn254::G1Projective) -> Vec<u8> {
    match p.into_affine().xy() {
        None => vec![0; 64],
        Some((x, y)) => [fq_bytes(x), fq_bytes(y)].concat(),
    }
}

fn g2_bytes(p: ark_bn254::G2Projective) -> Vec<u8> {
    match p.into_affine().xy() {
        None => vec![0; 128],
        Some((x, y)) => {
            [fq_bytes(x.c0), fq_bytes(x.c1), fq_bytes(y.c0), fq_bytes(y.c1)].concat()
        }
    }
}

fn section(id: u32, payload: Vec<u8>) -> Vec<u8> {
    let mut s = id.to_le_bytes().to_vec();
    s.extend((payload.len() as u64).to_le_bytes());
    s.extend(payload);
    s
}

/// The key file of the circuit `c = a·b` (signals `1, c, a, b`, one public), with fixed secrets.
fn fixture_zkey() -> Vec<u8> {
    type F = ark_bn254::Fr;
    let n = 4u64;
    let (tau, alpha, beta) = (F::from(123456789u64), F::from(1001u64), F::from(2003u64));
    let (gamma, delta) = (F::from(3007u64), F::from(4099u64));
    let (g1, g2) = (ark_bn254::G1Projective::generator(), ark_bn254::G2Projective::generator());
    let omega = F::get_root_of_unity(n).unwrap();
    let shift = F::get_root_of_unity(2 * n).unwrap();
    // the Lagrange polynomials of a coset of the domain, at tau
    let lagrange = |g: F, i: u64| {
        let x = g * omega.pow([i]);
        let gn = g.pow([n]);
        x * (tau.pow([n]) - gn) / (F::from(n) * gn * (tau - x))
    };
    let l = |i: u64| lagrange(F::ONE, i);
    let z = tau.pow([n]) - F::ONE;
    let a = [l(1), l(2), -l(0), F::ZERO];
    let b = [F::ZERO, F::ZERO, F::ZERO, l(0)];
    let c = [F::ZERO, -l(0), F::ZERO, F::ZERO];
    let combined = |j: usize| beta * a[j] + alpha * b[j] + c[j];
    let mut header = 32u32.to_le_bytes().to_vec();
    header.extend(raw(ark_bn254::Fq::MODULUS.0));
    header.extend(32u32.to_le_bytes());
    header.extend(raw(F::MODULUS.0));
    for v in [4u32, 1, 4] {
        header.extend(v.to_le_bytes());
    }
    header.extend(g1_bytes(g1 * alpha));
    header.extend(g1_bytes(g1 * beta));
    header.extend(g2_bytes(g2 * beta));
    header.extend(g2_bytes(g2 * gamma));
    header.extend(g1_bytes(g1 * delta));
    header.extend(g2_bytes(g2 * delta));
    let r = F::from(2u64).pow([256u64]);
    let mut coefficients = 4u32.to_le_bytes().to_vec();
    for (m, c, s, v) in [
        (0u32, 0u32, 2u32, -F::ONE),
        (1, 0, 3, F::ONE),
        (0, 1, 0, F::ONE),
        (0, 2, 1, F::ONE),
    ] {
        coefficients.extend(m.to_le_bytes());
        coefficients.extend(c.to_le_bytes());
        coefficients.extend(s.to_le_bytes());
        coefficients.extend(raw((v * r).0 .0));
    }
    let mut file = b"zkey".to_vec();
    file.extend(1u32.to_le_bytes());
    file.extend(10u32.to_le_bytes());
    file.extend(section(1, 1u32.to_le_bytes().to_vec()));
    file.extend(section(2, header));
    file.extend(section(3, (0..2).flat_map(|j| g1_bytes(g1 * (combined(j) / gamma))).collect()));
    file.extend(section(4, coefficients));
    file.extend(section(5, a.iter().flat_map(|v| g1_bytes(g1 * v)).collect()));
    file.extend(section(6, b.iter().flat_map(|v| g1_bytes(g1 * v)).collect()));
    file.extend(section(7, b.iter().flat_map(|v| g2_bytes(g2 * v)).collect()));
    file.extend(section(8, (2..4).flat_map(|j| g1_bytes(g1 * (combined(j) / delta))).collect()));
    let half = -z / (F::from(2u64) * delta);
    file.extend(section(
        9,
        (0..n).flat_map(|i| g1_bytes(g1 * (lagrange(shift, i) * half))).collect(),
    ));
    file.extend(section(10, vec![0; 4]));
    file
}

/// The witness file with `a = 3`, `b = 11`.
fn fixture_wtns() -> Vec<u8> {
    let mut header = 32u32.to_le_bytes().to_vec();
    header.extend(raw(ark_bn254::Fr::MODULUS.0));
    header.extend(4u32.to_le_bytes());
    let values = [1u64, 33, 3, 11].iter().flat_map(|v| raw([*v, 0, 0, 0])).collect();
    let mut file = b"wtns".to_vec();
    file.extend(2u32.to_le_bytes());
    file.extend(2u32.to_le_bytes());
    file.extend(section(1, header));
    file.extend(section(2, values));
    file
}

fn verify(z: &Zkey, p: &Proof, public: &[Fr]) -> bool {
    let vk = ark_groth16::VerifyingKey::<ark_bn254::Bn254> {
        alpha_g1: g1_to_ark(&z.vk.alpha_g1),
        beta_g2: g2_to_ark(&z.vk.beta_g2),
        gamma_g2: g2_to_ark(&z.vk.gamma_g2),
        delta_g2: g2_to_ark(&z.vk.delta_g2),
        gamma_abc_g1: z.ic.iter().map(g1_to_ark).collect(),
    };
    let pvk = ark_groth16::prepare_verifying_key(&vk);
    let proof = ark_groth16::Proof {
        a: g1_to_ark(&p.a),
        b: g2_to_ark(&p.b),
        c: g1_to_ark(&p.c),
    };
    let inputs: Vec<ark_bn254::Fr> = public.iter().map(fr_to_ark).collect();
    ark_groth16::Groth16::<ark_bn254::Bn254>::verify_proof(&pvk, &proof, &inputs).unwrap()
}

#[test]
fn fixture_parses_with_the_measured_layout() {
    let z = Zkey::parse(&fixture_zkey()).unwrap();
    assert_eq!((z.num_vars, z.num_public, z.domain_size), (4, 1, 4));
    assert_eq!(z.ic.len(), 2);
    assert_eq!((z.a.len(), z.b1.len(), z.b2.len(), z.c.len(), z.h.len()), (4, 4, 4, 2, 4));
    assert_eq!(z.coefficients.len(), 4);
    // (m, c, s, value): value in {-1, 1}.
    let one = <Fr as Field>::one();
    let expected = [(0, 0, 2, Field::neg(&one)), (1, 0, 3, one), (0, 1, 0, one), (0, 2, 1, one)];
    for (co, (m, c, s, v)) in z.coefficients.iter().zip(expected) {
        assert_eq!((co.matrix, co.constraint, co.signal, co.value), (m, c, s, v));
    }
    assert!(z.vk.alpha_g1.is_on_curve(&g1_b()));
    assert!(z.vk.beta_g2.is_on_curve(&g2_b()));
    assert!(!z.vk.alpha_g1.infinity);
}

#[test]
fn fixture_witness_is_canonical_and_matches_the_circuit() {
    let w = parse_wtns(&fixture_wtns()).unwrap();
    let v: Vec<u64> = w.iter().map(|x| x.to_canonical()[0]).collect();
    assert_eq!(v, [1, 33, 3, 11], "1, c = a·b, a, b");
    assert_eq!(w[1], Field::mul(&w[2], &w[3]));
}

/// Byte offset of a section's payload.
fn find_section(bytes: &[u8], wanted: u32) -> usize {
    let mut pos = 12;
    loop {
        let id = u32::from_le_bytes(bytes[pos..pos + 4].try_into().unwrap());
        let size = u64::from_le_bytes(bytes[pos + 4..pos + 12].try_into().unwrap()) as usize;
        pos += 12;
        if id == wanted {
            return pos;
        }
        pos += size;
    }
}

#[test]
fn malformations_are_distinct_errors() {
    let (zkey, wtns) = (fixture_zkey(), fixture_wtns());
    assert_eq!(Zkey::parse(b"zke"), Err(ZkeyError::Truncated { at: 0 }));
    let mut bad = zkey.clone();
    bad[0] = b'x';
    assert_eq!(Zkey::parse(&bad), Err(ZkeyError::Magic));
    let mut bad = zkey.clone();
    bad[8] = 9; // section count
    assert_eq!(Zkey::parse(&bad), Err(ZkeyError::SectionCount(9)));
    let mut bad = zkey.clone();
    bad[12] = 2; // first section id
    assert_eq!(Zkey::parse(&bad), Err(ZkeyError::SectionOrder { expected: 1, found: 2 }));
    let mut bad = zkey.clone();
    bad[24] = 2; // protocol id (section 1 payload starts at 12 + 12)
    assert_eq!(Zkey::parse(&bad), Err(ZkeyError::Protocol(2)));
    let truncated = &zkey[..zkey.len() - 100];
    assert!(matches!(Zkey::parse(truncated), Err(ZkeyError::Truncated { .. })));
    // Flip a byte of the first A-query point: it leaves the curve.
    let mut bad = zkey.clone();
    let a_offset = find_section(&zkey, 5);
    bad[a_offset + 3] ^= 0x01;
    assert_eq!(Zkey::parse(&bad), Err(ZkeyError::PointOffCurve { section: 5, index: 0 }));
    let mut bad_w = wtns.clone();
    bad_w[0] = b'x';
    assert_eq!(parse_wtns(&bad_w), Err(WtnsError::Magic));
    assert_eq!(parse_wtns(&wtns[..40]), Err(WtnsError::Truncated));
}

#[test]
fn unreduced_coordinates_and_unordered_coefficients_are_errors() {
    let zkey = fixture_zkey();
    // the same residue, not reduced: x + q of the first A-query point
    let mut bad = zkey.clone();
    let at = find_section(&zkey, 5);
    let mut carry = 0u128;
    for (i, q) in ark_bn254::Fq::MODULUS.0.iter().enumerate() {
        let here = at + 8 * i..at + 8 * i + 8;
        let x = u64::from_le_bytes(bad[here.clone()].try_into().unwrap());
        let sum = x as u128 + *q as u128 + carry;
        bad[here].copy_from_slice(&(sum as u64).to_le_bytes());
        carry = sum >> 64;
    }
    assert_eq!(Zkey::parse(&bad), Err(ZkeyError::PointOffCurve { section: 5, index: 0 }));
    // the constraints 3, 0, 1, 2
    let mut bad = zkey.clone();
    let at = find_section(&zkey, 4) + 4 + 4;
    bad[at..at + 4].copy_from_slice(&3u32.to_le_bytes());
    assert_eq!(Zkey::parse(&bad), Err(ZkeyError::Inconsistent("coefficient order")));
}

#[test]
fn an_empty_matrix_has_the_starts_of_no_group() {
    let mut z = Zkey::parse(&fixture_zkey()).unwrap();
    z.coefficients.retain(|c| c.matrix == 0);
    let groups = CoefficientGroups::from_zkey(&z);
    assert_eq!(groups.a_starts, [0, 1, 2, 3]);
    assert_eq!(groups.b_starts, [0]);
    assert!(groups.b.is_empty() && groups.b_constraint.is_empty());
    let bytes = write_preprocessed_coeffs(&groups);
    let parsed = parse_preprocessed_coeffs(&bytes, z.num_vars, z.domain_size).unwrap();
    assert_eq!(parsed.b_starts, [0]);
    assert_eq!(parsed.a_starts, groups.a_starts);
}

#[test]
fn starts_that_do_not_cover_the_coefficients_are_errors() {
    let z = Zkey::parse(&fixture_zkey()).unwrap();
    let bytes = write_preprocessed_coeffs(&CoefficientGroups::from_zkey(&z));
    // a header of 32 bytes, three A records and one B record, then the starts 0 1 2 3 and 0 1
    assert_eq!(bytes.len(), 32 + 4 * 48 + 4 * 4 + 2 * 4);
    let with = |at: usize, word: u32| {
        let mut bad = bytes.clone();
        bad[at..at + 4].copy_from_slice(&word.to_le_bytes());
        parse_preprocessed_coeffs(&bad, 4, 4)
    };
    let starts = 32 + 4 * 48;
    assert!(with(starts, 0).is_ok());
    // the first is not zero
    assert!(matches!(with(starts, 1), Err(ArtifactError::Record(_))));
    assert!(matches!(with(starts + 16, 1), Err(ArtifactError::Record(_))));
    // the last is not the number of coefficients
    assert!(matches!(with(starts + 20, 0), Err(ArtifactError::Record(_))));
    assert!(matches!(with(starts + 12, 2), Err(ArtifactError::Record(_))));
    // the groups' constraints do not ascend: 0, 1, 2 with 2 in the place of 0
    assert!(matches!(with(32 + 4, 2), Err(ArtifactError::Record(_))));
    // no start at all, with the file as much shorter
    let mut bad = bytes[..starts + 16].to_vec();
    let at = bad[..32].chunks(8).rposition(|w| w == 2u64.to_le_bytes()).unwrap() * 8;
    bad[at..at + 8].copy_from_slice(&0u64.to_le_bytes());
    assert_eq!(parse_preprocessed_coeffs(&bad, 4, 4), Err(ArtifactError::Record(0)));
}

#[test]
fn preprocessed_coeffs_round_trip_the_fixture_zkey() {
    let z = Zkey::parse(&fixture_zkey()).unwrap();
    let groups = CoefficientGroups::from_zkey(&z);
    let bytes = write_preprocessed_coeffs(&groups);
    assert_eq!(bytes.len() % 4, 0);
    let parsed = parse_preprocessed_coeffs(&bytes, z.num_vars, z.domain_size).unwrap();
    assert_eq!(parsed.a, groups.a);
    assert_eq!(parsed.b, groups.b);
    assert_eq!(parsed.a_starts, groups.a_starts);
    assert_eq!(parsed.b_starts, groups.b_starts);
    assert_eq!(parsed.a_constraint, groups.a_constraint);
    assert_eq!(parsed.b_constraint, groups.b_constraint);
    // The stored value is v·R², as in the zkey.
    let first_value_raw = limbs_at(&bytes, 32 + 16);
    let r2 = Fr::from_montgomery_limbs(groth16_prover::consts::FR_R2);
    assert_eq!(
        first_value_raw,
        Field::mul(&Field::neg(&<Fr as Field>::one()), &r2).montgomery_limbs(),
        "fixture's first A coefficient is −1"
    );
    // Malformations are distinct errors.
    assert_eq!(parse_preprocessed_coeffs(&bytes[..20], 4, 4), Err(ArtifactError::Truncated));
    assert!(matches!(
        parse_preprocessed_coeffs(&bytes[..bytes.len() - 4], 4, 4),
        Err(ArtifactError::Size { .. })
    ));
    let mut bad = bytes.clone();
    bad[32] = 7; // matrix id of the first record
    assert_eq!(parse_preprocessed_coeffs(&bad, 4, 4), Err(ArtifactError::Record(0)));
    let mut bad = bytes.clone();
    bad[48..80].copy_from_slice(&[0xff; 32]); // value of the first record
    assert_eq!(parse_preprocessed_coeffs(&bad, 4, 4), Err(ArtifactError::Value(0)));
}

#[test]
fn fuzzed_results_parse_and_reject_the_wrong_size() {
    let zero = [0u8; FRES_SIZE];
    let f = parse_fuzzed_msm_results(&zero).unwrap();
    assert!(is_identity(&f.a) && is_identity(&f.b_g2));
    assert!(matches!(parse_fuzzed_msm_results(&zero[..100]), Err(ArtifactError::Size { .. })));
}

#[test]
fn fixture_proof_verifies_under_arkworks_groth16() {
    let z = Zkey::parse(&fixture_zkey()).unwrap();
    let w = parse_wtns(&fixture_wtns()).unwrap();
    let (r, s) = (Fr::from_u64(0x1234_5678), Fr::from_u64(0x9abc_def0));
    let proof = prove(&z, &w, &r, &s).unwrap();
    assert!(verify(&z, &proof, &w[1..=z.num_public]), "the proof must verify");
    // Randomisation: different blinding, still verifies, different bytes.
    let proof2 = prove(&z, &w, &Fr::from_u64(7), &Fr::from_u64(11)).unwrap();
    assert_ne!(proof, proof2);
    assert!(verify(&z, &proof2, &w[1..=z.num_public]));
    // A wrong public input, a corrupted proof element, a wrong witness.
    assert!(!verify(&z, &proof, &[Fr::from_u64(34)]), "wrong public input must be rejected");
    let mut corrupted = proof.clone();
    corrupted.c = corrupted.c.neg();
    assert!(!verify(&z, &corrupted, &w[1..=z.num_public]), "a corrupted π_C must be rejected");
    let mut bad_w = w.clone();
    bad_w[1] = Fr::from_u64(34); // c ≠ a·b
    let bad_proof = prove(&z, &bad_w, &r, &s).unwrap();
    assert!(
        !verify(&z, &bad_proof, &bad_w[1..=z.num_public]),
        "an unsatisfied witness must not verify"
    );
}

#[test]
fn quotient_is_divisible_by_the_vanishing_polynomial() {
    let z = Zkey::parse(&fixture_zkey()).unwrap();
    let w = parse_wtns(&fixture_wtns()).unwrap();
    let (a, b) = scatter(&z, &w);
    let c: Vec<Fr> = a.iter().zip(&b).map(|(x, y)| Field::mul(x, y)).collect();
    assert_eq!(
        c[0],
        Field::neg(&Field::mul(&w[2], &w[3])),
        "constraint 0: (-a)·(b) with the fixture's sign"
    );
    let q = quotient_on_coset(&z, &w);
    assert_eq!(q.len(), z.domain_size);
    // With an unsatisfied witness the domain values are no longer consistent.
    let mut bad = w.clone();
    bad[1] = Fr::from_u64(34);
    assert_ne!(quotient_on_coset(&z, &bad), q);
}

#[test]
fn prove_rejects_a_malformed_witness_with_a_reason() {
    let z = Zkey::parse(&fixture_zkey()).unwrap();
    let w = parse_wtns(&fixture_wtns()).unwrap();
    let one = <Fr as Field>::one();
    assert_eq!(
        prove(&z, &w[..3], &one, &one),
        Err(ProveError::WitnessLength { expected: 4, found: 3 })
    );
    let mut bad = w.clone();
    bad[0] = Fr::from_u64(2);
    assert_eq!(prove(&z, &bad, &one, &one), Err(ProveError::WitnessConstant));
}

#[test]
fn json_shapes_round_trip_through_decimal() {
    assert_eq!(decimal([0, 0, 0, 0]), "0");
    assert_eq!(decimal([10, 0, 0, 0]), "10");
    assert_eq!(decimal([u64::MAX, 0, 0, 0]), "18446744073709551615");
    assert_eq!(decimal([0, 1, 0, 0]), "18446744073709551616");
    assert_eq!(
        decimal(Fr::MODULUS),
        "21888242871839275222246405745257275088548364400416034343698204186575808495617"
    );
    let z = Zkey::parse(&fixture_zkey()).unwrap();
    let w = parse_wtns(&fixture_wtns()).unwrap();
    let proof = prove(&z, &w, &Fr::from_u64(3), &Fr::from_u64(4)).unwrap();
    let pj = proof_json(&proof);
    assert!(pj.starts_with("{ \"pi_a\": [\"") && pj.contains("\"protocol\": \"groth16\""));
    assert_eq!(public_json(&w, z.num_public), "[\"33\"]");
    let vj = verifying_key_json(&z);
    assert!(vj.contains("\"nPublic\": 1") && vj.contains("\"IC\": [[\""));
}
