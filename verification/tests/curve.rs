#![allow(dead_code, unused_imports)]

use ark_ec::{AffineRepr as _, CurveGroup as _, PrimeGroup as _};
use ark_ff::{BigInteger as _, PrimeField as _};
use groth16_prover::ec::{G1Affine, G1Jacobian, G2Affine, G2Jacobian};
use groth16_prover::field::{Field, Fp, Fr};
use groth16_prover::fp2::Fp2;
use ark_ec::short_weierstrass::SWCurveConfig as _;
use ark_ec::VariableBaseMSM as _;
use ark_ff::{AdditiveGroup as _, Field as _};
use ark_poly::{EvaluationDomain as _, Radix2EvaluationDomain};
use groth16_prover::ec::{g1_b, g2_b, Affine};
use groth16_prover::generators::{g1_generator, g2_generator};
use groth16_prover::msm::{msm_naive, msm_pippenger};
use groth16_prover::ntt::{bit_reverse_permute, coset_scale, forward, h_to_coset, inverse, lg2};
use groth16_prover::scalar::digit;
use std::str::FromStr as _;

fn fp_from_ark(v: ark_bn254::Fq) -> Fp {
    Fp::from_le_bytes(&v.into_bigint().to_bytes_le().try_into().unwrap()).unwrap()
}

fn fp_to_ark(v: &Fp) -> ark_bn254::Fq {
    ark_bn254::Fq::from_le_bytes_mod_order(&v.to_le_bytes())
}

fn fp2_from_ark(v: ark_bn254::Fq2) -> Fp2 {
    Fp2::new(fp_from_ark(v.c0), fp_from_ark(v.c1))
}

fn fp2_to_ark(v: &Fp2) -> ark_bn254::Fq2 {
    ark_bn254::Fq2::new(fp_to_ark(&v.c0), fp_to_ark(&v.c1))
}

fn fr_from_ark(v: ark_bn254::Fr) -> Fr {
    Fr::from_le_bytes(&v.into_bigint().to_bytes_le().try_into().unwrap()).unwrap()
}

fn fr_to_ark(v: &Fr) -> ark_bn254::Fr {
    ark_bn254::Fr::from_le_bytes_mod_order(&v.to_le_bytes())
}

fn g1_from_ark(p: ark_bn254::G1Affine) -> G1Affine {
    match p.xy() {
        None => G1Affine::infinity(),
        Some((x, y)) => G1Affine::new(fp_from_ark(x), fp_from_ark(y)),
    }
}

fn g1_to_ark(p: &G1Affine) -> ark_bn254::G1Affine {
    if p.infinity {
        ark_bn254::G1Affine::identity()
    } else {
        ark_bn254::G1Affine::new_unchecked(fp_to_ark(&p.x), fp_to_ark(&p.y))
    }
}

fn g2_from_ark(p: ark_bn254::G2Affine) -> G2Affine {
    match p.xy() {
        None => G2Affine::infinity(),
        Some((x, y)) => G2Affine::new(fp2_from_ark(x), fp2_from_ark(y)),
    }
}

fn g2_to_ark(p: &G2Affine) -> ark_bn254::G2Affine {
    if p.infinity {
        ark_bn254::G2Affine::identity()
    } else {
        ark_bn254::G2Affine::new_unchecked(fp2_to_ark(&p.x), fp2_to_ark(&p.y))
    }
}

fn g1_proj_to_ark(p: &G1Jacobian) -> ark_bn254::G1Affine {
    g1_to_ark(&p.to_affine())
}

fn g2_proj_to_ark(p: &G2Jacobian) -> ark_bn254::G2Affine {
    g2_to_ark(&p.to_affine())
}

/// Deterministic scalars.
struct Scalars(u64);

impl Scalars {
    fn next_u64(&mut self) -> u64 {
        let mut x = self.0;
        x ^= x << 13;
        x ^= x >> 7;
        x ^= x << 17;
        self.0 = x;
        x
    }

    fn next_fr(&mut self) -> ark_bn254::Fr {
        let mut b = [0u8; 32];
        for chunk in b.chunks_mut(8) {
            chunk.copy_from_slice(&self.next_u64().to_le_bytes());
        }
        ark_bn254::Fr::from_le_bytes_mod_order(&b)
    }
}

#[test]
fn fp2_matches_arkworks() {
    let mut seed = 0x2545_f491_4f6c_dd1du64;
    let mut next = move || {
        seed ^= seed << 13;
        seed ^= seed >> 7;
        seed ^= seed << 17;
        seed
    };
    let rand_fp = |next: &mut dyn FnMut() -> u64| {
        let mut b = [0u8; 32];
        for chunk in b.chunks_mut(8) {
            chunk.copy_from_slice(&next().to_le_bytes());
        }
        ark_bn254::Fq::from_le_bytes_mod_order(&b)
    };
    for _ in 0..300 {
        let a = ark_bn254::Fq2::new(rand_fp(&mut next), rand_fp(&mut next));
        let b = ark_bn254::Fq2::new(rand_fp(&mut next), rand_fp(&mut next));
        let (ma, mb) = (fp2_from_ark(a), fp2_from_ark(b));
        assert_eq!(fp2_to_ark(&Field::add(&ma, &mb)), a + b);
        assert_eq!(fp2_to_ark(&Field::sub(&ma, &mb)), a - b);
        assert_eq!(fp2_to_ark(&Field::mul(&ma, &mb)), a * b);
        assert_eq!(fp2_to_ark(&Field::square(&ma)), a.square());
        assert_eq!(Field::square(&ma), Field::mul(&ma, &ma), "square agrees with mul");
        assert_eq!(fp2_to_ark(&Field::neg(&ma)), -a);
        assert_eq!(fp2_to_ark(&Field::double(&ma)), a.double());
        assert_eq!(fp2_to_ark(&Field::inverse(&ma).unwrap()), a.inverse().unwrap());
        assert_eq!(Field::mul(&ma, &Field::inverse(&ma).unwrap()), <Fp2 as Field>::one());
        let k = rand_fp(&mut next);
        let mk = fp2_from_ark(ark_bn254::Fq2::new(k, ark_bn254::Fq::ZERO)).c0;
        assert_eq!(fp2_to_ark(&ma.scale(&mk)), a * ark_bn254::Fq2::new(k, ark_bn254::Fq::ZERO));
    }
    assert_eq!(Field::inverse(&<Fp2 as Field>::zero()), None);
    assert_eq!(fp2_to_ark(&<Fp2 as Field>::one()), ark_bn254::Fq2::ONE);
    // u^2 = -1
    let u = Fp2::new(<Fp as Field>::zero(), <Fp as Field>::one());
    assert_eq!(Field::square(&u), Field::neg(&<Fp2 as Field>::one()));
}

#[test]
fn generators_are_on_curve_and_constants_match_arkworks() {
    let g1 = g1_from_ark(ark_bn254::G1Affine::generator());
    let g2 = g2_from_ark(ark_bn254::G2Affine::generator());
    assert!(g1.is_on_curve(&g1_b()));
    assert!(g2.is_on_curve(&g2_b()));
    assert!(!G1Affine::new(g1.x, g1.x).is_on_curve(&g1_b()), "a wrong point is off-curve");
    assert!(G1Affine::infinity().is_on_curve(&g1_b()));
    assert_eq!(fp2_to_ark(&g2_b()), ark_bn254::g2::Config::COEFF_B);
    assert_eq!(fp_to_ark(&g1_b()), ark_bn254::g1::Config::COEFF_B);
}

#[test]
fn on_curve() {
    let g = g2_generator();
    assert!(g.is_on_curve(&g2_b()));
    // and its 2nd and 3rd multiples agree whichever way they are formed
    let j = g.to_jacobian();
    assert_eq!(j.double().to_affine(), j.add_affine(&g).to_affine());
    assert_eq!(g, g2_from_ark(ark_bn254::G2Affine::generator()));
    assert_eq!(g1_generator(), g1_from_ark(ark_bn254::G1Affine::generator()));
}

#[test]
fn g1_arithmetic_matches_arkworks() {
    let mut s = Scalars(0x0123_4567_89ab_cdef);
    let g = ark_bn254::G1Projective::generator();
    for _ in 0..40 {
        let (ka, kb) = (s.next_fr(), s.next_fr());
        let (pa, pb) = (g * ka, g * kb);
        let (ma, mb) = (
            g1_from_ark(pa.into_affine()).to_jacobian(),
            g1_from_ark(pb.into_affine()).to_jacobian(),
        );
        assert_eq!(g1_proj_to_ark(&ma.add(&mb)), (pa + pb).into_affine());
        assert_eq!(
            g1_proj_to_ark(&ma.add_affine(&g1_from_ark(pb.into_affine()))),
            (pa + pb).into_affine()
        );
        assert_eq!(g1_proj_to_ark(&ma.double()), pa.double().into_affine());
        assert_eq!(g1_proj_to_ark(&ma.add(&ma)), pa.double().into_affine(), "add(P, P) doubles");
        assert_eq!(g1_proj_to_ark(&ma.neg()), (-pa).into_affine());
        assert_eq!(g1_proj_to_ark(&ma.add(&ma.neg())), ark_bn254::G1Affine::identity());
        assert!(ma.add(&ma.neg()).is_infinity());
        assert_eq!(g1_proj_to_ark(&ma.add(&G1Jacobian::infinity())), pa.into_affine());
        assert_eq!(
            g1_proj_to_ark(&G1Jacobian::infinity().add_affine(&g1_from_ark(pa.into_affine()))),
            pa.into_affine()
        );
        let k = s.next_fr();
        assert_eq!(g1_proj_to_ark(&ma.mul(&fr_from_ark(k))), (pa * k).into_affine());
        assert_eq!(ma, ma.double().add(&ma.neg()), "projective equality ignores Z");
    }
    assert_eq!(
        g1_proj_to_ark(&g1_from_ark(g.into_affine()).to_jacobian().mul(&<Fr as Field>::zero())),
        ark_bn254::G1Affine::identity()
    );
}

#[test]
fn g2_arithmetic_matches_arkworks() {
    let mut s = Scalars(0xfedc_ba98_7654_3210);
    let g = ark_bn254::G2Projective::generator();
    for _ in 0..20 {
        let (ka, kb) = (s.next_fr(), s.next_fr());
        let (pa, pb) = (g * ka, g * kb);
        let (ma, mb) = (
            g2_from_ark(pa.into_affine()).to_jacobian(),
            g2_from_ark(pb.into_affine()).to_jacobian(),
        );
        assert_eq!(g2_proj_to_ark(&ma.add(&mb)), (pa + pb).into_affine());
        assert_eq!(
            g2_proj_to_ark(&ma.add_affine(&g2_from_ark(pb.into_affine()))),
            (pa + pb).into_affine()
        );
        assert_eq!(g2_proj_to_ark(&ma.double()), pa.double().into_affine());
        assert_eq!(g2_proj_to_ark(&ma.add(&ma)), pa.double().into_affine());
        assert!(ma.add(&ma.neg()).is_infinity());
        let k = s.next_fr();
        assert_eq!(g2_proj_to_ark(&ma.mul(&fr_from_ark(k))), (pa * k).into_affine());
    }
}

#[test]
fn affine_roundtrip_and_infinity() {
    let g = g1_from_ark(ark_bn254::G1Affine::generator());
    assert_eq!(g.to_jacobian().to_affine(), g);
    assert_eq!(G1Jacobian::infinity().to_affine(), G1Affine::infinity());
    assert_eq!(G1Affine::infinity().to_jacobian(), G1Jacobian::infinity());
    assert_eq!(G1Affine::infinity().neg(), G1Affine::infinity());
    let three_g = g.to_jacobian().double().add_affine(&g);
    assert_eq!(three_g, g.to_jacobian().mul(&Fr::from_u64(3)));
}

/// The curve `y² = x³ − 1` has the points of order two `(ω, 0)`, for the three cube roots `ω` of
/// one: the group law holds there too.
#[test]
fn points_of_order_two_add_as_on_any_curve() {
    let root = ark_bn254::Fq::from_str(
        "2203960485148121921418603742825762020974279258880205651966",
    )
    .unwrap();
    let zero = <Fp as Field>::zero();
    let points: Vec<G1Affine> = [ark_bn254::Fq::from(1u64), root, root * root]
        .into_iter()
        .map(|x| G1Affine::new(fp_from_ark(x), zero))
        .collect();
    let b = <Fp as Field>::one().neg();
    let j: Vec<G1Jacobian> = points.iter().map(|p| p.to_jacobian()).collect();
    for i in 0..3 {
        assert!(points[i].is_on_curve(&b));
        assert!(j[i].double().is_infinity());
        assert!(j[i].add(&j[i]).is_infinity());
        let (k, l) = ((i + 1) % 3, (i + 2) % 3);
        assert_eq!(j[i].add(&j[k]), j[l]);
        assert_eq!(j[k].add(&j[i]), j[l]);
        assert_eq!(j[i].add(&j[i]).add(&j[k]), j[i].add(&j[i].add(&j[k])));
        assert_eq!(j[i].add(&j[k]).add(&j[k].neg()), j[i]);
        assert_eq!(j[i].double().add(&j[i].neg()), j[i]);
    }
    let weights: Vec<Fr> = [5u64, 4, 7].into_iter().map(Fr::from_u64).collect();
    assert_eq!(msm_naive(&points, &weights), j[1]);
    assert_eq!(msm_pippenger(&points, &weights, 3), j[1]);
}

fn g1_points(n: usize, seed: u64) -> (Vec<Affine<Fp>>, Vec<ark_bn254::G1Affine>) {
    let mut s = Scalars(seed);
    let g = ark_bn254::G1Projective::generator();
    let ark: Vec<_> = (0..n).map(|_| (g * s.next_fr()).into_affine()).collect();
    (ark.iter().copied().map(g1_from_ark).collect(), ark)
}

fn scalars(n: usize, seed: u64) -> (Vec<Fr>, Vec<ark_bn254::Fr>) {
    let mut s = Scalars(seed);
    let ark: Vec<_> = (0..n).map(|_| s.next_fr()).collect();
    (ark.iter().copied().map(fr_from_ark).collect(), ark)
}

#[test]
fn digits_reassemble_the_scalar() {
    let k = [
        0x0123_4567_89ab_cdefu64,
        0xfedc_ba98_7654_3210,
        0x0f0f_0f0f_0f0f_0f0f,
        0x1234_5678_9abc_def0,
    ];
    for w in [1u32, 3, 8, 13, 16, 20] {
        let windows = 256u32.div_ceil(w);
        let mut acc = [0u64; 4];
        for window in (0..windows).rev() {
            // acc = acc * 2^w + digit
            let mut carry = digit(&k, window, w);
            for limb in acc.iter_mut() {
                let wide = ((*limb as u128) << w) | (carry as u128);
                *limb = wide as u64;
                carry = (wide >> 64) as u64;
            }
        }
        assert_eq!(acc, k, "w = {w}");
    }
}

#[test]
fn pippenger_equals_naive_equals_arkworks_on_g1() {
    for (n, w) in [(1usize, 4u32), (7, 3), (64, 8), (200, 13)] {
        let (pts, ark_pts) = g1_points(n, 11 + n as u64);
        let (ks, ark_ks) = scalars(n, 23 + n as u64);
        let naive = msm_naive(&pts, &ks);
        let fast = msm_pippenger(&pts, &ks, w);
        let expected = ark_bn254::G1Projective::msm(&ark_pts, &ark_ks).unwrap().into_affine();
        assert_eq!(g1_proj_to_ark(&naive), expected, "naive n = {n}");
        assert_eq!(g1_proj_to_ark(&fast), expected, "pippenger n = {n}, w = {w}");
        assert_eq!(fast, naive);
    }
}

#[test]
fn pippenger_matches_arkworks_on_g2() {
    let n = 24;
    let mut s = Scalars(0x5151);
    let g = ark_bn254::G2Projective::generator();
    let ark_pts: Vec<_> = (0..n).map(|_| (g * s.next_fr()).into_affine()).collect();
    let pts: Vec<_> = ark_pts.iter().copied().map(g2_from_ark).collect();
    let (ks, ark_ks) = scalars(n, 0x7a7a);
    let expected = ark_bn254::G2Projective::msm(&ark_pts, &ark_ks).unwrap().into_affine();
    assert_eq!(g2_proj_to_ark(&msm_pippenger(&pts, &ks, 6)), expected);
    assert_eq!(g2_proj_to_ark(&msm_naive(&pts, &ks)), expected);
}

#[test]
fn zero_scalars_and_infinity_points_contribute_nothing() {
    let (pts, _) = g1_points(5, 3);
    let zeros = vec![<Fr as Field>::zero(); 5];
    assert!(msm_pippenger(&pts, &zeros, 8).is_infinity());
    assert!(msm_naive(&pts, &zeros).is_infinity());
    let (ks, _) = scalars(5, 4);
    let infs = vec![Affine::<Fp>::infinity(); 5];
    assert!(msm_pippenger(&infs, &ks, 8).is_infinity());
    let mut mixed = pts.clone();
    mixed[2] = Affine::infinity();
    let mut ks2 = ks.clone();
    ks2[2] = <Fr as Field>::zero();
    assert_eq!(msm_pippenger(&mixed, &ks, 8), msm_pippenger(&pts, &ks2, 8));
}

fn random_polys(n: usize, seed: u64) -> (Vec<Fr>, Vec<ark_bn254::Fr>) {
    let mut s = Scalars(seed | 1);
    let ark: Vec<ark_bn254::Fr> = (0..n).map(|_| s.next_fr()).collect();
    (ark.iter().copied().map(fr_from_ark).collect(), ark)
}

#[test]
fn forward_matches_ark_poly_fft() {
    for n in [1usize, 2, 4, 8, 64, 1024] {
        let (mut mine, ark) = random_polys(n, 7 + n as u64);
        forward(&mut mine);
        let domain = Radix2EvaluationDomain::<ark_bn254::Fr>::new(n).unwrap();
        let expected = domain.fft(&ark);
        let got: Vec<_> = mine.iter().map(fr_to_ark).collect();
        assert_eq!(got, expected, "n = {n}");
    }
}

#[test]
fn inverse_undoes_forward_and_matches_ark_poly_ifft() {
    for n in [1usize, 2, 16, 256] {
        let (original, ark) = random_polys(n, 99 + n as u64);
        let mut mine = original.clone();
        forward(&mut mine);
        inverse(&mut mine);
        assert_eq!(mine, original, "n = {n}");
        let mut evals = original.clone();
        inverse(&mut evals);
        let domain = Radix2EvaluationDomain::<ark_bn254::Fr>::new(n).unwrap();
        let expected = domain.ifft(&ark);
        let got: Vec<_> = evals.iter().map(fr_to_ark).collect();
        assert_eq!(got, expected, "n = {n}");
    }
}

#[test]
fn forward_is_the_naive_dft() {
    let n = 8;
    let (mine, _) = random_polys(n, 5);
    let omega = Fr::two_adic_root(3);
    let mut fast = mine.clone();
    forward(&mut fast);
    for k in 0..n {
        let mut acc = <Fr as Field>::zero();
        for (j, coeff) in mine.iter().enumerate() {
            acc = Field::add(&acc, &Field::mul(coeff, &omega.pow(&[(j * k) as u64, 0, 0, 0])));
        }
        assert_eq!(fast[k], acc, "k = {k}");
    }
}

#[test]
fn coset_evaluation_matches_ark_poly_coset_fft() {
    let n = 32;
    let (mut mine, ark) = random_polys(n, 31);
    let shift = Fr::two_adic_root(lg2(n) + 1);
    coset_scale(&mut mine, &shift);
    forward(&mut mine);
    let domain = Radix2EvaluationDomain::<ark_bn254::Fr>::new(n)
        .unwrap()
        .get_coset(fr_to_ark(&shift))
        .unwrap();
    let expected = domain.fft(&ark);
    let got: Vec<_> = mine.iter().map(fr_to_ark).collect();
    assert_eq!(got, expected);
}

#[test]
fn h_to_coset_moves_evaluations_between_domains() {
    // Evaluate a known polynomial on H, move to the coset, compare with direct evaluation.
    let n = 16;
    let (coeffs, _) = random_polys(n, 77);
    let shift = Fr::two_adic_root(lg2(n) + 1);
    let mut evals_h = coeffs.clone();
    forward(&mut evals_h);
    h_to_coset(&mut evals_h, &shift);
    let omega = Fr::two_adic_root(lg2(n));
    for k in 0..n {
        let x = Field::mul(&shift, &omega.pow(&[k as u64, 0, 0, 0]));
        let mut acc = <Fr as Field>::zero();
        let mut xp = <Fr as Field>::one();
        for c in &coeffs {
            acc = Field::add(&acc, &Field::mul(c, &xp));
            xp = Field::mul(&xp, &x);
        }
        assert_eq!(evals_h[k], acc, "k = {k}");
    }
}

#[test]
fn bit_reversal_is_an_involution() {
    let (original, _) = random_polys(64, 3);
    let mut a = original.clone();
    bit_reverse_permute(&mut a);
    assert_ne!(a, original);
    bit_reverse_permute(&mut a);
    assert_eq!(a, original);
}
