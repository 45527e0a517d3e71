#![allow(dead_code, unused_imports)]

use ark_ec::{AffineRepr as _, CurveGroup as _, PrimeGroup as _};
use ark_ff::{BigInteger as _, PrimeField as _};
use groth16_prover::ec::{G1Affine, G1Jacobian, G2Affine, G2Jacobian};
use groth16_prover::field::{Field, Fp, Fr};
use groth16_prover::fp2::Fp2;
use ark_ff::{AdditiveGroup as _, FftField as _, Field as _};
use groth16_prover::abi::{blocks, BLOCK, KERNELS};
use groth16_prover::coeff::GroupedCoeff;
use groth16_prover::ec::{Affine, Jacobian};
use groth16_prover::generators::g1_generator;
use groth16_prover::kernels;
use groth16_prover::launch::{chunk_size, Launcher, SerialLauncher};
use groth16_prover::msm::msm_naive;
use groth16_prover::ntt;
use groth16_prover::ntt::lg2;
use groth16_prover::pipeline::{h_to_coset, msm, prove};
use groth16_prover::plan::{chunk_ranges, plan_ranges};
use groth16_prover::prover;
use groth16_prover::prover::{CoefficientGroups, Proof, Tables};
use groth16_prover::schedule::{coset, Buf, Step, Twiddles};
use groth16_prover::zkey::{parse_wtns, Zkey};

fn fp_from_ark(v: ark_bn254::Fq) -> Fp {
    Fp::from_le_bytes(&v.into_bigint().to_bytes_le().try_into().unwrap()).unwrap()
}

fn fp_to_ark(v: &Fp) -> ark_bn254::Fq {
    ark_bn254::Fq::from_le_bytes_mod_order(&v.to_le_bytes())
}

fn fp2_from_ark(v: ark_bn254::Fq2) -> Fp2 {
    Fp2::new(fp_from_ark(v.c0), fp_from_ark(v.c1))
}

fn fp2_to_ark(v: &Fp2) -> ark_bn254::Fq2 {
    ark_bn254::Fq2::new(fp_to_ark(&v.c0), fp_to_ark(&v.c1))
}

fn fr_from_ark(v: ark_bn254::Fr) -> Fr {
    Fr::from_le_bytes(&v.into_bigint().to_bytes_le().try_into().unwrap()).unwrap()
}

fn fr_to_ark(v: &Fr) -> ark_bn254::Fr {
    ark_bn254::Fr::from_le_bytes_mod_order(&v.to_le_bytes())
}

fn g1_from_ark(p: ark_bn254::G1Affine) -> G1Affine {
    match p.xy() {
        None => G1Affine::infinity(),
        Some((x, y)) => G1Affine::new(fp_from_ark(x), fp_from_ark(y)),
    }
}

fn g1_to_ark(p: &G1Affine) -> ark_bn254::G1Affine {
    if p.infinity {
        ark_bn254::G1Affine::identity()
    } else {
        ark_bn254::G1Affine::new_unchecked(fp_to_ark(&p.x), fp_to_ark(&p.y))
    }
}

fn g2_from_ark(p: ark_bn254::G2Affine) -> G2Affine {
    match p.xy() {
        None => G2Affine::infinity(),
        Some((x, y)) => G2Affine::new(fp2_from_ark(x), fp2_from_ark(y)),
    }
}

fn g2_to_ark(p: &G2Affine) -> ark_bn254::G2Affine {
    if p.infinity {
        ark_bn254::G2Affine::identity()
    } else {
        ark_bn254::G2Affine::new_unchecked(fp2_to_ark(&p.x), fp2_to_ark(&p.y))
    }
}

fn g1_proj_to_ark(p: &G1Jacobian) -> ark_bn254::G1Affine {
    g1_to_ark(&p.to_affine())
}

fn g2_proj_to_ark(p: &G2Jacobian) -> ark_bn254::G2Affine {
    g2_to_ark(&p.to_affine())
}

/// Deterministic scalars.
struct Scalars(u64);

impl Scalars {
    fn next_u64(&mut self) -> u64 {
        let mut x = self.0;
        x ^= x << 13;
        x ^= x >> 7;
        x ^= x << 17;
        self.0 = x;
        x
    }

    fn next_fr(&mut self) -> ark_bn254::Fr {
        let mut b = [0u8; 32];
        for chunk in b.chunks_mut(8) {
            chunk.copy_from_slice(&self.next_u64().to_le_bytes());
        }
        ark_bn254::Fr::from_le_bytes_mod_order(&b)
    }
}

fn raw(l: [u64; 4]) -> Vec<u8> {
    l.iter().flat_map(|x| x.to_le_bytes()).collect()
}

fn fq_bytes(x: ark_bn254::Fq) -> Vec<u8> {
    raw(x.0 .0)
}

fn g1_bytes(p: ark_bn254::G1Projective) -> Vec<u8> {
    match p.into_affine().xy() {
        None => vec![0; 64],
        Some((x, y)) => [fq_bytes(x), fq_bytes(y)].concat(),
    }
}

fn g2_bytes(p: ark_bn254::G2Projective) -> Vec<u8> {
    match p.into_affine().xy() {
        None => vec![0; 128],
        Some((x, y)) => {
            [fq_bytes(x.c0), fq_bytes(x.c1), fq_bytes(y.c0), fq_bytes(y.c1)].concat()
        }
    }
}

fn section(id: u32, payload: Vec<u8>) -> Vec<u8> {
    let mut s = id.to_le_bytes().to_vec();
    s.extend((payload.len() as u64).to_le_bytes());
    s.extend(payload);
    s
}

/// The key file of the circuit `c = a·b` (signals `1, c, a, b`, one public), with fixed secrets.
fn fixture_zkey() -> Vec<u8> {
    type F = ark_bn254::Fr;
    let n = 4u64;
    let (tau, alpha, beta) = (F::from(123456789u64), F::from(1001u64), F::from(2003u64));
    let (gamma, delta) = (F::from(3007u64), F::from(4099u64));
    let (g1, g2) = (ark_bn254::G1Projective::generator(), ark_bn254::G2Projective::generator());
    let omega = F::get_root_of_unity(n).unwrap();
    let shift = F::get_root_of_unity(2 * n).unwrap();
    // the Lagrange polynomials of a coset of the domain, at tau
    let lagrange = |g: F, i: u64| {
        let x = g * omega.pow([i]);
        let gn = g.pow([n]);
        x * (tau.pow([n]) - gn) / (F::from(n) * gn * (tau - x))
    };
    let l = |i: u64| lagrange(F::ONE, i);
    let z = tau.pow([n]) - F::ONE;
    let a = [l(1), l(2), -l(0), F::ZERO];
    let b = [F::ZERO, F::ZERO, F::ZERO, l(0)];
    let c = [F::ZERO, -l(0), F::ZERO, F::ZERO];
    let combined = |j: usize| beta * a[j] + alpha * b[j] + c[j];
    let mut header = 32u32.to_le_bytes().to_vec();
    header.extend(raw(ark_bn254::Fq::MODULUS.0));
    header.extend(32u32.to_le_bytes());
    header.extend(raw(F::MODULUS.0));
    for v in [4u32, 1, 4] {
        header.extend(v.to_le_bytes());
    }
    header.extend(g1_bytes(g1 * alpha));
    header.extend(g1_bytes(g1 * beta));
    header.extend(g2_bytes(g2 * beta));
    header.extend(g2_bytes(g2 * gamma));
    header.extend(g1_bytes(g1 * delta));
    header.extend(g2_bytes(g2 * delta));
    let r = F::from(2u64).pow([256u64]);
    let mut coefficients = 4u32.to_le_bytes().to_vec();
    for (m, c, s, v) in [
        (0u32, 0u32, 2u32, -F::ONE),
        (1, 0, 3, F::ONE),
        (0, 1, 0, F::ONE),
        (0, 2, 1, F::ONE),
    ] {
        coefficients.extend(m.to_le_bytes());
        coefficients.extend(c.to_le_bytes());
        coefficients.extend(s.to_le_bytes());
        coefficients.extend(raw((v * r).0 .0));
    }
    let mut file = b"zkey".to_vec();
    file.extend(1u32.to_le_bytes());
    file.extend(10u32.to_le_bytes());
    file.extend(section(1, 1u32.to_le_bytes().to_vec()));
    file.extend(section(2, header));
    file.extend(section(3, (0..2).flat_map(|j| g1_bytes(g1 * (combined(j) / gamma))).collect()));
    file.extend(section(4, coefficients));
    file.extend(section(5, a.iter().flat_map(|v| g1_bytes(g1 * v)).collect()));
    file.extend(section(6, b.iter().flat_map(|v| g1_bytes(g1 * v)).collect()));
    file.extend(section(7, b.iter().flat_map(|v| g2_bytes(g2 * v)).collect()));
    file.extend(section(8, (2..4).flat_map(|j| g1_bytes(g1 * (combined(j) / delta))).collect()));
    let half = -z / (F::from(2u64) * delta);
    file.extend(section(
        9,
        (0..n).flat_map(|i| g1_bytes(g1 * (lagrange(shift, i) * half))).collect(),
    ));
    file.extend(section(10, vec![0; 4]));
    file
}

/// The witness file with `a = 3`, `b = 11`.
fn fixture_wtns() -> Vec<u8> {
    let mut header = 32u32.to_le_bytes().to_vec();
    header.extend(raw(ark_bn254::Fr::MODULUS.0));
    header.extend(4u32.to_le_bytes());
    let values = [1u64, 33, 3, 11].iter().flat_map(|v| raw([*v, 0, 0, 0])).collect();
    let mut file = b"wtns".to_vec();
    file.extend(2u32.to_le_bytes());
    file.extend(2u32.to_le_bytes());
    file.extend(section(1, header));
    file.extend(section(2, values));
    file
}

fn verify(z: &Zkey, p: &Proof, public: &[Fr]) -> bool {
    let vk = ark_groth16::VerifyingKey::<ark_bn254::Bn254> {
        alpha_g1: g1_to_ark(&z.vk.alpha_g1),
        beta_g2: g2_to_ark(&z.vk.beta_g2),
        gamma_g2: g2_to_ark(&z.vk.gamma_g2),
        delta_g2: g2_to_ark(&z.vk.delta_g2),
        gamma_abc_g1: z.ic.iter().map(g1_to_ark).collect(),
    };
    let pvk = ark_groth16::prepare_verifying_key(&vk);
    let proof = ark_groth16::Proof {
        a: g1_to_ark(&p.a),
        b: g2_to_ark(&p.b),
        c: g1_to_ark(&p.c),
    };
    let inputs: Vec<ark_bn254::Fr> = public.iter().map(fr_to_ark).collect();
    ark_groth16::Groth16::<ark_bn254::Bn254>::verify_proof(&pvk, &proof, &inputs).unwrap()
}

/// Cuts the outputs into chunks as threads would, and runs the last chunk first.
struct CpuLauncher {
    threads: usize,
}

impl Launcher for CpuLauncher {
    fn map<T, F>(&self, out: &mut [T], f: F)
    where
        T: Copy + Send + Sync,
        F: Fn(usize) -> T + Sync,
    {
        if out.is_empty() {
            return;
        }
        let chunk = chunk_size(out.len(), self.threads);
        for (k, part) in out.chunks_mut(chunk).enumerate().rev() {
            for (i, slot) in part.iter_mut().enumerate() {
                *slot = f(k * chunk + i);
            }
        }
    }
}

#[test]
fn kernel_ntt_matches_the_core_transform() {
    let n = 64;
    let mut s = Scalars(0x3131);
    let data: Vec<Fr> = (0..n).map(|_| fr_from_ark(s.next_fr())).collect();
    let t = Tables::new(n);
    let mine = h_to_coset(&SerialLauncher, data.clone(), &t);
    let mut expected = data.clone();
    ntt::h_to_coset(&mut expected, &Fr::two_adic_root(lg2(n) + 1));
    assert_eq!(mine, expected);
    let par = h_to_coset(&CpuLauncher { threads: 5 }, data, &t);
    assert_eq!(par, expected, "chunked launcher agrees with serial");
}

#[test]
fn a_plan_takes_as_many_entries_as_its_words_count() {
    let (pieces, groups) = chunk_ranges(&[0, u32::MAX], 1 << 20);
    assert_eq!(pieces.len(), 4097);
    assert_eq!(pieces[4095..], [4095 << 20, u32::MAX]);
    assert_eq!(groups, [0, 4096]);
    let levels = plan_ranges(&[0, u32::MAX], 1 << 20);
    assert_eq!(levels, [pieces, groups]);
    let (pieces, groups) = chunk_ranges(&[0, 3, u32::MAX], u32::MAX);
    assert_eq!(pieces, [0, 3, u32::MAX]);
    assert_eq!(groups, [0, 1, 2]);
}

#[test]
fn a_plan_bounds_every_chain_and_ends_one_range_per_bucket() {
    // buckets of 0, 1, 64, 65, 1000 and 70_000 entries, chunk 64
    let sizes = [0u32, 1, 64, 65, 1000, 70_000];
    let mut starts = vec![0u32];
    for s in sizes {
        starts.push(starts.last().unwrap() + s);
    }
    let plan = plan_ranges(&starts, 64);
    assert_eq!(plan.len(), 3, "70_000 → 1094 → 18 → 1: the pieces, then two levels above them");
    for level in &plan {
        assert!(level.windows(2).all(|w| w[1] - w[0] <= 64), "no chain above 64");
    }
    assert_eq!(plan.last().unwrap().len(), sizes.len() + 1, "one range per bucket at the end");
    // the sums agree with the direct ones
    let multiples: Vec<Jacobian<Fp>> =
        (1..=7).map(|k| g1_generator().to_jacobian().mul(&Fr::from_u64(k))).collect();
    let seq: Vec<Jacobian<Fp>> =
        (0..*starts.last().unwrap()).map(|i| multiples[(i % 7) as usize]).collect();
    let direct: Vec<Jacobian<Fp>> =
        (0..sizes.len()).map(|b| kernels::jacobian_sum(b, &seq, &starts)).collect();
    let mut sums: Vec<Jacobian<Fp>> =
        (0..plan[0].len() - 1).map(|b| kernels::jacobian_sum(b, &seq, &plan[0])).collect();
    for level in &plan[1..] {
        sums = (0..level.len() - 1).map(|b| kernels::jacobian_sum(b, &sums, level)).collect();
    }
    assert_eq!(sums, direct);
    // a plan with nothing to split is one level, the ranges themselves
    assert_eq!(plan_ranges(&[0, 3, 3, 10], 64), vec![vec![0, 3, 3, 10]]);
}

#[test]
fn kernel_msm_matches_the_core_msm() {
    let mut s = Scalars(0x4242);
    let g = ark_bn254::G1Projective::generator();
    let pts: Vec<G1Affine> =
        (0..100).map(|_| g1_from_ark((g * s.next_fr()).into_affine())).collect();
    let ks: Vec<Fr> = (0..100).map(|_| fr_from_ark(s.next_fr())).collect();
    let expected = msm_naive(&pts, &ks);
    assert_eq!(msm(&CpuLauncher { threads: 3 }, &pts, &ks), expected);
    assert_eq!(msm(&SerialLauncher, &pts, &ks), expected);
}

#[test]
fn fixture_proof_through_the_kernels_verifies_and_matches_core_for_fixed_blinding() {
    let z = Zkey::parse(&fixture_zkey()).unwrap();
    let w = parse_wtns(&fixture_wtns()).unwrap();
    let (r, s) = (Fr::from_u64(5), Fr::from_u64(9));
    let proof = prove(&CpuLauncher { threads: 4 }, &z, &w, &r, &s).unwrap();
    assert!(verify(&z, &proof, &w[1..=z.num_public]));
    let core = prover::prove(&z, &w, &r, &s).unwrap();
    assert_eq!(proof, core, "same blinding ⇒ the two pipelines produce the identical proof");
    let mut bad = w.clone();
    bad[1] = Fr::from_u64(34);
    assert!(!verify(
        &z,
        &prove(&SerialLauncher, &z, &bad, &r, &s).unwrap(),
        &bad[1..=z.num_public]
    ));
}

#[test]
fn coefficient_groups_cover_every_coefficient_once() {
    let z = Zkey::parse(&fixture_zkey()).unwrap();
    let g = CoefficientGroups::from_zkey(&z);
    assert_eq!(g.a.len() + g.b.len(), z.coefficients.len());
    assert_eq!(g.a_starts.len(), g.a_constraint.len() + 1);
    assert_eq!(g.b_starts.len(), g.b_constraint.len() + 1);
    assert_eq!(*g.a_starts.last().unwrap() as usize, g.a.len());
    assert!(g.a_constraint.windows(2).all(|p| p[0] < p[1]), "groups ascend by constraint");
}

#[test]
fn geometry() {
    assert_eq!(blocks(0), 0);
    assert_eq!(blocks(1), 1);
    assert_eq!(blocks(BLOCK), 1);
    assert_eq!(blocks(BLOCK + 1), 2);
    assert_eq!(KERNELS.len(), 10);
}

#[test]
fn record_sizes_are_the_documented_ones() {
    assert_eq!(core::mem::size_of::<Fr>(), 32);
    assert_eq!(core::mem::size_of::<Affine<Fp>>(), 72);
    assert_eq!(core::mem::size_of::<Affine<Fp2>>(), 136);
    assert_eq!(core::mem::size_of::<Jacobian<Fp>>(), 96);
    assert_eq!(core::mem::size_of::<Jacobian<Fp2>>(), 192);
    assert_eq!(core::mem::size_of::<GroupedCoeff>(), 40);
}

#[test]
fn every_step_reads_what_the_previous_wrote() {
    for lg in 1..8 {
        let n = 1u32 << lg;
        let s = coset(n);
        assert_eq!(s.steps.len(), 2 * (lg as usize + 1) + 1);
        let mut live = Buf::A; // the buffer holding the current data
        for step in &s.steps {
            let (src, dst) = (step.src(), step.dst());
            assert_eq!(src, live, "{step:?} reads a stale buffer");
            assert_ne!(src, dst, "{step:?} reads and writes one buffer");
            live = dst;
        }
        assert_eq!(s.result, live);
        // stages: lengths 2, 4, …, n with stride n/len, first inverse then forward
        let stages: Vec<_> = s
            .steps
            .iter()
            .filter_map(|st| match *st {
                Step::NttStage { len, stride, twiddles, .. } => Some((len, stride, twiddles)),
                _ => None,
            })
            .collect();
        assert_eq!(stages.len(), 2 * lg as usize);
        for (k, (len, stride, tw)) in stages.iter().enumerate() {
            let j = k % lg as usize;
            assert_eq!(*len, 2u32 << j);
            assert_eq!(*stride, n / len);
            assert_eq!(
                *tw,
                if k < lg as usize { Twiddles::Inverse } else { Twiddles::Forward }
            );
        }
    }
}
