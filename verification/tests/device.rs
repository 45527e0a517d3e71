#![allow(dead_code, unused_imports)]

use ark_ec::{AffineRepr as _, CurveGroup as _, PrimeGroup as _};
use ark_ff::{BigInteger as _, PrimeField as _};
use groth16_prover::ec::{G1Affine, G1Jacobian, G2Affine, G2Jacobian};
use groth16_prover::field::{Field, Fp, Fr};
use groth16_prover::fp2::Fp2;
use ark_ff::{AdditiveGroup as _, FftField as _, Field as _};
use groth16_prover::answer::{
    attempt_answer, boundary_witness, resident_answer, streaming_answer, Answer, AnswerError,
    AttemptError, MetalCpu, OxideCpu, Reference,
};
use groth16_prover::check::{proof_diff, Cases, Fixture, FixtureError, KernelCheck, WINDOWS};
use groth16_prover::coeff::GroupedCoeff;
use groth16_prover::device::{
    is_addressable, Backend, Call, Fault, HostBackend, HostBuf, Prover, KERNELS,
};
use groth16_prover::ec::{Affine, Jacobian};
use groth16_prover::generators::g1_generator;
use groth16_prover::json::verifying_key_json;
use groth16_prover::kernels;
use groth16_prover::judge::{judge, judge_without_ranges, NoProof, Outputs, CHECKS};
use groth16_prover::launch::SerialLauncher;
use groth16_prover::pack;
use groth16_prover::pipeline;
use groth16_prover::prover::{prove, CoefficientGroups, Proof, ProveError, Tables};
use groth16_prover::schedule::{Step, Twiddles};
use groth16_prover::session::{
    combined, laid_out, transform_program, Launch, Query, Reply, Session, Work,
};
use groth16_prover::zkey::{parse_witness_values, parse_wtns, WtnsError, Zkey, ZkeyError};
use groth16_prover::show::Show as _;
use std::str::FromStr as _;

fn fp_from_ark(v: ark_bn254::Fq) -> Fp {
    Fp::from_le_bytes(&v.into_bigint().to_bytes_le().try_into().unwrap()).unwrap()
}

fn fp_to_ark(v: &Fp) -> ark_bn254::Fq {
    ark_bn254::Fq::from_le_bytes_mod_order(&v.to_le_bytes())
}

fn fp2_from_ark(v: ark_bn254::Fq2) -> Fp2 {
    Fp2::new(fp_from_ark(v.c0), fp_from_ark(v.c1))
}

fn fp2_to_ark(v: &Fp2) -> ark_bn254::Fq2 {
    ark_bn254::Fq2::new(fp_to_ark(&v.c0), fp_to_ark(&v.c1))
}

fn fr_from_ark(v: ark_bn254::Fr) -> Fr {
    Fr::from_le_bytes(&v.into_bigint().to_bytes_le().try_into().unwrap()).unwrap()
}

fn fr_to_ark(v: &Fr) -> ark_bn254::Fr {
    ark_bn254::Fr::from_le_bytes_mod_order(&v.to_le_bytes())
}

fn g1_from_ark(p: ark_bn254::G1Affine) -> G1Affine {
    match p.xy() {
        None => G1Affine::infinity(),
        Some((x, y)) => G1Affine::new(fp_from_ark(x), fp_from_ark(y)),
    }
}

fn g1_to_ark(p: &G1Affine) -> ark_bn254::G1Affine {
    if p.infinity {
        ark_bn254::G1Affine::identity()
    } else {
        ark_bn254::G1Affine::new_unchecked(fp_to_ark(&p.x), fp_to_ark(&p.y))
    }
}

fn g2_from_ark(p: ark_bn254::G2Affine) -> G2Affine {
    match p.xy() {
        None => G2Affine::infinity(),
        Some((x, y)) => G2Affine::new(fp2_from_ark(x), fp2_from_ark(y)),
    }
}

fn g2_to_ark(p: &G2Affine) -> ark_bn254::G2Affine {
    if p.infinity {
        ark_bn254::G2Affine::identity()
    } else {
        ark_bn254::G2Affine::new_unchecked(fp2_to_ark(&p.x), fp2_to_ark(&p.y))
    }
}

fn g1_proj_to_ark(p: &G1Jacobian) -> ark_bn254::G1Affine {
    g1_to_ark(&p.to_affine())
}

fn g2_proj_to_ark(p: &G2Jacobian) -> ark_bn254::G2Affine {
    g2_to_ark(&p.to_affine())
}

/// Deterministic scalars.
struct Scalars(u64);

impl Scalars {
    fn next_u64(&mut self) -> u64 {
        let mut x = self.0;
        x ^= x << 13;
        x ^= x >> 7;
        x ^= x << 17;
        self.0 = x;
        x
    }

    fn next_fr(&mut self) -> ark_bn254::Fr {
        let mut b = [0u8; 32];
        for chunk in b.chunks_mut(8) {
            chunk.copy_from_slice(&self.next_u64().to_le_bytes());
        }
        ark_bn254::Fr::from_le_bytes_mod_order(&b)
    }
}

fn raw(l: [u64; 4]) -> Vec<u8> {
    l.iter().flat_map(|x| x.to_le_bytes()).collect()
}

fn fq_bytes(x: ark_bn254::Fq) -> Vec<u8> {
    raw(x.0 .0)
}

fn g1_bytes(p: ark_bn254::G1Projective) -> Vec<u8> {
    match p.into_affine().xy() {
        None => vec![0; 64],
        Some((x, y)) => [fq_bytes(x), fq_bytes(y)].concat(),
    }
}

fn g2_bytes(p: ark_bn254::G2Projective) -> Vec<u8> {
    match p.into_affine().xy() {
        None => vec![0; 128],
        Some((x, y)) => {
            [fq_bytes(x.c0), fq_bytes(x.c1), fq_bytes(y.c0), fq_bytes(y.c1)].concat()
        }
    }
}

fn section(id: u32, payload: Vec<u8>) -> Vec<u8> {
    let mut s = id.to_le_bytes().to_vec();
    s.extend((payload.len() as u64).to_le_bytes());
    s.extend(payload);
    s
}

/// The key file of the circuit `c = a·b` (signals `1, c, a, b`, one public), with fixed secrets.
fn fixture_zkey() -> Vec<u8> {
    type F = ark_bn254::Fr;
    let n = 4u64;
    let (tau, alpha, beta) = (F::from(123456789u64), F::from(1001u64), F::from(2003u64));
    let (gamma, delta) = (F::from(3007u64), F::from(4099u64));
    let (g1, g2) = (ark_bn254::G1Projective::generator(), ark_bn254::G2Projective::generator());
    let omega = F::get_root_of_unity(n).unwrap();
    let shift = F::get_root_of_unity(2 * n).unwrap();
    // the Lagrange polynomials of a coset of the domain, at tau
    let lagrange = |g: F, i: u64| {
        let x = g * omega.pow([i]);
        let gn = g.pow([n]);
        x * (tau.pow([n]) - gn) / (F::from(n) * gn * (tau - x))
    };
    let l = |i: u64| lagrange(F::ONE, i);
    let z = tau.pow([n]) - F::ONE;
    let a = [l(1), l(2), -l(0), F::ZERO];
    let b = [F::ZERO, F::ZERO, F::ZERO, l(0)];
    let c = [F::ZERO, -l(0), F::ZERO, F::ZERO];
    let combined = |j: usize| beta * a[j] + alpha * b[j] + c[j];
    let mut header = 32u32.to_le_bytes().to_vec();
    header.extend(raw(ark_bn254::Fq::MODULUS.0));
    header.extend(32u32.to_le_bytes());
    header.extend(raw(F::MODULUS.0));
    for v in [4u32, 1, 4] {
        header.extend(v.to_le_bytes());
    }
    header.extend(g1_bytes(g1 * alpha));
    header.extend(g1_bytes(g1 * beta));
    header.extend(g2_bytes(g2 * beta));
    header.extend(g2_bytes(g2 * gamma));
    header.extend(g1_bytes(g1 * delta));
    header.extend(g2_bytes(g2 * delta));
    let r = F::from(2u64).pow([256u64]);
    let mut coefficients = 4u32.to_le_bytes().to_vec();
    for (m, c, s, v) in [
        (0u32, 0u32, 2u32, -F::ONE),
        (1, 0, 3, F::ONE),
        (0, 1, 0, F::ONE),
        (0, 2, 1, F::ONE),
    ] {
        coefficients.extend(m.to_le_bytes());
        coefficients.extend(c.to_le_bytes());
        coefficients.extend(s.to_le_bytes());
        coefficients.extend(raw((v * r).0 .0));
    }
    let mut file = b"zkey".to_vec();
    file.extend(1u32.to_le_bytes());
    file.extend(10u32.to_le_bytes());
    file.extend(section(1, 1u32.to_le_bytes().to_vec()));
    file.extend(section(2, header));
    file.extend(section(3, (0..2).flat_map(|j| g1_bytes(g1 * (combined(j) / gamma))).collect()));
    file.extend(section(4, coefficients));
    file.extend(section(5, a.iter().flat_map(|v| g1_bytes(g1 * v)).collect()));
    file.extend(section(6, b.iter().flat_map(|v| g1_bytes(g1 * v)).collect()));
    file.extend(section(7, b.iter().flat_map(|v| g2_bytes(g2 * v)).collect()));
    file.extend(section(8, (2..4).flat_map(|j| g1_bytes(g1 * (combined(j) / delta))).collect()));
    let half = -z / (F::from(2u64) * delta);
    file.extend(section(
        9,
        (0..n).flat_map(|i| g1_bytes(g1 * (lagrange(shift, i) * half))).collect(),
    ));
    file.extend(section(10, vec![0; 4]));
    file
}

/// The witness file with `a = 3`, `b = 11`.
fn fixture_wtns() -> Vec<u8> {
    let mut header = 32u32.to_le_bytes().to_vec();
    header.extend(raw(ark_bn254::Fr::MODULUS.0));
    header.extend(4u32.to_le_bytes());
    let values = [1u64, 33, 3, 11].iter().flat_map(|v| raw([*v, 0, 0, 0])).collect();
    let mut file = b"wtns".to_vec();
    file.extend(2u32.to_le_bytes());
    file.extend(2u32.to_le_bytes());
    file.extend(section(1, header));
    file.extend(section(2, values));
    file
}

fn dec<T: ark_ff::PrimeField>(v: &serde_json::Value) -> T {
    T::from_str(v.as_str().unwrap()).ok().unwrap()
}

fn json_g1(v: &serde_json::Value) -> ark_bn254::G1Affine {
    if v[2] == "0" {
        return ark_bn254::G1Affine::identity();
    }
    assert_eq!(v[2], "1");
    ark_bn254::G1Affine::new(dec(&v[0]), dec(&v[1]))
}

fn json_g2(v: &serde_json::Value) -> ark_bn254::G2Affine {
    let c = |v: &serde_json::Value| ark_bn254::Fq2::new(dec(&v[0]), dec(&v[1]));
    if v[2][0] == "0" {
        return ark_bn254::G2Affine::identity();
    }
    ark_bn254::G2Affine::new(c(&v[0]), c(&v[1]))
}

/// The verifier's outcome on the two files of an answer.
fn accepted(zkey: &[u8], answer: &Answer) -> Result<(), String> {
    let z = Zkey::parse(zkey).unwrap();
    let vk: serde_json::Value = serde_json::from_str(&verifying_key_json(&z)).unwrap();
    let proof: serde_json::Value = serde_json::from_str(&answer.proof).unwrap();
    let public: Vec<String> = serde_json::from_str(&answer.public).unwrap();
    let key = ark_groth16::VerifyingKey::<ark_bn254::Bn254> {
        alpha_g1: json_g1(&vk["vk_alpha_1"]),
        beta_g2: json_g2(&vk["vk_beta_2"]),
        gamma_g2: json_g2(&vk["vk_gamma_2"]),
        delta_g2: json_g2(&vk["vk_delta_2"]),
        gamma_abc_g1: vk["IC"].as_array().unwrap().iter().map(json_g1).collect(),
    };
    let pvk = ark_groth16::prepare_verifying_key(&key);
    let p = ark_groth16::Proof {
        a: json_g1(&proof["pi_a"]),
        b: json_g2(&proof["pi_b"]),
        c: json_g1(&proof["pi_c"]),
    };
    let inputs: Vec<ark_bn254::Fr> =
        public.iter().map(|v| ark_bn254::Fr::from_str(v).ok().unwrap()).collect();
    match ark_groth16::Groth16::<ark_bn254::Bn254>::verify_proof(&pvk, &p, &inputs).unwrap() {
        true => Ok(()),
        false => Err("Invalid proof".to_string()),
    }
}

fn fixture() -> Fixture {
    Fixture::of_files(&fixture_zkey(), &fixture_wtns()).ok().unwrap()
}

/// The fixture's witness as the boundary receives it (32-byte little-endian values).
fn witness_bytes() -> Vec<u8> {
    parse_wtns(&fixture_wtns()).unwrap().iter().flat_map(|w| w.to_le_bytes()).collect()
}

fn scalars() -> (Fr, Fr) {
    (Fr::from_u64(0x1234_5678), Fr::from_u64(0x9abc_def0))
}

#[test]
fn records_have_the_measured_layouts() {
    let one = <Fr as Field>::one();
    assert_eq!(pack::pack_fr(&[one]).len(), 32);
    assert_eq!(pack::pack_fr(&[one])[..32], pack::fr_bytes(&one));
    let c = GroupedCoeff { signal: 167, value: one };
    let rec = pack::pack_coeffs(&[c]);
    assert_eq!(rec.len(), 48);
    assert_eq!(u32::from_le_bytes(rec[0..4].try_into().unwrap()), 167);
    assert_eq!(rec[16..48], pack::fr_bytes(&one));
    assert!(rec[4..16].iter().all(|b| *b == 0));
    let g = Affine::new(<Fp as Field>::one(), Fp::from_u64(2));
    let pg = pack::pack_g1(&[g, Affine::infinity()]);
    assert_eq!(pg.len(), 128);
    assert!(pg[64..].iter().all(|b| *b == 0), "infinity packs as zeros");
    assert_eq!(
        pack::unpack_fr(&pack::pack_fr(&[one, Fr::from_u64(7)])),
        vec![one, Fr::from_u64(7)]
    );
    let j = Jacobian { x: <Fp as Field>::one(), y: Fp::from_u64(2), z: Fp::from_u64(3) };
    let mut bytes = Vec::new();
    for v in [&j.x, &j.y, &j.z] {
        for l in v.montgomery_limbs() {
            bytes.extend_from_slice(&l.to_le_bytes());
        }
    }
    assert_eq!(pack::unpack_jac_g1(&bytes)[0], j);
}

#[test]
fn every_layout_reads_back() {
    let c = Cases::new();
    assert_eq!(pack::unpack_coeffs(&pack::pack_coeffs(&c.coeffs)), c.coeffs);
    assert_eq!(pack::unpack_u32(&pack::pack_u32(&c.order)), c.order);
    assert_eq!(pack::unpack_canonical(&pack::pack_canonical(&c.wide)), c.wide_canonical());
    let g1 = pack::unpack_g1(&pack::pack_g1(&c.g1));
    assert_eq!(g1, c.g1);
    assert!(g1[8].infinity && !g1[9].infinity);
    assert_eq!(pack::pack_g2(&c.g2).len(), 128 * c.g2.len());
    assert_eq!(pack::unpack_g2(&pack::pack_g2(&c.g2)), c.g2);
    let (j1, j2) = (c.bucket_sums_g1(), c.bucket_sums_g2());
    assert_eq!(pack::unpack_jac_g1(&pack::pack_jac_g1(&j1)), j1);
    assert_eq!(pack::unpack_jac_g2(&pack::pack_jac_g2(&j2)), j2);
    assert!(pack::is_infinity(&j1[1]) && !pack::is_infinity(&j1[0]));
    // 0x0403_0201, little-endian
    assert_eq!(pack::pack_u32(&[0x0403_0201]), [1, 2, 3, 4]);
}

#[test]
fn host_buffers_hold_what_they_were_given() {
    let b = HostBackend::default();
    let buf = b.upload(&[1, 2, 3]);
    assert_eq!(b.read(&buf, 2), [1, 2]);
    assert_eq!(b.len(&buf), 16);
    assert_eq!(b.len(&b.upload(&[7; 40])), 40);
    let mut out = b.allocate(32);
    assert_eq!(b.read(&out, 32), [0; 32]);
    let (x, y) = (Fr::from_u64(6), Fr::from_u64(7));
    let (xb, yb) = (b.upload(&pack::pack_fr(&[x])), b.upload(&pack::pack_fr(&[y])));
    let call = Call::PointwiseMul { a: &xb, b: &yb };
    assert_eq!(call.name(), "pointwise_mul");
    b.run(&call, 1, &mut out);
    assert_eq!(pack::unpack_fr(&b.read(&out, 32)), [Fr::from_u64(42)]);
    assert_eq!(b.describe(), "the kernels on the CPU, one thread index at a time");
}

#[test]
fn cases_are_self_consistent() {
    let c = Cases::new();
    assert_eq!(c.g1.len(), 10);
    assert!(c.g1[8].infinity);
    assert_eq!(c.g1[9], c.g1[0].neg());
    assert_eq!(c.buckets(), 5);
    let sums = c.bucket_sums_g1();
    // {∞}, {G,−G}, {} are all infinity; {G,2G,3G} = 6G
    assert!(sums[1].is_infinity() && sums[2].is_infinity() && sums[3].is_infinity());
    assert_eq!(
        sums[0].to_affine(),
        g1_generator().to_jacobian().mul(&Fr::from_u64(6)).to_affine()
    );
    assert!(!c.bucket_sums_g2()[0].is_infinity());
    // every window has a non-zero digit somewhere on full-width scalars
    for w in 0..WINDOWS {
        assert!(c.digits(w).iter().any(|&d| d != 0), "window {w}");
    }
    // digits_all is the windows' digits concatenated
    let all = c.digits_all();
    for w in 0..WINDOWS as usize {
        assert_eq!(&all[w * c.n..(w + 1) * c.n], &c.digits(w as u32)[..]);
    }
}

#[test]
fn fixture_proof_is_reproducible() {
    let f = fixture();
    assert_eq!(f.expected(), f.expected());
    assert!(proof_diff(&f.expected(), &f).is_empty());
    let mut other = f.expected();
    other.c = other.c.neg();
    assert!(proof_diff(&other, &f)
        .starts_with("proof differs from the core prover's on the fixture: got Proof { a: "));
}

#[test]
fn a_fixture_that_cannot_be_used_says_why() {
    let (zkey, wtns) = (fixture_zkey(), fixture_wtns());
    assert_eq!(
        Fixture::of_files(&zkey[..3], &wtns).err(),
        Some(FixtureError::Zkey(ZkeyError::Truncated { at: 0 }))
    );
    assert!(matches!(Fixture::of_files(&zkey, &wtns[..40]), Err(FixtureError::Witness(_))));
}

/// The kernels of the library run on the CPU in the place of a device's shaders.
#[test]
fn shaders_on_the_cpu_agree_with_the_rust_bodies_down_to_a_fixture_proof() {
    let prover = Prover::with_backend(HostBackend);
    let f = fixture();
    assert!(pipeline::is_launchable(&f.zkey));
    assert!(is_addressable(&f.zkey, f.zkey.coefficients.len()));
    let checks = prover.kernel_check(&f);
    assert_eq!(checks.len(), 15, "12 kernels, 2 MSMs, 1 proof");
    for (c, name) in checks.iter().zip(CHECKS) {
        assert_eq!(c.kernel, name);
        assert!(c.ok, "{}: {}", c.kernel, c.detail);
    }
    assert_eq!(CHECKS[..12], KERNELS);
}

/// The kernels on the CPU, with every byte that one of them leaves replaced.
struct Broken(&'static str);

impl Backend for Broken {
    type Buf = HostBuf;

    fn upload(&self, bytes: &[u8]) -> HostBuf {
        HostBackend.upload(bytes)
    }

    fn allocate(&self, bytes: usize) -> HostBuf {
        HostBackend.allocate(bytes)
    }

    fn read(&self, buf: &HostBuf, bytes: usize) -> Vec<u8> {
        HostBackend.read(buf, bytes)
    }

    fn len(&self, buf: &HostBuf) -> usize {
        HostBackend.len(buf)
    }

    fn run(&self, call: &Call<'_, HostBuf>, n: usize, out: &mut HostBuf) {
        HostBackend.run(call, n, out);
        if call.name() == self.0 {
            let bytes = match self.0 {
                "digits_all" => vec![0xff; 4 * n],
                _ => vec![0; 32 * n],
            };
            *out = HostBackend.upload(&bytes);
        }
    }

    fn describe(&self) -> String {
        "broken".to_string()
    }
}

/// The results that are no agreement, by name, and the first and the last of their details.
fn complaints(kernel: &'static str) -> (Vec<&'static str>, String, String) {
    let f = fixture();
    let r = Prover::with_backend(Broken(kernel)).kernel_check(&f);
    assert_eq!(r.len(), 15);
    assert!(r.iter().all(|k| k.ok == k.detail.is_empty()));
    let bad: Vec<&KernelCheck> = r.iter().filter(|k| !k.ok).collect();
    (
        bad.iter().map(|k| k.kernel).collect(),
        bad[0].detail.clone(),
        bad[bad.len() - 1].detail.clone(),
    )
}

#[test]
fn a_device_that_leaves_something_else_is_named() {
    let (names, first, last) = complaints("pointwise_mul");
    assert_eq!(names, ["pointwise_mul", "proof (fixture)"]);
    assert!(first.starts_with("first difference at index 0: got Fr(0x00"), "{first}");
    assert!(last.starts_with("proof differs from the core prover's on the fixture"), "{last}");
    let (names, first, _) = complaints("bit_reverse");
    assert_eq!(names, ["bit_reverse", "proof (fixture)"]);
    assert!(first.starts_with("first difference at index 0"), "{first}");
    let (names, first, last) = complaints("digits_all");
    assert_eq!(names, ["digits_all", "msm (g1)", "msm (g2)", "proof (fixture)"]);
    assert!(first.starts_with("first difference at index 0: got 4294967295"), "{first}");
    assert_eq!(last, "prove failed: a digit has no bucket");
    let device = Prover::with_backend(Broken("digits_all"));
    let c = Cases::new();
    let points = device.backend().upload(&pack::pack_g1(&c.msm_g1));
    assert!(device.sum::<Fp>(&points, &c.msm_scalars).is_none());
    let f = fixture();
    let groups = CoefficientGroups::from_zkey(&f.zkey);
    let resident = device.prepare(&f.zkey, &groups);
    let (r, s) = scalars();
    assert!(matches!(device.attempt(&resident, &f.witness, &r, &s), Err(Fault::Digit)));
    assert!(matches!(device.attempt(&resident, &f.witness[..3], &r, &s), Err(Fault::Prove(_))));
}

#[test]
fn a_wrong_or_missing_output_is_named() {
    let c = Cases::new();
    let f = fixture();
    let mut fr = c.pointwise_mul();
    fr[3] = Fr::from_u64(1);
    let mut windows: Vec<Vec<u32>> = (0..WINDOWS).map(|w| c.digits(w)).collect();
    windows[2][0] ^= 1;
    windows[21].pop();
    let mut g1 = c.bucket_sums_g1();
    g1[0] = Jacobian::infinity();
    let o = Outputs {
        scatter_group: Ok(c.scatter()),
        pointwise_mul: Ok(fr),
        pointwise_mul_sub: Err("no device".to_string()),
        pointwise_scale: Ok(c.pointwise_scale()[..63].to_vec()),
        bit_reverse: Ok(c.bit_reverse()),
        ntt_stage: Ok(c.ntt_stage()),
        digits: Ok(windows),
        digits_all: Ok(c.digits_all()),
        bucket_sum_g1: Ok(g1),
        bucket_sum_g2: Ok(c.bucket_sums_g2()),
        jacobian_sum_g1: Ok(c.jacobian_sums_g1()),
        jacobian_sum_g2: Err("lost".to_string()),
        msm_g1: Ok(c.msm_g1()),
        msm_g2: Ok(c.msm_g2()),
        proof: Err(NoProof::Pipeline("no witness".to_string())),
    };
    let r = judge(&c, &f, &o);
    let ok: Vec<bool> = r.iter().map(|k| k.ok).collect();
    let t = true;
    assert_eq!(
        ok,
        [t, false, false, false, t, t, false, t, false, t, t, false, t, t, false]
    );
    assert!(r[1].detail.starts_with("first difference at index 3: got Fr(0x00"), "{}", r[1].detail);
    assert_eq!(r[2].detail, "launch failed: no device");
    assert_eq!(r[3].detail, "63 outputs, expected 64");
    assert_eq!(r[6].detail, "windows [2, 21] differ");
    assert!(r[8].detail.starts_with("first difference at index 0: got Affine"), "{}", r[8].detail);
    assert!(r[8].detail.ends_with(" (affine forms compared)"));
    assert_eq!(r[11].detail, "launch failed: lost");
    assert_eq!(r[14].detail, "prove failed: no witness");
    let o = Outputs { proof: Err(NoProof::Launch("no witness".to_string())), ..o };
    let r = judge(&c, &f, &o);
    assert!(!r[14].ok);
    assert_eq!(r[14].detail, "launch failed: prove failed: no witness");
    let without = judge_without_ranges(&c, &f, &o);
    assert_eq!(without.len(), 13);
    for (k, want) in without.iter().zip(r[..10].iter().chain(&r[12..])) {
        assert_eq!((k.kernel, k.ok, &k.detail), (want.kernel, want.ok, &want.detail));
    }
    let k = KernelCheck::from_result("digits", Err("gone".to_string()));
    assert!(!k.ok);
    assert_eq!(k.detail, "launch failed: gone");
}

#[test]
fn points_with_unreduced_coordinates_are_compared_by_the_forms_they_reduce_to() {
    let c = Cases::new();
    let f = fixture();
    let fields = c.pointwise_mul();
    let raw = Fp::from_montgomery_limbs([u64::MAX; 4]);
    let mut g1 = c.bucket_sums_g1();
    g1[1] = Jacobian { x: raw, y: Fp::one(), z: raw };
    let odd = Jacobian { x: Fp::one(), y: raw, z: Fp::one() };
    let gone = || Err("gone".to_string());
    let o = Outputs {
        scatter_group: gone(),
        pointwise_mul: Ok(fields),
        pointwise_mul_sub: gone(),
        pointwise_scale: gone(),
        bit_reverse: gone(),
        ntt_stage: gone(),
        digits: Err("gone".to_string()),
        digits_all: Err("gone".to_string()),
        bucket_sum_g1: Ok(g1.clone()),
        bucket_sum_g2: Err("gone".to_string()),
        jacobian_sum_g1: Err("gone".to_string()),
        jacobian_sum_g2: Err("gone".to_string()),
        msm_g1: Ok(odd),
        msm_g2: Err("gone".to_string()),
        proof: Err(NoProof::Pipeline("gone".to_string())),
    };
    let r = judge(&c, &f, &o);
    let (got, want) = (g1[1].to_affine(), c.bucket_sums_g1()[1].to_affine());
    assert!(!r[8].ok);
    assert_eq!(
        r[8].detail,
        format!(
            "first difference at index 1: got {}, want {} (affine forms compared)",
            got.show(),
            want.show()
        )
    );
    let (got, want) = (odd.to_affine(), c.msm_g1().to_affine());
    assert!(!r[12].ok);
    assert_eq!(
        r[12].detail,
        format!(
            "first difference at index 0: got {}, want {} (affine forms compared)",
            got.show(),
            want.show()
        )
    );
}

#[test]
fn digits_are_laid_out_and_bucket_sums_combined_as_the_sum() {
    let c = Cases::new();
    let digits = c.digits_all();
    let (order, starts) = laid_out(&digits, 64).unwrap();
    assert_eq!((order.clone(), starts.clone()), pipeline::sort_all_windows(&digits, 64, 4095));
    assert_eq!(starts.len(), 90091);
    let sums: Vec<Jacobian<Fp>> = starts
        .windows(2)
        .map(|w| {
            order[w[0] as usize..w[1] as usize]
                .iter()
                .fold(Jacobian::infinity(), |t, i| t.add_affine(&c.msm_g1[*i as usize]))
        })
        .collect();
    assert_eq!(combined(&sums), Some(c.msm_g1()));
    assert_eq!(combined(&sums[1..]), None);
    assert_eq!(laid_out(&digits, 63), None);
    assert_eq!(laid_out(&[], 0), None);
    let mut wide = digits.clone();
    wide[5] = 4096;
    assert_eq!(laid_out(&wide, 64), None);
    assert_eq!(laid_out(&[0; 22], 1).map(|x| x.0), Some(vec![]));
}

#[test]
fn an_attempt_answers_with_the_same_files_or_names_the_digit() {
    let zkey = Zkey::parse(&fixture_zkey()).unwrap();
    let groups = CoefficientGroups::from_zkey(&zkey);
    let (r, s) = scalars();
    let data = witness_bytes();
    let device = Prover::with_backend(HostBackend);
    let resident = device.prepare(&zkey, &groups);
    let want = Reference.answer(&zkey, &data, &r, &s).unwrap();
    assert_eq!(attempt_answer(&device, &resident, &data, &r, &s).unwrap(), want);
    let e = attempt_answer(&device, &resident, &data[..96], &r, &s).unwrap_err();
    assert!(matches!(
        e,
        AttemptError::Device(Fault::Prove(ProveError::WitnessLength { expected: 4, found: 3 }))
    ));
    let mut bad = data.clone();
    bad[32..64].copy_from_slice(&[0xff; 32]);
    let e = attempt_answer(&device, &resident, &bad, &r, &s).unwrap_err();
    assert!(matches!(e, AttemptError::Witness(1)));
    assert_eq!(e.message(), "witness value 1 is not a field element");
    let device = Prover::with_backend(Broken("digits_all"));
    let resident = device.prepare(&zkey, &groups);
    let e = attempt_answer(&device, &resident, &data, &r, &s).unwrap_err();
    assert!(matches!(e, AttemptError::Device(Fault::Digit)));
    assert_eq!(e.message(), "a digit has no bucket");
}

#[test]
fn resident_and_streaming_proofs_are_the_reference_proof() {
    let f = fixture();
    let (r, s) = scalars();
    let want = prove(&f.zkey, &f.witness, &r, &s).unwrap();
    let groups = CoefficientGroups::from_zkey(&f.zkey);
    let device = Prover::with_backend(HostBackend);
    let resident = device.prepare(&f.zkey, &groups);
    assert_eq!((resident.num_vars(), resident.num_public()), (4, 1));
    // coefficients 3·48 and 48, starts 4·4 and 2·4 (at least 16), tables 2·64 and 128,
    // points 4·64, 4·64, 2·64, 4·64 and 4·128
    assert_eq!(
        device.resident_bytes(&resident),
        144 + 16 + 48 + 16 + 2 * 64 + 128 + 256 + 256 + 128 + 256 + 512
    );
    assert_eq!(device.prove_resident(&resident, &f.witness, &r, &s), Ok(want.clone()));
    assert_eq!(device.prove_streaming(&f.zkey, &groups, &f.witness, &r, &s), Ok(want.clone()));
    let wrong = [f.witness.clone(), vec![<Fr as Field>::one()]].concat();
    assert_eq!(
        device.prove_resident(&resident, &wrong, &r, &s),
        Err(ProveError::WitnessLength { expected: 4, found: 5 })
    );
    let mut wrong = f.witness.clone();
    wrong[0] = Fr::from_u64(2);
    assert_eq!(
        device.prove_streaming(&f.zkey, &groups, &wrong, &r, &s),
        Err(ProveError::WitnessConstant)
    );
}

#[test]
fn an_owned_key_is_prepared_alike() {
    let f = fixture();
    let (r, s) = scalars();
    let want = prove(&f.zkey, &f.witness, &r, &s).unwrap();
    let device = Prover::with_backend(HostBackend);
    let mut zkey = Zkey::parse(&fixture_zkey()).unwrap();
    let groups = CoefficientGroups::from_zkey(&zkey);
    zkey.coefficients = Vec::new();
    let resident = device.prepare_owned(zkey, groups);
    assert_eq!(device.prove_resident(&resident, &f.witness, &r, &s), Ok(want));
}

#[test]
fn a_sum_with_zero_scalars_alone_is_the_identity() {
    let c = Cases::new();
    let device = Prover::with_backend(HostBackend);
    let points = device.backend().upload(&pack::pack_g1(&c.msm_g1));
    let zeros = vec![<Fr as Field>::zero(); 64];
    let sum: Jacobian<Fp> = device.msm(&points, &zeros);
    assert!(sum.is_infinity());
    let mut ones = zeros;
    ones[5] = <Fr as Field>::one();
    let sum: Jacobian<Fp> = device.msm(&points, &ones);
    assert_eq!(sum.to_affine(), c.msm_g1[5]);
}

/// What one kind of prover answers on the fixture, and the verifier's outcome.
fn through(kind: &str, data: &[u8]) -> Result<(), String> {
    let mut zkey = Zkey::parse(&fixture_zkey()).unwrap();
    let (r, s) = scalars();
    let groups = CoefficientGroups::from_zkey(&zkey);
    let answer = match kind {
        "reference" => Reference.answer(&zkey, data, &r, &s),
        "oxide-cpu" => {
            zkey.coefficients = Vec::new();
            OxideCpu.answer(&SerialLauncher, &zkey, &groups, data, &r, &s)
        }
        _ => {
            let device = Prover::with_backend(HostBackend);
            let resident = device.prepare(&zkey, &groups);
            MetalCpu.answer(&device, &resident, data, &r, &s)
        }
    };
    match answer {
        Ok(a) => accepted(&fixture_zkey(), &a),
        Err(e) => Err(e.message()),
    }
}

/// The proof verifies; an unsatisfied witness is refused by the verifier; a value that is no
/// field element is refused before proving.
fn three_properties(kind: &str) {
    through(kind, &witness_bytes()).expect("the proof must verify");
    let mut bytes = witness_bytes();
    bytes[32] = 34; // c = 34 while a·b = 33
    let err = through(kind, &bytes).expect_err("must not verify");
    assert!(err.contains("Invalid proof"), "{err}");
    let mut bytes = witness_bytes();
    bytes[32..64].copy_from_slice(&[0xff; 32]);
    let err = through(kind, &bytes).expect_err("must be refused");
    assert!(err.contains("witness value 1"), "{err}");
}

#[test]
fn metal_cpu_through_the_boundary() {
    three_properties("metal-cpu");
}

#[test]
fn oxide_cpu_through_the_boundary() {
    three_properties("oxide-cpu");
}

#[test]
fn reference_backend_output_verifies_under_the_upstream_verifier() {
    through("reference", &witness_bytes()).expect("the reference proof must verify");
}

#[test]
fn an_unsatisfied_witness_yields_a_proof_the_verifier_rejects() {
    let mut bytes = witness_bytes();
    bytes[32] = 34; // c = 34 while a·b = 33
    let err = through("reference", &bytes).expect_err("must not verify");
    assert!(err.contains("Invalid proof"), "{err}");
}

#[test]
fn a_non_field_witness_value_is_rejected_before_proving() {
    let mut bytes = witness_bytes();
    bytes[32..64].copy_from_slice(&[0xff; 32]);
    let err = through("reference", &bytes).expect_err("must be rejected");
    assert!(err.contains("witness value 1"), "{err}");
}

#[test]
fn every_kind_answers_with_the_same_files() {
    let zkey = Zkey::parse(&fixture_zkey()).unwrap();
    let groups = CoefficientGroups::from_zkey(&zkey);
    let (r, s) = scalars();
    let data = witness_bytes();
    let device = Prover::with_backend(HostBackend);
    let want = Reference.answer(&zkey, &data, &r, &s).unwrap();
    assert_eq!(want.public, "[\"33\"]");
    assert_eq!(
        streaming_answer(&device, &zkey, &groups, &data, &r, &s),
        Ok(want.clone())
    );
    let resident = device.prepare(&zkey, &groups);
    assert_eq!(
        resident_answer(&device, &resident, &data[..96], &r, &s),
        Err(AnswerError::Prove(ProveError::WitnessLength { expected: 4, found: 3 }))
    );
    assert_eq!(
        Reference.answer(&zkey, &data[..96], &r, &s),
        Err(AnswerError::Prove(ProveError::WitnessLength { expected: 4, found: 3 }))
    );
    let mut wrong = data.clone();
    wrong[0] = 2;
    assert_eq!(
        Reference.answer(&zkey, &wrong, &r, &s),
        Err(AnswerError::Prove(ProveError::WitnessConstant))
    );
    assert_eq!(AnswerError::Witness(12).message(), "witness value 12 is not a field element");
}

/// Run the transform program over four host buffers.
fn host_transform(a: &[Fr], b: &[Fr]) -> Vec<Fr> {
    let n = a.len();
    let t = Tables::new(n);
    let zero = vec![<Fr as Field>::zero(); n];
    let mut slots = [a.to_vec(), b.to_vec(), zero.clone(), zero];
    let program = transform_program(n as u32);
    for launch in &program.launches {
        let (out, dst): (Vec<Fr>, usize) = match *launch {
            Launch::Mul { a, b, dst } => {
                ((0..n).map(|i| kernels::pointwise_mul(i, &slots[a], &slots[b])).collect(), dst)
            }
            Launch::MulSub { a, b, c, dst } => (
                (0..n)
                    .map(|i| kernels::pointwise_mul_sub(i, &slots[a], &slots[b], &slots[c]))
                    .collect(),
                dst,
            ),
            Launch::Stage { step, src, dst } => {
                let x = &slots[src];
                let one = |i: usize| match step {
                    Step::BitReverse { .. } => kernels::bit_reverse(i, x, t.lg_n),
                    Step::NttStage { len, stride, twiddles, .. } => {
                        let table = match twiddles {
                            Twiddles::Inverse => &t.inverse,
                            Twiddles::Forward => &t.forward,
                        };
                        kernels::ntt_stage(i, x, len as usize, table, stride as usize)
                    }
                    Step::Scale { .. } => {
                        kernels::pointwise_scale(i, x, &t.shift_powers).mul(&t.n_inv)
                    }
                };
                ((0..n).map(one).collect(), dst)
            }
        };
        slots[dst] = out;
    }
    slots[program.result].clone()
}

fn host_sums<F: Field>(points: &[Affine<F>], x: &Session) -> Vec<Jacobian<F>> {
    (0..x.starts.len() - 1).map(|b| kernels::bucket_sum(b, points, &x.order, &x.starts)).collect()
}

/// Perform the work of a session with the kernel bodies; the works in order.
fn converse(z: &Zkey, g: &CoefficientGroups, mut x: Session) -> (Vec<Work>, Session) {
    let scatter = |c: &[GroupedCoeff], s: &[u32], n: usize, w: &[Fr]| {
        Reply::Values((0..n).map(|i| kernels::scatter_group(i, c, s, w)).collect())
    };
    let mut works = Vec::new();
    while x.at != Work::Done {
        works.push(x.at);
        let reply = match x.at {
            Work::ScatterA => scatter(&g.a, &g.a_starts, g.a_constraint.len(), &x.witness),
            Work::ScatterB => scatter(&g.b, &g.b_starts, g.b_constraint.len(), &x.witness),
            Work::Transform => Reply::Values(host_transform(&x.a_poly, &x.b_poly)),
            Work::Digits(_) => Reply::Digits(
                (0..22 * x.canonical.len())
                    .map(|i| kernels::digit_all(i, &x.canonical, 12))
                    .collect(),
            ),
            Work::Sums(Query::H) => Reply::G1(host_sums(&z.h, &x)),
            Work::Sums(Query::A) => Reply::G1(host_sums(&z.a, &x)),
            Work::Sums(Query::B1) => Reply::G1(host_sums(&z.b1, &x)),
            Work::Sums(Query::C) => Reply::G1(host_sums(&z.c, &x)),
            Work::Sums(Query::B2) => Reply::G2(host_sums(&z.b2, &x)),
            Work::Done => unreachable!(),
        };
        assert!(x.accepts(&reply));
        x = x.step(reply);
    }
    (works, x)
}

#[test]
fn a_session_of_the_kernel_bodies_ends_in_the_reference_proof() {
    let f = fixture();
    let g = CoefficientGroups::from_zkey(&f.zkey);
    let x = Session::start(&f.zkey, &g.a_constraint, &g.b_constraint, &f.witness, &f.r, &f.s)
        .ok()
        .unwrap();
    let (works, x) = converse(&f.zkey, &g, x);
    let mut want = vec![Work::ScatterA, Work::ScatterB, Work::Transform];
    for q in [Query::H, Query::A, Query::B1, Query::B2, Query::C] {
        want.extend([Work::Digits(q), Work::Sums(q)]);
    }
    assert_eq!(works, want);
    assert_eq!(x.finish(), prove(&f.zkey, &f.witness, &f.r, &f.s).unwrap());
}

#[test]
fn a_session_refuses_a_witness_and_passes_over_an_empty_sum() {
    let f = fixture();
    let g = CoefficientGroups::from_zkey(&f.zkey);
    let start =
        |w: &[Fr]| Session::start(&f.zkey, &g.a_constraint, &g.b_constraint, w, &f.r, &f.s);
    let n = f.zkey.num_vars;
    assert_eq!(
        start(&f.witness[1..]).err(),
        Some(ProveError::WitnessLength { expected: n, found: n - 1 })
    );
    let mut w = f.witness.clone();
    w[0] = Fr::from_u64(2);
    assert_eq!(start(&w).err(), Some(ProveError::WitnessConstant));
    // zero private inputs: no bucket of C has a point
    let mut w = f.witness.clone();
    for v in &mut w[f.zkey.num_public + 1..] {
        *v = <Fr as Field>::zero();
    }
    let (works, x) = converse(&f.zkey, &g, start(&w).ok().unwrap());
    assert!(works.contains(&Work::Digits(Query::C)) && !works.contains(&Work::Sums(Query::C)));
    assert_eq!(x.finish(), prove(&f.zkey, &w, &f.r, &f.s).unwrap());
}

#[test]
fn a_session_expects_the_kind_and_the_size_of_its_work() {
    let f = fixture();
    let g = CoefficientGroups::from_zkey(&f.zkey);
    let x = Session::start(&f.zkey, &g.a_constraint, &g.b_constraint, &f.witness, &f.r, &f.s)
        .ok()
        .unwrap();
    let k = g.a_constraint.len();
    let zeros = |n: usize| Reply::Values(vec![<Fr as Field>::zero(); n]);
    assert!(x.accepts(&zeros(k)));
    assert!(!x.accepts(&zeros(k + 1)));
    assert!(!x.accepts(&Reply::Digits(vec![0; k])));
    assert!(!x.accepts(&Reply::G1(Vec::new())));
}

#[test]
fn the_transform_program_computes_the_quotient_in_four_buffers() {
    for lg in 1..6u32 {
        let n = 1usize << lg;
        let p = transform_program(n as u32);
        assert_eq!(p.launches.len(), 2 + 3 * (2 * (lg as usize + 1) + 1));
        assert!(p.result < 4);
        let a: Vec<Fr> = (0..n).map(|i| Fr::from_u64(3 * i as u64 + 1)).collect();
        let b: Vec<Fr> = (0..n).map(|i| Fr::from_u64(7 * i as u64 + 2)).collect();
        let t = Tables::new(n);
        let c: Vec<Fr> = a.iter().zip(&b).map(|(x, y)| x.mul(y)).collect();
        let l = SerialLauncher;
        let coset = |v: Vec<Fr>| pipeline::h_to_coset(&l, v, &t);
        let (ac, bc, cc) = (coset(a.clone()), coset(b.clone()), coset(c));
        let want: Vec<Fr> =
            (0..n).map(|i| ac[i].mul(&bc[i]).sub(&cc[i])).collect();
        assert_eq!(host_transform(&a, &b), want, "n = {n}");
    }
}

#[test]
fn a_witness_file_crosses_the_boundary_unchanged() {
    let wtns = fixture_wtns();
    let bytes = boundary_witness(&wtns).unwrap();
    assert_eq!(bytes, witness_bytes());
    assert_eq!(bytes, pack::pack_canonical(&parse_wtns(&wtns).unwrap()));
    assert_eq!(parse_witness_values(&bytes).unwrap(), parse_wtns(&wtns).unwrap());
    assert_eq!(boundary_witness(&wtns[..3]).err(), Some(WtnsError::Truncated));
    let mut bad = wtns.clone();
    bad[0] ^= 1;
    assert_eq!(boundary_witness(&bad).err(), Some(WtnsError::Magic));
}
