use groth16_prover::arguments::{parse_usize, ArgError, BenchOptions, RunArgs};
use groth16_prover::backend::{
    BackendKind, Groth16Backend, ProverParams, Registry, SelectError, SetupParams,
};
use groth16_prover::bench::{chunked, differing, is_measurable, xorshift, BenchData};
use groth16_prover::ec::Jacobian;
use groth16_prover::field::{Field, Fp, Fr};
use groth16_prover::generators::g1_generator;
use groth16_prover::kernels;
use groth16_prover::harness::{
    bit_flip, bit_flips, canonical_answers, canonical_output, canonical_verified, control_obstacle,
    cross_claim, foreign_claim, malformed_input, markdown, public_inputs_equal, rehearsal_file,
    rewrite_verified, row as row_from, substitutes, truncated, Arm, Arms, Canonical, ControlRun, Evidence, Foreign, Row, Tri,
};
use groth16_prover::module::{ModuleForm, ModuleSource};
use groth16_prover::random::{random_scalar, scalar_from_bytes, scalar_of_drawn, RandomError};

fn strings(s: &[&str]) -> Vec<String> {
    s.iter().map(|x| x.to_string()).collect()
}

fn err(e: &str) -> Result<(), String> {
    Err(e.to_string())
}

#[test]
fn a_flipped_bit_is_in_each_part_of_the_seal() {
    let seal = [0u8; 256];
    let variants = bit_flips(&seal).ok().unwrap();
    for (v, at) in variants.iter().zip([31, 95, 223]) {
        assert_eq!(v.len(), 256);
        for (i, b) in v.iter().enumerate() {
            assert_eq!(*b, u8::from(i == at), "byte {i}");
        }
    }
    assert_eq!(
        bit_flips(&seal[..3]).err().unwrap().cell(),
        "not run (seal is 3 bytes, expected 256)"
    );
    assert!(!bit_flip([false, false, false]).survived());
    assert_eq!(
        bit_flip([false, true, true]).cell(),
        "**SURVIVED** (a bit flipped in pi_b still verified)"
    );
}

#[test]
fn a_foreign_claim_differs_from_the_own() {
    let own = [5u8; 32];
    assert!(matches!(foreign_claim(&own, Some(&[6; 32])), Foreign::Other));
    let mut flipped = own;
    flipped[0] = 4;
    match foreign_claim(&own, Some(&own)) {
        Foreign::SameDigest(d) => assert_eq!(d, flipped),
        _ => panic!("the other case has the same digest"),
    }
    match foreign_claim(&own, None) {
        Foreign::NoOther(d) => assert_eq!(d, flipped),
        _ => panic!("there is no other case"),
    }
    assert_eq!(
        cross_claim(&Foreign::Other, &Ok(())).cell(),
        "**SURVIVED** (verified against a foreign claim (another case's claim))"
    );
    assert_eq!(
        cross_claim(&Foreign::Other, &err("no")).cell(),
        "killed (rejected against another case's claim: no)"
    );
}

#[test]
fn the_control_arm_names_what_stands_in_its_way() {
    let (canonical, metal) = (BackendKind::Canonical, BackendKind::Metal);
    let reference = BackendKind::Reference;
    assert_eq!(
        control_obstacle(metal, metal, &[metal]).unwrap().cell(),
        "not run (control and rewrite are the same kind (metal))"
    );
    assert!(control_obstacle(canonical, metal, &[metal]).is_some());
    assert_eq!(
        control_obstacle(canonical, metal, &[canonical, metal]).unwrap().cell(),
        "not run (cannot rebuild a registry with `canonical` in this harness)"
    );
    assert!(control_obstacle(reference, metal, &[reference, metal]).is_none());
    assert_eq!(
        canonical_answers(canonical, metal, &ControlRun::Substituted).cell(),
        "**SURVIVED** (a registry without `metal` still selected it)"
    );
    assert_eq!(
        canonical_answers(canonical, metal, &ControlRun::Failed("x".to_string())).cell(),
        "not run (control run failed: x)"
    );
    assert_eq!(
        canonical_answers(canonical, metal, &ControlRun::Ran(reference, Ok(()))).cell(),
        "**SURVIVED** (asked for `canonical`, registry ran `reference`)"
    );
    assert_eq!(
        canonical_answers(canonical, metal, &ControlRun::Ran(canonical, Ok(()))).cell(),
        "killed (control `canonical` answered and verified; registry reported `canonical`; a \
         registry without `metal` refuses it)"
    );
    assert!(canonical_answers(canonical, metal, &ControlRun::Ran(canonical, err("bad"))).survived());
}

#[test]
fn half_of_the_input_must_be_refused() {
    assert_eq!(truncated(&[1, 2, 3, 4, 5]), [1, 2]);
    assert_eq!(malformed_input(&Ok(())).cell(), "**SURVIVED** (a truncated receipt deserialized)");
    assert_eq!(
        malformed_input(&err("eof")).cell(),
        "killed (rejected before the boundary (bincode): eof)"
    );
}

#[test]
fn assertions_are_yes_no_or_not_run() {
    let digest = [9u8; 32];
    assert!(canonical_verified(&Canonical::Judged(Ok(()), digest)).passed());
    assert!(canonical_verified(&Canonical::Judged(err("no"), digest)).failed());
    assert!(!canonical_verified(&Canonical::Absent).passed());
    assert!(!canonical_verified(&Canonical::Absent).failed());
    assert!(canonical_verified(&Canonical::NotGroth16("kind".to_string())).failed());
    assert!(rewrite_verified(&Ok(())).passed());
    assert_eq!(
        rewrite_verified(&err("pairing")).cell(),
        "**no** (oracle rejected the rewrite's seal: pairing)"
    );
    assert!(public_inputs_equal(&Canonical::Judged(err("no"), digest), &digest).passed());
    assert!(public_inputs_equal(&Canonical::Judged(Ok(()), digest), &[8; 32]).failed());
    assert_eq!(
        public_inputs_equal(&Canonical::Absent, &digest).cell(),
        "not run (no canonical output to compare claims with)"
    );
}

fn row() -> Row {
    Row {
        case_id: "c1".to_string(),
        rewrite_kind: "metal".to_string(),
        canonical_verified: Tri::NotRun("none".to_string()),
        canonical_provenance: None,
        rewrite_verified: Tri::Yes,
        public_inputs_equal: Tri::Yes,
        arms: Arms {
            bit_flip: Arm::Killed("a".to_string()),
            cross_claim: Arm::Killed("b".to_string()),
            canonical_answers: Arm::NotRun("c".to_string()),
            malformed_input: Arm::Killed("d".to_string()),
        },
        derive_tenths: 123,
        prove_tenths: 7,
        oracle: "o".to_string(),
    }
}

#[test]
fn a_row_passes_unless_something_that_ran_failed() {
    assert!(row().passed());
    let mut r = row();
    r.arms.cross_claim = Arm::Survived("x".to_string());
    assert!(!r.passed());
    let mut r = row();
    r.rewrite_verified = Tri::NotRun("x".to_string());
    assert!(r.passed());
    r.rewrite_verified = Tri::No("x".to_string());
    assert!(!r.passed());
    let mut r = row();
    r.canonical_verified = Tri::No("x".to_string());
    assert!(!r.passed());
    let table = markdown(&[row()]);
    assert_eq!(table.lines().count(), 5);
    assert_eq!(
        table.lines().last().unwrap(),
        "**1/1 cases pass** (a case passes when every assertion that ran holds and every arm that \
         ran was killed; `not run` cells are reported, not counted as passes). Oracle: o."
    );
    assert_eq!(
        table.lines().nth(2).unwrap(),
        "| c1 | metal | not run (none) | yes | yes | killed (a) | killed (b) | not run (c) | \
         killed (d) | 12.3 | 0.7 |"
    );
}

#[test]
fn a_rehearsed_output_is_marked_in_the_report() {
    let o = canonical_output(&strings(&["rehearsal.reference.bincode"])).unwrap();
    let mut e = evidence();
    e.provenance = Some(o.provenance);
    let table = markdown(&[row_from(&e)]);
    assert!(table.contains("| c2 | metal | yes [rehearsal:reference] | yes |"), "{table}");
    e.canonical = Canonical::Judged(err("invalid receipt format"), [3; 32]);
    let table = markdown(&[row_from(&e)]);
    assert!(
        table.contains(
            "| **no** (canonical output rejected by the oracle: invalid receipt format) \
             [rehearsal:reference] |"
        ),
        "{table}"
    );
    e.canonical = Canonical::Absent;
    e.provenance = None;
    assert!(!markdown(&[row_from(&e)]).contains('['));
}

/// A backend that never proves.
struct Idle(BackendKind);

impl Groth16Backend for Idle {
    fn kind(&self) -> BackendKind {
        self.0
    }

    fn prove(&self, _: &ProverParams, _: &SetupParams) -> Result<(), String> {
        Err("idle".to_string())
    }
}

#[test]
fn a_registry_without_the_rewrite_refuses_it() {
    let without = Registry::new().with(Idle(BackendKind::Reference));
    assert!(!substitutes(&without, BackendKind::OxideCpu));
    let with = without.with(Idle(BackendKind::OxideCpu));
    assert!(substitutes(&with, BackendKind::OxideCpu));
}

#[test]
fn the_corpus_output_comes_before_a_rehearsed_one() {
    let o = canonical_output(&strings(&["x", "rehearsal.metal.bincode", "canonical.groth16.bincode"]))
        .unwrap();
    assert_eq!((o.file.as_str(), o.provenance.as_str()), ("canonical.groth16.bincode", "corpus"));
    let o = canonical_output(&strings(&["x", "rehearsal.metal.bincode"])).unwrap();
    assert_eq!(
        (o.file.as_str(), o.provenance.as_str()),
        ("rehearsal.metal.bincode", "rehearsal:metal")
    );
    assert!(canonical_output(&strings(&["rehearsal.metal", "x.bincode"])).is_none());
}

#[test]
fn run_arguments_parse_and_refuse() {
    let a = RunArgs::parse(&strings(&["case", "art", "metal", "--other", "o", "--control", "reference"]))
        .unwrap();
    assert_eq!((a.case_dir.as_str(), a.artifacts.as_str()), ("case", "art"));
    assert_eq!((a.rewrite, a.control), (BackendKind::Metal, BackendKind::Reference));
    assert_eq!((a.other.as_deref(), a.report.as_deref()), (Some("o"), None));
    let refused = |args: &[&str]| RunArgs::parse(&strings(args)).err().unwrap().message();
    assert_eq!(refused(&[]), "run <case-dir> …");
    assert_eq!(refused(&["case"]), "… <artifacts-dir> …");
    assert_eq!(refused(&["case", "art"]), "… <rewrite-kind>");
    assert_eq!(refused(&["case", "art", "metal", "--control"]), "--control <kind>");
    assert_eq!(refused(&["case", "art", "metal", "--other"]), "--other <case-dir>");
    assert_eq!(refused(&["case", "art", "metal", "--report"]), "--report <path>");
    assert_eq!(refused(&["case", "art", "metal", "--what"]), "unknown argument --what");
    assert!(matches!(
        RunArgs::parse(&strings(&["case", "art", "none"])),
        Err(ArgError::Backend(SelectError::Unknown { .. }))
    ));
    assert!(matches!(
        RunArgs::parse(&strings(&["case", "art", "metal", "--what"])),
        Err(ArgError::Unknown(_))
    ));
}

#[test]
fn bench_arguments_parse_and_refuse() {
    let o = BenchOptions::parse(&[]).unwrap();
    assert_eq!((o.points, o.n, o.chunk, o.repeats), (65536, 1048576, 0, 3));
    assert!(!o.tiny && !o.check);
    let o = BenchOptions::parse(&strings(&["--n", "12", "--tiny", "--n", "+13", "--check"])).unwrap();
    assert_eq!((o.n, o.tiny, o.check), (13, true, true));
    assert!(matches!(
        BenchOptions::parse(&strings(&["--chunk", "-1"])),
        Err(ArgError::Number(_))
    ));
    for a in ["--points", "--n", "--chunk", "--repeats"] {
        let e = BenchOptions::parse(&strings(&["--tiny", a])).err().unwrap();
        assert_eq!(e.message(), format!("{a} needs a value"));
    }
    assert_eq!(parse_usize("18446744073709551615"), Some(usize::MAX));
    assert_eq!(parse_usize("18446744073709551616"), None);
    assert_eq!(parse_usize(""), None);
    assert_eq!(parse_usize("+"), None);
}

#[test]
fn bench_numbers_are_fixed() {
    let mut s = 1u64;
    // 1 -> 1 ^ 1 << 13 = 0x2001 -> ^ 0x40 = 0x2041 -> ^ 0x40820000 = 0x40822041
    assert_eq!(xorshift(&mut s), 0x4082_2041u64.wrapping_mul(0x2545_f491_4f6c_dd1d));
    assert_eq!(s, 0x4082_2041);
    assert_eq!(chunked(&[0, 5, 5, 6], 2), [0, 2, 4, 5, 5, 6]);
}

#[test]
fn module_forms_go_by_the_extension() {
    assert_eq!(ModuleForm::from_extension(Some("PTX")), ModuleForm::Ptx);
    assert_eq!(ModuleForm::from_extension(Some("cubin")), ModuleForm::Image);
    assert_eq!(ModuleForm::from_extension(Some("fatbin")), ModuleForm::Image);
    assert_eq!(ModuleForm::from_extension(Some("so")), ModuleForm::Bundle);
    assert_eq!(ModuleForm::from_extension(None), ModuleForm::Bundle);
    assert_eq!(ModuleSource::Ptx(vec![0; 12]).describe(), "ptx (12 bytes)");
}

#[test]
fn a_scalar_is_its_little_endian_bytes() {
    let mut b = [0u8; 31];
    b[0] = 7;
    b[1] = 1;
    assert_eq!(scalar_from_bytes(&b), Fr::from_u64(263));
    assert_eq!(scalar_of_drawn(&b.to_vec()), Fr::from_u64(263));
    let big = scalar_from_bytes(&[0xff; 31]).to_canonical();
    assert_eq!(big, [u64::MAX, u64::MAX, u64::MAX, u64::MAX >> 8]);
}

#[test]
fn drawn_scalars_differ_and_are_reduced() {
    let (r, s) = (random_scalar().unwrap(), random_scalar().unwrap());
    assert_ne!(r, s);
    assert!(r.to_canonical()[3] >> 56 == 0 && s.to_canonical()[3] >> 56 == 0);
    assert_ne!(r, scalar_from_bytes(&[0; 31]));
    assert_eq!(
        RandomError { reason: "none".to_string() }.message(),
        "randomness unavailable: none"
    );
}

fn evidence() -> Evidence {
    Evidence {
        case_id: "c2".to_string(),
        kind: BackendKind::Metal,
        control: BackendKind::Reference,
        available: vec![BackendKind::Metal, BackendKind::Reference],
        canonical: Canonical::Judged(Ok(()), [3; 32]),
        provenance: Some("corpus".to_string()),
        digest: [3; 32],
        seal: vec![0; 256],
        verdict: Ok(()),
        flips: [false; 3],
        foreign: Foreign::Other,
        foreign_verdict: err("pairing"),
        control_run: ControlRun::Ran(BackendKind::Reference, Ok(())),
        truncated: err("eof"),
        derive_tenths: 10,
        prove_tenths: 20,
        oracle: "o".to_string(),
    }
}

#[test]
fn a_case_passes_on_its_evidence() {
    let r = row_from(&evidence());
    assert!(r.passed());
    assert_eq!((r.case_id.as_str(), r.rewrite_kind.as_str()), ("c2", "metal"));
    assert!(matches!(r.arms.canonical_answers, Arm::Killed(_)));
    let mut e = evidence();
    e.flips[2] = true;
    assert!(!row_from(&e).passed());
    let mut e = evidence();
    e.canonical = Canonical::Judged(Ok(()), [4; 32]);
    assert!(!row_from(&e).passed());
    let mut e = evidence();
    e.seal.pop();
    let r = row_from(&e);
    assert_eq!(r.arms.bit_flip.cell(), "not run (seal is 255 bytes, expected 256)");
    assert!(r.passed());
    let mut e = evidence();
    e.control = BackendKind::Metal;
    e.control_run = ControlRun::Substituted;
    assert!(matches!(row_from(&e).arms.canonical_answers, Arm::NotRun(_)));
    let mut e = evidence();
    e.truncated = Ok(());
    assert!(!row_from(&e).passed());
}

#[test]
fn bench_data_is_sorted_multiples_of_the_generator() {
    let strings = |s: &[&str]| -> Vec<String> { s.iter().map(|x| x.to_string()).collect() };
    let o = BenchOptions::parse(&strings(&["--points", "3", "--n", "7"])).unwrap();
    assert!(is_measurable(&o));
    let d = BenchData::new(&o);
    assert_eq!(d.points.len(), 7);
    assert_eq!(d.points[0], g1_generator());
    assert_eq!(d.points[3], d.points[0]);
    assert_eq!(
        d.points[2],
        g1_generator().to_jacobian().mul(&Fr::from_u64(3)).to_affine()
    );
    assert_eq!(d.starts.len(), 22 * 4095 + 1);
    assert_eq!(*d.starts.last().unwrap() as usize, d.order.len());
    let sums: Vec<Jacobian<Fp>> = (0..d.starts.len() - 1)
        .map(|b| kernels::bucket_sum(b, &d.points, &d.order, &d.starts))
        .collect();
    assert_eq!(differing(&d, &sums, 4096), 0);
    let mut wrong = sums.clone();
    wrong[5] = wrong[5].add_affine(&g1_generator());
    assert_eq!(differing(&d, &wrong, 4096), 1);
    assert_eq!(differing(&d, &wrong, 5), 0);
    let o = BenchOptions::parse(&strings(&["--points", "3", "--n", "7", "--tiny", "--chunk", "1"]))
        .unwrap();
    let d = BenchData::new(&o);
    assert_eq!(d.points.len(), 3);
    assert!(d.order.iter().all(|x| *x < 3));
    assert!(d.starts.windows(2).all(|w| w[1] - w[0] <= 1));
    let o = BenchOptions::parse(&strings(&["--points", "0"])).unwrap();
    assert!(!is_measurable(&o));
}

#[test]
fn a_rehearsal_is_read_back_under_its_kind() {
    for kind in BackendKind::ALL {
        let file = rehearsal_file(kind.name());
        let o = canonical_output(&[file.clone()]).unwrap();
        assert_eq!(o.file, file);
        assert_eq!(o.provenance, format!("rehearsal:{}", kind.name()));
    }
    assert_eq!(rehearsal_file("metal"), "rehearsal.metal.bincode");
}
