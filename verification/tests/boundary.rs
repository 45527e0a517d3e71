use std::cell::Cell;
use std::rc::Rc;
use std::sync::Arc;

use groth16_prover::backend::{
    compiled_in, BackendKind, BoundaryError, EnvValue, Groth16Backend, ProverParams, Registry,
    SelectError, SetupParams,
};
use groth16_prover::budget::{
    Budget, Dims, Mode, COEFF, FR, G1, G2, JAC_G1, JAC_G2,
};
use groth16_prover::resident::{
    auto_mode, choice, decide, enabled, is_oom, Action, Cache, Choice, Event, Key,
};

/// The production circuit's dimensions.
fn production() -> Budget {
    Budget::new(Dims {
        num_vars: 5_635_930,
        num_public: 5,
        domain: 1 << 23,
        coefficients: 29_098_147,
    })
}

const GIB: f64 = (1usize << 30) as f64;

#[test]
fn resident_set_matches_the_measured_footprint() {
    // resident set ≈ 4.6 GB (point sets ≈ 2.6, coeffs ≈ 1.2, tables ≈ 0.8)
    let b = production();
    let gib = b.resident_bytes() as f64 / GIB;
    assert!((3.8..5.2).contains(&gib), "resident set {gib:.2} GiB out of range");
    let points = b.points_bytes() as f64 / GIB;
    assert!((2.2..3.0).contains(&points), "point sets {points:.2} GiB");
}

#[test]
fn streaming_peak_is_about_two_gib() {
    let gib = production().streaming_peak_bytes() as f64 / GIB;
    assert!((1.3..2.8).contains(&gib), "streaming peak {gib:.2} GiB out of range");
}

#[test]
fn resident_peak_exceeds_streaming_peak() {
    let b = production();
    assert!(b.resident_peak_bytes() > b.streaming_peak_bytes());
}

/// What is left of the free memory with a margin.
fn usable(free: usize, margin: f64) -> usize {
    (free as f64 * margin) as usize
}

#[test]
fn choose_picks_resident_on_a_big_card_and_streaming_on_a_shared_one() {
    let b = production();
    // A 24 GB card, mostly free: resident.
    assert_eq!(b.choose_mode(usable(24 * (1 << 30), 0.9)), Some(Mode::Resident));
    // Only 3 GiB free (a co-tenant holds the rest): streaming.
    assert_eq!(b.choose_mode(usable(3 * (1 << 30), 0.9)), Some(Mode::Streaming));
    // 1 GiB free: nothing fits.
    assert_eq!(b.choose_mode(usable(1 << 30, 0.9)), None);
}

#[test]
fn element_sizes_are_the_abi_records() {
    assert_eq!((FR, G1, G2, JAC_G1, JAC_G2, COEFF), (32, 72, 136, 96, 192, 40));
}

#[test]
fn budget_figures_are_exact() {
    let b = Budget::new(Dims { num_vars: 10, num_public: 2, domain: 8, coefficients: 5 });
    assert_eq!(b.tables_bytes(), 512);
    assert_eq!(b.coefficients_bytes(), 5 * 40 + 2 * 8 * 4);
    assert_eq!(b.points_bytes(), (10 + 10 + 7 + 8) * 72 + 10 * 136);
    assert_eq!(b.resident_bytes(), 512 + 264 + 3880);
    assert_eq!(b.transform_scratch_bytes(), 1024);
    assert_eq!(
        b.msm_scratch_bytes(false),
        320 + 2 * 22 * 10 * 4 + 22 * 4095 * 4 + 22 * 4095 * 96
    );
    assert_eq!(b.largest_point_set_bytes(), 1360);
    // fewer variables than public inputs: no private points
    let b = Budget::new(Dims { num_vars: 2, num_public: 2, domain: 8, coefficients: 5 });
    assert_eq!(b.points_bytes(), (2 + 2 + 8) * 72 + 2 * 136);
}

/// A backend that only records whether it ran.
struct Mock {
    kind: BackendKind,
    calls: Rc<Cell<u32>>,
    fail: bool,
}

impl Groth16Backend for Mock {
    fn kind(&self) -> BackendKind {
        self.kind
    }

    fn prove(&self, _: &ProverParams, _: &SetupParams) -> Result<(), String> {
        self.calls.set(self.calls.get() + 1);
        if self.fail {
            return Err(format!("mock failure in {}", self.kind.name()));
        }
        Ok(())
    }
}

fn mock(kind: BackendKind, fail: bool) -> (Mock, Rc<Cell<u32>>) {
    let calls = Rc::new(Cell::new(0));
    let backend = Mock { kind, calls: Rc::clone(&calls), fail };
    (backend, calls)
}

fn params() -> (ProverParams, SetupParams) {
    let prover = ProverParams {
        witness: vec![0; 32],
        proof_path: "unused".to_string(),
        public_path: "unused".to_string(),
    };
    (prover, SetupParams { srs_path: "unused".to_string() })
}

#[test]
fn absent_configuration_selects_the_default_canonical() {
    let (canonical, _) = mock(BackendKind::Canonical, false);
    let (metal, _) = mock(BackendKind::Metal, false);
    let registry = Registry::new().with(canonical).with(metal);
    assert_eq!(registry.select(None).ok().unwrap().kind(), BackendKind::Canonical);
    assert_eq!(BackendKind::DEFAULT, BackendKind::Canonical);
}

#[test]
fn unknown_name_is_an_error_even_when_canonical_is_available() {
    let (canonical, _) = mock(BackendKind::Canonical, false);
    let registry = Registry::new().with(canonical);
    for value in ["rapidsnark", "", "   ", "cuda", "metal2"] {
        let err = registry.select(Some(value)).err().unwrap();
        assert_eq!(
            err,
            SelectError::Unknown { value: value.to_string() },
            "{value:?} must not resolve"
        );
    }
}

#[test]
fn documented_names_parse_ignoring_case_and_whitespace() {
    assert_eq!(BackendKind::parse("canonical").unwrap(), BackendKind::Canonical);
    assert_eq!(BackendKind::parse(" CUDA-OXIDE ").unwrap(), BackendKind::CudaOxide);
    assert_eq!(BackendKind::parse("Metal\n").unwrap(), BackendKind::Metal);
    assert_eq!(BackendKind::parse("reference").unwrap(), BackendKind::Reference);
    for kind in BackendKind::ALL {
        assert_eq!(BackendKind::parse(kind.name()).unwrap(), kind);
    }
}

#[test]
fn unavailable_kind_is_an_error_listing_what_this_build_has() {
    let (canonical, _) = mock(BackendKind::Canonical, false);
    let registry = Registry::new().with(canonical);
    let err = registry.select(Some("metal")).err().unwrap();
    assert_eq!(
        err,
        SelectError::Unavailable {
            kind: BackendKind::Metal,
            available: vec![BackendKind::Canonical],
        }
    );
    let text = err.message();
    assert!(text.contains("`metal`") && text.contains("canonical"), "{text}");
}

#[test]
fn dispatch_reaches_the_selected_backend_and_no_other() {
    let (canonical, canonical_calls) = mock(BackendKind::Canonical, false);
    let (metal, metal_calls) = mock(BackendKind::Metal, false);
    let registry = Registry::new().with(canonical).with(metal);
    let (prover, setup) = params();
    assert_eq!(registry.select(Some("metal")).ok().unwrap().kind(), BackendKind::Metal);
    registry.prove(Some("metal"), &prover, &setup).unwrap();
    assert_eq!(metal_calls.get(), 1, "the selected backend must run");
    assert_eq!(canonical_calls.get(), 0, "no other backend may run");
}

#[test]
fn a_failing_backend_propagates_its_error_and_nothing_answers_in_its_place() {
    let (canonical, canonical_calls) = mock(BackendKind::Canonical, false);
    let (oxide, oxide_calls) = mock(BackendKind::CudaOxide, true);
    let registry = Registry::new().with(canonical).with(oxide);
    let (prover, setup) = params();
    let err = registry.prove(Some("cuda-oxide"), &prover, &setup).unwrap_err();
    assert!(err.message().contains("mock failure in cuda-oxide"), "{err:#?}");
    assert_eq!(oxide_calls.get(), 1);
    assert_eq!(canonical_calls.get(), 0, "an error must not fall back to canonical");
}

#[test]
fn compiled_in_registers_exactly_the_cfg_backends() {
    let expected: Vec<BackendKind> = vec![];
    assert_eq!(compiled_in::<Mock>().available(), expected);
}

#[test]
fn a_build_without_backends_reports_unavailable_rather_than_answering() {
    let err = compiled_in::<Mock>().select(None).err().unwrap();
    assert_eq!(
        err,
        SelectError::Unavailable { kind: BackendKind::Canonical, available: vec![] }
    );
    assert!(err.message().contains("available: none"), "{}", err.message());
}

#[test]
fn environment_present_selects_and_absent_defaults() {
    let (canonical, canonical_calls) = mock(BackendKind::Canonical, false);
    let (metal, metal_calls) = mock(BackendKind::Metal, false);
    let registry = Registry::new().with(canonical).with(metal);
    let kind = |value: EnvValue<'_>| registry.select_from_env(value).map(|b| b.kind());
    assert_eq!(kind(EnvValue::Text("metal")), Ok(BackendKind::Metal));
    assert!(matches!(kind(EnvValue::Text("no-such-backend")), Err(SelectError::Unknown { .. })));
    assert_eq!(kind(EnvValue::Absent), Ok(BackendKind::Canonical));
    assert_eq!(kind(EnvValue::NotUnicode), Err(SelectError::NotUnicode));
    let (prover, setup) = params();
    registry.prove_from_env(EnvValue::Absent, &prover, &setup).unwrap();
    assert_eq!((canonical_calls.get(), metal_calls.get()), (1, 0));
    assert_eq!(
        registry.prove_from_env(EnvValue::NotUnicode, &prover, &setup),
        Err(BoundaryError::Select(SelectError::NotUnicode))
    );
    assert_eq!((canonical_calls.get(), metal_calls.get()), (1, 0));
}

#[test]
fn selection_errors_read_as_documented() {
    assert_eq!(
        SelectError::Unknown { value: "ra\"pid".to_string() }.message(),
        "RISC0_GROTH16_BACKEND=\"ra\\\"pid\" names no Groth16 backend (known: canonical, \
         cuda-oxide, metal, reference, oxide-cpu, metal-cpu)"
    );
    assert_eq!(
        SelectError::NotUnicode.message(),
        "RISC0_GROTH16_BACKEND is not valid Unicode"
    );
    assert_eq!(
        SelectError::Unavailable {
            kind: BackendKind::Metal,
            available: vec![BackendKind::Reference, BackendKind::OxideCpu],
        }
        .message(),
        "Groth16 backend `metal` is not compiled into this build (available: reference, oxide-cpu)"
    );
}

#[test]
fn a_registry_knows_what_it_has() {
    let (metal, _) = mock(BackendKind::Metal, false);
    let registry = Registry::new().with(metal);
    assert!(registry.has(BackendKind::Metal));
    assert!(!registry.has(BackendKind::Canonical));
    assert_eq!(registry.get(BackendKind::Metal).ok().unwrap().kind(), BackendKind::Metal);
}

#[test]
fn same_key_reuses_and_a_changed_file_rebuilds() {
    let key = |len: u64| Key::of("k.zkey".to_string(), len, Some(17));
    let mut cache: Cache<Arc<String>> = Cache::new();
    let mut builds = 0;
    let mut build = |s: &str| -> Result<Arc<String>, String> {
        builds += 1;
        Ok(Arc::new(s.to_string()))
    };
    let a = cache.get_or_prepare(key(3), || build("a")).unwrap().clone();
    let b = cache.get_or_prepare(key(3), || build("b")).unwrap().clone();
    assert!(Arc::ptr_eq(&a, &b));
    // the length changes: a new key
    let c = cache.get_or_prepare(key(5), || build("c")).unwrap().clone();
    assert_eq!(*c, "c");
    assert_eq!(builds, 2);
}

#[test]
fn a_failed_build_leaves_the_cache_empty() {
    let key = |modified: i128| Key::of("k.zkey".to_string(), 3, Some(modified));
    let mut cache: Cache<u32> = Cache::default();
    cache.get_or_prepare::<String, _>(key(1), || Ok(7)).unwrap();
    assert_eq!(cache.peek(&key(1)), Some(&7));
    assert_eq!(cache.peek(&key(2)), None);
    let r = cache.get_or_prepare(key(2), || Err("no device".to_string()));
    assert_eq!(r, Err("no device".to_string()));
    assert_eq!(cache.peek(&key(1)), None);
    cache.get_or_prepare::<String, _>(key(2), || Ok(8)).unwrap();
    cache.evict();
    assert_eq!(cache.peek(&key(2)), None);
}

#[test]
fn env_switch() {
    // not set → enabled
    assert!(enabled(None));
    assert!(enabled(Some("1")) && enabled(Some("")));
    assert!(!enabled(Some("0")) && !enabled(Some("false")) && !enabled(Some("off")));
    assert_eq!(choice(None), Choice::Auto);
    assert_eq!(choice(Some("off")), Choice::Force(false));
    assert_eq!(choice(Some("OFF")), Choice::Force(true));
}

#[test]
fn a_budget_is_counted_where_its_bytes_are_addressable() {
    let dims = |num_vars: usize, num_public: usize| Dims {
        num_vars,
        num_public,
        domain: 1 << 23,
        coefficients: 29_098_147,
    };
    assert!(dims(5_635_930, 5).is_countable());
    assert!(!dims(usize::MAX / 64, 5).is_countable());
    assert!(!dims(5_635_930, usize::MAX).is_countable());
}

#[test]
fn auto_goes_by_the_budget_and_falls_back_only_for_want_of_memory() {
    let b = production();
    assert_eq!(auto_mode(&b, None), Some(Mode::Streaming));
    // 2 GiB free: 1.8 usable, which does not fit even streaming
    assert_eq!(auto_mode(&b, Some((1 << 30) / 10 * 18)), None);
    assert_eq!(auto_mode(&b, Some((1 << 30) / 10 * 27)), Some(Mode::Streaming));
    assert_eq!(auto_mode(&b, Some(24 * (1 << 30))), Some(Mode::Resident));
    assert_eq!(decide(Event::Asked(Choice::Force(false), true)), Action::LoadAndStream);
    assert_eq!(decide(Event::Asked(Choice::Force(true), false)), Action::PrepareAndProve);
    assert_eq!(decide(Event::Asked(Choice::Auto, true)), Action::ProveCached);
    assert_eq!(decide(Event::Asked(Choice::Auto, false)), Action::Probe);
    assert_eq!(decide(Event::Probed(Some(Mode::Streaming))), Action::Stream);
    assert_eq!(decide(Event::Probed(Some(Mode::Resident))), Action::TryResident);
    assert_eq!(decide(Event::Probed(None)), Action::Fail);
    assert_eq!(decide(Event::ResidentDone), Action::Done);
    assert_eq!(decide(Event::ResidentFailed(true)), Action::EvictAndStream);
    assert_eq!(decide(Event::ResidentFailed(false)), Action::Fail);
    assert!(is_oom("uploading: CUDA error: Out Of Memory"));
    assert!(is_oom("CudaOutOfMemory") && is_oom("launch: DriverError(2, \"x\")"));
    assert!(!is_oom("DriverError(700)"));
}
