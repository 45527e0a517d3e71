use ark_ff::{AdditiveGroup as _, BigInteger as _, FftField as _, Field as _, PrimeField as _};
use groth16_prover::consts;
use groth16_prover::field::{Field, Fp, Fr};
use groth16_prover::limbs;

/// A deterministic generator so every run exercises the same values.
struct XorShift(u64);

impl XorShift {
    fn next(&mut self) -> u64 {
        let mut x = self.0;
        x ^= x << 13;
        x ^= x >> 7;
        x ^= x << 17;
        self.0 = x;
        x
    }

    fn bytes(&mut self) -> [u8; 32] {
        let mut b = [0u8; 32];
        for chunk in b.chunks_mut(8) {
            chunk.copy_from_slice(&self.next().to_le_bytes());
        }
        b
    }
}

fn limbs_of<F: ark_ff::PrimeField<BigInt = ark_ff::BigInt<4>>>(x: F) -> [u64; 4] {
    x.into_bigint().0
}

#[test]
fn fp_matches_arkworks() {
    assert_eq!(<Fp>::MODULUS, <ark_bn254::FqConfig as ark_ff::MontConfig<4>>::MODULUS.0);
    assert_eq!(<Fp as Field>::one().montgomery_limbs(), <ark_bn254::Fq>::ONE.0 .0, "ONE must be R");
    assert_eq!(
        <Fp>::from_u64(1).montgomery_limbs(),
        <ark_bn254::FqConfig as ark_ff::MontConfig<4>>::R.0,
        "R must be arkworks' R"
    );
    assert_eq!(<Fp>::from_u64(1).to_canonical(), [1, 0, 0, 0]);
    let mut rng = XorShift(0x9e37_79b9_7f4a_7c15);
    for _ in 0..500 {
        let ba = <ark_bn254::Fq>::from_le_bytes_mod_order(&rng.bytes());
        let bb = <ark_bn254::Fq>::from_le_bytes_mod_order(&rng.bytes());
        let a = <Fp>::from_le_bytes(&ba.into_bigint().to_bytes_le().try_into().unwrap()).unwrap();
        let b = <Fp>::from_le_bytes(&bb.into_bigint().to_bytes_le().try_into().unwrap()).unwrap();
        assert_eq!(a.to_canonical(), limbs_of(ba));
        assert_eq!(a.add(&b).to_canonical(), limbs_of(ba + bb));
        assert_eq!(a.sub(&b).to_canonical(), limbs_of(ba - bb));
        assert_eq!(b.sub(&a).to_canonical(), limbs_of(bb - ba));
        assert_eq!(a.mul(&b).to_canonical(), limbs_of(ba * bb));
        assert_eq!(a.square().to_canonical(), limbs_of(ba.square()));
        assert_eq!(a.double().to_canonical(), limbs_of(ba.double()));
        assert_eq!(a.neg().to_canonical(), limbs_of(-ba));
        assert_eq!(a.inverse().unwrap().to_canonical(), limbs_of(ba.inverse().unwrap()));
        let e = rng.next();
        assert_eq!(a.pow(&[e, 0, 0, 0]).to_canonical(), limbs_of(ba.pow([e])));
        assert_eq!(a.montgomery_limbs(), ba.0 .0, "Montgomery representation must match arkworks");
        assert_eq!(<Fp>::from_montgomery_limbs(ba.0 .0), a);
        assert!(!limbs::geq(&a.mul(&b).montgomery_limbs(), &<Fp>::MODULUS));
        assert!(!limbs::geq(&a.add(&b).montgomery_limbs(), &<Fp>::MODULUS));
        assert_eq!(<Fp>::from_le_bytes(&a.to_le_bytes()).unwrap(), a);
    }
}

#[test]
fn fr_matches_arkworks() {
    assert_eq!(<Fr>::MODULUS, <ark_bn254::FrConfig as ark_ff::MontConfig<4>>::MODULUS.0);
    assert_eq!(<Fr as Field>::one().montgomery_limbs(), <ark_bn254::Fr>::ONE.0 .0, "ONE must be R");
    assert_eq!(
        <Fr>::from_u64(1).montgomery_limbs(),
        <ark_bn254::FrConfig as ark_ff::MontConfig<4>>::R.0,
        "R must be arkworks' R"
    );
    assert_eq!(<Fr>::from_u64(1).to_canonical(), [1, 0, 0, 0]);
    let mut rng = XorShift(0x9e37_79b9_7f4a_7c15);
    for _ in 0..500 {
        let ba = <ark_bn254::Fr>::from_le_bytes_mod_order(&rng.bytes());
        let bb = <ark_bn254::Fr>::from_le_bytes_mod_order(&rng.bytes());
        let a = <Fr>::from_le_bytes(&ba.into_bigint().to_bytes_le().try_into().unwrap()).unwrap();
        let b = <Fr>::from_le_bytes(&bb.into_bigint().to_bytes_le().try_into().unwrap()).unwrap();
        assert_eq!(a.to_canonical(), limbs_of(ba));
        assert_eq!(a.add(&b).to_canonical(), limbs_of(ba + bb));
        assert_eq!(a.sub(&b).to_canonical(), limbs_of(ba - bb));
        assert_eq!(b.sub(&a).to_canonical(), limbs_of(bb - ba));
        assert_eq!(a.mul(&b).to_canonical(), limbs_of(ba * bb));
        assert_eq!(a.square().to_canonical(), limbs_of(ba.square()));
        assert_eq!(a.double().to_canonical(), limbs_of(ba.double()));
        assert_eq!(a.neg().to_canonical(), limbs_of(-ba));
        assert_eq!(a.inverse().unwrap().to_canonical(), limbs_of(ba.inverse().unwrap()));
        let e = rng.next();
        assert_eq!(a.pow(&[e, 0, 0, 0]).to_canonical(), limbs_of(ba.pow([e])));
        assert_eq!(a.montgomery_limbs(), ba.0 .0, "Montgomery representation must match arkworks");
        assert_eq!(<Fr>::from_montgomery_limbs(ba.0 .0), a);
        assert!(!limbs::geq(&a.mul(&b).montgomery_limbs(), &<Fr>::MODULUS));
        assert!(!limbs::geq(&a.add(&b).montgomery_limbs(), &<Fr>::MODULUS));
        assert_eq!(<Fr>::from_le_bytes(&a.to_le_bytes()).unwrap(), a);
    }
}

#[test]
fn edge_values_behave() {
    let mut m = Fp::MODULUS;
    m[0] -= 1;
    let p_minus_1 = Fp::from_canonical(m);
    let (zero, one) = (<Fp as Field>::zero(), <Fp as Field>::one());
    assert_eq!(p_minus_1.add(&one), zero);
    assert_eq!(p_minus_1.mul(&p_minus_1), one);
    assert_eq!(p_minus_1.neg(), one);
    assert_eq!(zero.neg(), zero);
    assert_eq!(zero.inverse(), None);
    assert_eq!(one.inverse(), Some(one));
    assert_eq!(zero.sub(&one), p_minus_1);
    assert_eq!(Fr::from_u64(7).pow(&[0, 0, 0, 0]), <Fr as Field>::one());
}

#[test]
fn from_le_bytes_rejects_unreduced_values() {
    let mut modulus = [0u8; 32];
    for (i, limb) in Fp::MODULUS.iter().enumerate() {
        modulus[i * 8..i * 8 + 8].copy_from_slice(&limb.to_le_bytes());
    }
    assert!(Fp::from_le_bytes(&modulus).is_none(), "the modulus itself is not an element");
    assert!(Fp::from_le_bytes(&[0xff; 32]).is_none());
    let mut p_minus_1 = modulus;
    p_minus_1[0] -= 1;
    assert!(Fp::from_le_bytes(&p_minus_1).is_some());
}

#[test]
fn two_adic_roots_match_arkworks() {
    let root = Fr::two_adic_root(consts::FR_TWO_ADICITY);
    assert_eq!(root.to_canonical(), limbs_of(ark_bn254::Fr::TWO_ADIC_ROOT_OF_UNITY));
    assert_eq!(
        Fr::from_canonical(consts::FR_GENERATOR_CANONICAL).to_canonical(),
        limbs_of(ark_bn254::Fr::GENERATOR)
    );
    for k in [0u32, 1, 2, 10, 28] {
        let w = Fr::two_adic_root(k);
        assert_eq!(w.pow(&[1u64 << k, 0, 0, 0]), <Fr as Field>::one(), "w^(2^k) == 1");
        if k > 0 {
            assert_ne!(w.pow(&[1u64 << (k - 1), 0, 0, 0]), <Fr as Field>::one(), "primitive");
        }
    }
    assert_eq!(
        Fr::two_adic_root(2).to_canonical(),
        limbs_of(ark_bn254::Fr::get_root_of_unity(4).unwrap())
    );
}
