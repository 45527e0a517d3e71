//! The generators of G1 and G2.

use vstd::prelude::*;

use crate::ec;
use crate::ec::{G1Affine, G2Affine};
use crate::field;
use crate::field::Fp;
use crate::fp2::Fp2;
use crate::limbs;
use crate::math::certificates;
use crate::math::ring;
use crate::math::ring::Ring;

verus! {

/// `x.c0` of the G2 generator, canonical.
pub const G2_GENERATOR_X_C0: [u64; 4] = [0x46debd5cd992f6ed, 0x674322d4f75edadd, 0x426a00665e5c4479, 0x1800deef121f1e76];

/// `x.c1` of the G2 generator, canonical.
pub const G2_GENERATOR_X_C1: [u64; 4] = [0x97e485b7aef312c2, 0xf1aa493335a9e712, 0x7260bfb731fb5d25, 0x198e9393920d483a];

/// `y.c0` of the G2 generator, canonical.
pub const G2_GENERATOR_Y_C0: [u64; 4] = [0x4ce6cc0166fa7daa, 0xe3d1e7690c43d37b, 0x4aab71808dcb408f, 0x12c85ea5db8c6deb];

/// `y.c1` of the G2 generator, canonical.
pub const G2_GENERATOR_Y_C1: [u64; 4] = [0x55acdadcd122975b, 0xbc4b313370b38ef3, 0xec9e99ad690c3395, 0x090689d0585ff075];

/// The G1 generator `(1, 2)`.
pub open spec fn g1_spec() -> G1Affine {
    ec::Affine { x: Fp::of(1), y: Fp::of(2), infinity: false }
}

/// The G2 generator.
pub open spec fn g2_spec() -> G2Affine {
    ec::Affine {
        x: Fp2 {
            c0: Fp::of(limbs::value(G2_GENERATOR_X_C0)),
            c1: Fp::of(limbs::value(G2_GENERATOR_X_C1)),
        },
        y: Fp2 {
            c0: Fp::of(limbs::value(G2_GENERATOR_Y_C0)),
            c1: Fp::of(limbs::value(G2_GENERATOR_Y_C1)),
        },
        infinity: false,
    }
}

/// The G1 generator is on its curve.
pub proof fn lemma_g1_generator()
    ensures
        g1_spec().wf(),
        g1_spec().pt().on(ec::g1_b_spec()),
{
    broadcast use ring::group_wf;

    field::lemma_fp_modulus();
    Fp::lemma_of(1);
    Fp::lemma_of(2);
    Fp::lemma_of(3);
    let (x, y, b) = (Fp::of(1), Fp::of(2), Fp::of(3));
    Fp::lemma_ops(x, x);
    Fp::lemma_ops(x * x, x);
    Fp::lemma_ops(y, y);
    Fp::lemma_ops(x * x * x, b);
    assert((1 * 1int) % certificates::q() == 1);
    assert((2 * 2int) % certificates::q() == 4);
    assert((1 + 3int) % certificates::q() == 4);
    Fp::lemma_val(y * y);
    Fp::lemma_val(x * x * x + b);
}

/// A product in the extension in numbers.
proof fn lemma_product(a: Fp2, b: Fp2, same: (int, int), cross: (int, int))
    requires
        a.wf(),
        b.wf(),
        (a.c0.val() * b.c0.val()) % certificates::q() == same.0,
        (a.c1.val() * b.c1.val()) % certificates::q() == same.1,
        (a.c0.val() * b.c1.val()) % certificates::q() == cross.0,
        (a.c1.val() * b.c0.val()) % certificates::q() == cross.1,
    ensures
        (a * b).wf(),
        (a * b).c0.val() == (same.0 - same.1) % certificates::q(),
        (a * b).c1.val() == (cross.0 + cross.1) % certificates::q(),
{
    field::lemma_fp_modulus();
    Fp::lemma_ops(a.c0, b.c0);
    Fp::lemma_ops(a.c1, b.c1);
    Fp::lemma_ops(a.c0, b.c1);
    Fp::lemma_ops(a.c1, b.c0);
    Fp::lemma_ops(a.c0 * b.c0, a.c1 * b.c1);
    Fp::lemma_ops(a.c0 * b.c1, a.c1 * b.c0);
}

/// The G2 generator is on its curve.
pub proof fn lemma_g2_generator()
    ensures
        limbs::value(G2_GENERATOR_X_C0) < certificates::q(),
        limbs::value(G2_GENERATOR_X_C1) < certificates::q(),
        limbs::value(G2_GENERATOR_Y_C0) < certificates::q(),
        limbs::value(G2_GENERATOR_Y_C1) < certificates::q(),
        g2_spec().wf(),
        g2_spec().pt().on(ec::g2_b_spec()),
{
    field::lemma_fp_modulus();
    let c = G2_GENERATOR_X_C0;
    assert(limbs::value(c) == 0x1800deef121f1e76426a00665e5c4479674322d4f75edadd46debd5cd992f6edint);
    Fp::lemma_of(0x1800deef121f1e76426a00665e5c4479674322d4f75edadd46debd5cd992f6edint);
    let c = G2_GENERATOR_X_C1;
    assert(limbs::value(c) == 0x198e9393920d483a7260bfb731fb5d25f1aa493335a9e71297e485b7aef312c2int);
    Fp::lemma_of(0x198e9393920d483a7260bfb731fb5d25f1aa493335a9e71297e485b7aef312c2int);
    let c = G2_GENERATOR_Y_C0;
    assert(limbs::value(c) == 0x12c85ea5db8c6deb4aab71808dcb408fe3d1e7690c43d37b4ce6cc0166fa7daaint);
    Fp::lemma_of(0x12c85ea5db8c6deb4aab71808dcb408fe3d1e7690c43d37b4ce6cc0166fa7daaint);
    let c = G2_GENERATOR_Y_C1;
    assert(limbs::value(c) == 0x90689d0585ff075ec9e99ad690c3395bc4b313370b38ef355acdadcd122975bint);
    Fp::lemma_of(0x90689d0585ff075ec9e99ad690c3395bc4b313370b38ef355acdadcd122975bint);
    let (x, y) = (g2_spec().x, g2_spec().y);
    assert((0x1800deef121f1e76426a00665e5c4479674322d4f75edadd46debd5cd992f6edint * 0x1800deef121f1e76426a00665e5c4479674322d4f75edadd46debd5cd992f6edint) % certificates::q() == 0x2a647dc8808914501e20420c0149947d4e8c2775a2d28332f119c80736b2ed06int) by (nonlinear_arith);
    assert((0x198e9393920d483a7260bfb731fb5d25f1aa493335a9e71297e485b7aef312c2int * 0x198e9393920d483a7260bfb731fb5d25f1aa493335a9e71297e485b7aef312c2int) % certificates::q() == 0x2ab7d6c593704c2d116396d3ebc2e7ff96a905d17c7a299e044b4360391a60f4int) by (nonlinear_arith);
    assert((0x1800deef121f1e76426a00665e5c4479674322d4f75edadd46debd5cd992f6edint * 0x198e9393920d483a7260bfb731fb5d25f1aa493335a9e71297e485b7aef312c2int) % certificates::q() == 0x207f624eca84d716fdc6167feeaa6746a7ddbbdd828d843c9365ff90573488fint) by (nonlinear_arith);
    assert((0x198e9393920d483a7260bfb731fb5d25f1aa493335a9e71297e485b7aef312c2int * 0x1800deef121f1e76426a00665e5c4479674322d4f75edadd46debd5cd992f6edint) % certificates::q() == 0x207f624eca84d716fdc6167feeaa6746a7ddbbdd828d843c9365ff90573488fint) by (nonlinear_arith);
    assert((0x2a647dc8808914501e20420c0149947d4e8c2775a2d28332f119c80736b2ed06int - 0x2ab7d6c593704c2d116396d3ebc2e7ff96a905d17c7a299e044b4360391a60f4int) % certificates::q() == 0x3010f575ce4a684cc50cf0ee970804db4f648c358eca242228ef10bdd6158959int);
    assert((0x207f624eca84d716fdc6167feeaa6746a7ddbbdd828d843c9365ff90573488fint + 0x207f624eca84d716fdc6167feeaa6746a7ddbbdd828d843c9365ff90573488fint) % certificates::q() == 0x40fec49d9509ae2dfb8c2cffdd54ce8d4fbb77bb051b087926cbff20ae6911eint);
    lemma_product(
        x,
        x,
        (0x2a647dc8808914501e20420c0149947d4e8c2775a2d28332f119c80736b2ed06int, 0x2ab7d6c593704c2d116396d3ebc2e7ff96a905d17c7a299e044b4360391a60f4int),
        (0x207f624eca84d716fdc6167feeaa6746a7ddbbdd828d843c9365ff90573488fint, 0x207f624eca84d716fdc6167feeaa6746a7ddbbdd828d843c9365ff90573488fint),
    );
    assert((0x3010f575ce4a684cc50cf0ee970804db4f648c358eca242228ef10bdd6158959int * 0x1800deef121f1e76426a00665e5c4479674322d4f75edadd46debd5cd992f6edint) % certificates::q() == 0xf2d24b57ce55dcede77e9678f9cf224de98931a79387b51ead773a8e7852479int) by (nonlinear_arith);
    assert((0x40fec49d9509ae2dfb8c2cffdd54ce8d4fbb77bb051b087926cbff20ae6911eint * 0x198e9393920d483a7260bfb731fb5d25f1aa493335a9e71297e485b7aef312c2int) % certificates::q() == 0x1943a8a6b4e9e039562d6f8a758b6f7fe864aa9d0d4c9a48de8a5b2638dea354int) by (nonlinear_arith);
    assert((0x3010f575ce4a684cc50cf0ee970804db4f648c358eca242228ef10bdd6158959int * 0x198e9393920d483a7260bfb731fb5d25f1aa493335a9e71297e485b7aef312c2int) % certificates::q() == 0x2a83a098250e4d78c0e000f5d9b2d7076bb5a14b93007b3405c3ef0860e5ab08int) by (nonlinear_arith);
    assert((0x40fec49d9509ae2dfb8c2cffdd54ce8d4fbb77bb051b087926cbff20ae6911eint * 0x1800deef121f1e76426a00665e5c4479674322d4f75edadd46debd5cd992f6edint) % certificates::q() == 0x2f4a83630da4d127150a9796ca32c4de3aba20109bb0f054df957f6e782280f8int) by (nonlinear_arith);
    assert((0xf2d24b57ce55dcede77e9678f9cf224de98931a79387b51ead773a8e7852479int - 0x1943a8a6b4e9e039562d6f8a758b6f7fe864aa9d0d4c9a48de8a5b2638dea354int) % certificates::q() == 0x264dca81a92d1dbf409abf939b92db028db5530ed45dab96486da49987237e6cint);
    assert((0x2a83a098250e4d78c0e000f5d9b2d7076bb5a14b93007b3405c3ef0860e5ab08int + 0x2f4a83630da4d127150a9796ca32c4de3aba20109bb0f054df957f6e782280f8int) % certificates::q() == 0x2969d58851817e761d9a52d6226443880eee56cac63fa0fba938e260008b2eb9int);
    lemma_product(
        x * x,
        x,
        (0xf2d24b57ce55dcede77e9678f9cf224de98931a79387b51ead773a8e7852479int, 0x1943a8a6b4e9e039562d6f8a758b6f7fe864aa9d0d4c9a48de8a5b2638dea354int),
        (0x2a83a098250e4d78c0e000f5d9b2d7076bb5a14b93007b3405c3ef0860e5ab08int, 0x2f4a83630da4d127150a9796ca32c4de3aba20109bb0f054df957f6e782280f8int),
    );
    assert((0x12c85ea5db8c6deb4aab71808dcb408fe3d1e7690c43d37b4ce6cc0166fa7daaint * 0x12c85ea5db8c6deb4aab71808dcb408fe3d1e7690c43d37b4ce6cc0166fa7daaint) % certificates::q() == 0x15369f86565e9ff42d5edbf4aa522b12f95b3eda3d15af48ccedb71f966ebcbfint) by (nonlinear_arith);
    assert((0x90689d0585ff075ec9e99ad690c3395bc4b313370b38ef355acdadcd122975bint * 0x90689d0585ff075ec9e99ad690c3395bc4b313370b38ef355acdadcd122975bint) % certificates::q() == 0x249cd4a9a0dc17d9dba68f34f5e19607e4f3fb08dfbfa929ca5943d79ba3fffcint) by (nonlinear_arith);
    assert((0x12c85ea5db8c6deb4aab71808dcb408fe3d1e7690c43d37b4ce6cc0166fa7daaint * 0x90689d0585ff075ec9e99ad690c3395bc4b313370b38ef355acdadcd122975bint) % certificates::q() == 0x2d329bd5b6d20eba518ba41d495f4ced26dfb0f089ef41ede4fe15beaf65a0e9int) by (nonlinear_arith);
    assert((0x90689d0585ff075ec9e99ad690c3395bc4b313370b38ef355acdadcd122975bint * 0x12c85ea5db8c6deb4aab71808dcb408fe3d1e7690c43d37b4ce6cc0166fa7daaint) % certificates::q() == 0x2d329bd5b6d20eba518ba41d495f4ced26dfb0f089ef41ede4fe15beaf65a0e9int) by (nonlinear_arith);
    assert((0x15369f86565e9ff42d5edbf4aa522b12f95b3eda3d15af48ccedb71f966ebcbfint - 0x249cd4a9a0dc17d9dba68f34f5e19607e4f3fb08dfbfa929ca5943d79ba3fffcint) % certificates::q() == 0x20fe194f96b428440a08927635f1ed68abe8ae62c5c7d0ac3eb4ff5ed347ba0aint);
    assert((0x2d329bd5b6d20eba518ba41d495f4ced26dfb0f089ef41ede4fe15beaf65a0e9int + 0x2d329bd5b6d20eba518ba41d495f4ced26dfb0f089ef41ede4fe15beaf65a0e9int) % certificates::q() == 0x2a00e9388c727d4aeac70284113d417cb63df74fab6cb94e8ddb9f66864e448bint);
    lemma_product(
        y,
        y,
        (0x15369f86565e9ff42d5edbf4aa522b12f95b3eda3d15af48ccedb71f966ebcbfint, 0x249cd4a9a0dc17d9dba68f34f5e19607e4f3fb08dfbfa929ca5943d79ba3fffcint),
        (0x2d329bd5b6d20eba518ba41d495f4ced26dfb0f089ef41ede4fe15beaf65a0e9int, 0x2d329bd5b6d20eba518ba41d495f4ced26dfb0f089ef41ede4fe15beaf65a0e9int),
    );
    let b = ec::g2_b_spec();
    ec::lemma_g2_b();
    Fp::lemma_ops((x * x * x).c0, b.c0);
    Fp::lemma_ops((x * x * x).c1, b.c1);
    assert((0x264dca81a92d1dbf409abf939b92db028db5530ed45dab96486da49987237e6cint + 0x2b149d40ceb8aaae81be18991be06ac3b5b4c5e559dbefa33267e6dc24a138e5int) % certificates::q() == 0x20fe194f96b428440a08927635f1ed68abe8ae62c5c7d0ac3eb4ff5ed347ba0aint);
    assert((0x2969d58851817e761d9a52d6226443880eee56cac63fa0fba938e260008b2eb9int + 0x9713b03af0fed4cd2cafadeed8fdf4a74fa084e52d1852e4a2bd0685c315d2int) % certificates::q() == 0x2a00e9388c727d4aeac70284113d417cb63df74fab6cb94e8ddb9f66864e448bint);
    Fp::lemma_val((y * y).c0);
    Fp::lemma_val((y * y).c1);
    Fp::lemma_val((x * x * x + b).c0);
    Fp::lemma_val((x * x * x + b).c1);
}

/// The G1 generator.
pub fn g1_generator() -> (r: G1Affine)
    ensures
        r == g1_spec(),
        r.wf(),
        r.pt().on(ec::g1_b_spec()),
{
    proof {
        lemma_g1_generator();
    }
    G1Affine::new(Fp::from_u64(1), Fp::from_u64(2))
}

/// The G2 generator.
pub fn g2_generator() -> (r: G2Affine)
    ensures
        r == g2_spec(),
        r.wf(),
        r.pt().on(ec::g2_b_spec()),
{
    proof {
        lemma_g2_generator();
    }
    let (x0, x1) = (G2_GENERATOR_X_C0, G2_GENERATOR_X_C1);
    let (y0, y1) = (G2_GENERATOR_Y_C0, G2_GENERATOR_Y_C1);
    G2Affine::new(
        Fp2::new(Fp::from_canonical(x0), Fp::from_canonical(x1)),
        Fp2::new(Fp::from_canonical(y0), Fp::from_canonical(y1)),
    )
}

} // verus!
