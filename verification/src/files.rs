//! The key, the witness and the preprocessed files as their writers lay them out, byte by byte:
//! which file holds a given key or witness, and that a file is accepted
//! exactly where it is one of these.

use vstd::arithmetic::div_mod::*;
use vstd::arithmetic::mul::*;
use vstd::arithmetic::power2::pow2;
use vstd::prelude::*;

use crate::artifacts;
use crate::artifacts::FuzzedMsmResults;
use crate::bytes;
use crate::bytes::le_bytes;
use crate::coeff::GroupedCoeff;
use crate::ec;
use crate::ec::{Affine, G1Affine, G2Affine, Jacobian};
use crate::field;
use crate::field::{Field, Fp, Fr};
use crate::fp2::Fp2;
use crate::limbs;
use crate::math::certificates;
use crate::math::curve;
use crate::math::dft;
use crate::math::montgomery;
use crate::math::ring;
use crate::math::ring::{FieldLaws, Ring};
use crate::msm;
use crate::ntt;
use crate::pack;
use crate::pack::packed;
use crate::pipeline;
use crate::prover;
use crate::prover::CoefficientGroups;
use crate::zkey;
use crate::zkey::{Coefficient, VerifyingKey, WtnsError, Zkey, ZkeyError};

verus! {

// ---- numbers and points ------------------------------------------------------------------------

/// A coordinate: its residue times `2^256`, reduced, in 32 bytes.
pub open spec fn fp_file(x: Fp) -> Seq<u8> {
    le_bytes((x.val() * limbs::radix()) % certificates::q(), 32)
}

/// A point in G1: its two coordinates, or 64 zeros for the identity.
pub open spec fn g1_file(p: G1Affine) -> Seq<u8> {
    if p.infinity {
        le_bytes(0, 32) + le_bytes(0, 32)
    } else {
        fp_file(p.x) + fp_file(p.y)
    }
}

/// A point in G2: the parts of its two coordinates, or 128 zeros for the identity.
pub open spec fn g2_file(p: G2Affine) -> Seq<u8> {
    if p.infinity {
        le_bytes(0, 32) + le_bytes(0, 32) + le_bytes(0, 32) + le_bytes(0, 32)
    } else {
        fp_file(p.x.c0) + fp_file(p.x.c1) + fp_file(p.y.c0) + fp_file(p.y.c1)
    }
}

/// A point of the curve with reduced coordinates, zeros for those of the identity.
pub open spec fn plain<F: Field>(p: Affine<F>, b: F) -> bool {
    &&& p.x.wf()
    &&& p.y.wf()
    &&& if p.infinity {
        p.x == F::zero_spec() && p.y == F::zero_spec()
    } else {
        p.y * p.y == p.x * p.x * p.x + b
    }
}

/// Points one after another.
pub open spec fn g1s_file(points: Seq<G1Affine>) -> Seq<u8> {
    packed(points.map_values(|p: G1Affine| g1_file(p)))
}

/// Points one after another.
pub open spec fn g2s_file(points: Seq<G2Affine>) -> Seq<u8> {
    packed(points.map_values(|p: G2Affine| g2_file(p)))
}

/// The bytes of a reduced coordinate stand for its Montgomery representative.
proof fn lemma_fp_file(x: Fp)
    requires
        x.wf(),
    ensures
        fp_file(x).len() == 32,
        bytes::le(fp_file(x)) == x.raw(),
        Fp::of_raw(bytes::le(fp_file(x))) == x,
{
    field::lemma_fp_modulus();
    bytes::lemma_word_sizes();
    Fp::lemma_raw(x);
    montgomery::lemma_residue(field::fp_modulus(), x.raw());
    bytes::lemma_le_of_bytes(x.raw(), 32);
}

/// 32 bytes that stand for a reduced coordinate are its bytes.
proof fn lemma_fp_bytes(t: Seq<u8>)
    requires
        t.len() == 32,
        Fp::of_raw(bytes::le(t)).wf(),
    ensures
        fp_file(Fp::of_raw(bytes::le(t))) == t,
{
    let x = Fp::of_raw(bytes::le(t));
    bytes::lemma_word_sizes();
    bytes::lemma_le_bound(t);
    Fp::lemma_of_raw(bytes::le(t));
    lemma_fp_file(x);
    bytes::lemma_le_injective(t, fp_file(x));
}

/// 32 bytes that stand for zero are zeros.
proof fn lemma_zero_bytes(t: Seq<u8>)
    requires
        t.len() == 32,
    ensures
        Fp::of_raw(bytes::le(t)) == Fp::zero_spec() <==> t == le_bytes(0, 32),
        le_bytes(0, 32).len() == 32,
        Fp::zero_spec().wf(),
{
    bytes::lemma_word_sizes();
    bytes::lemma_le_bound(t);
    bytes::lemma_le_of_bytes(0, 32);
    Fp::lemma_constants();
    Fp::lemma_of_raw(bytes::le(t));
    Fp::lemma_of_raw(0);
    Fp::lemma_raw(Fp::zero_spec());
    Fp::lemma_val(Fp::zero_spec());
    field::lemma_fp_modulus();
    montgomery::lemma_residue(field::fp_modulus(), Fp::zero_spec().raw());
    assert(Fp::zero_spec().raw() == 0);
    if Fp::of_raw(bytes::le(t)) == Fp::zero_spec() {
        assert(bytes::le(t) == 0);
        bytes::lemma_le_injective(t, le_bytes(0, 32));
    }
}

/// No finite point of the curve has both coordinates zero.
proof fn lemma_finite<F: Field>(p: Affine<F>, b: F)
    requires
        curve::smooth(b),
        plain(p, b),
        !p.infinity,
    ensures
        !(p.x == F::zero_spec() && p.y == F::zero_spec()),
{
    if p.x == F::zero_spec() && p.y == F::zero_spec() {
        F::constants_wf();
        let z = F::zero_spec();
        ring::lemma_mul_zero(z);
        F::additive(b, z, z);
        F::additive(z, b, z);
        assert(z * z * z + b == z);
    }
}

/// The bytes of a point in G1 read as the point.
proof fn lemma_g1_reads(s: Seq<u8>, off: int, p: G1Affine)
    requires
        0 <= off,
        off + 64 <= s.len(),
        s.subrange(off, off + 64) == g1_file(p),
        plain(p, ec::g1_b_spec()),
    ensures
        zkey::g1_at(s, off) == p,
        zkey::lies(p, ec::g1_b_spec()),
{
    let (t, u) = (s.subrange(off, off + 32), s.subrange(off + 32, off + 64));
    let w = s.subrange(off, off + 64);
    assert(t =~= w.subrange(0, 32));
    assert(u =~= w.subrange(32, 64));
    lemma_zero_bytes(t);
    lemma_zero_bytes(u);
    lemma_fp_file(p.x);
    lemma_fp_file(p.y);
    ec::lemma_g1_smooth();
    if p.infinity {
        assert(t =~= le_bytes(0, 32));
        assert(u =~= le_bytes(0, 32));
    } else {
        assert(t =~= fp_file(p.x));
        assert(u =~= fp_file(p.y));
        lemma_finite(p, ec::g1_b_spec());
    }
}

/// A point in G1 that was read is in the file as its bytes.
proof fn lemma_g1_written(s: Seq<u8>, off: int)
    requires
        0 <= off,
        off + 64 <= s.len(),
        zkey::lies(zkey::g1_at(s, off), ec::g1_b_spec()),
    ensures
        s.subrange(off, off + 64) == g1_file(zkey::g1_at(s, off)),
        plain(zkey::g1_at(s, off), ec::g1_b_spec()),
{
    let (t, u) = (s.subrange(off, off + 32), s.subrange(off + 32, off + 64));
    let p = zkey::g1_at(s, off);
    lemma_zero_bytes(t);
    lemma_zero_bytes(u);
    if !p.infinity {
        lemma_fp_bytes(t);
        lemma_fp_bytes(u);
    }
    assert(s.subrange(off, off + 64) =~= t + u);
}

/// The bytes of a point in G2 read as the point.
proof fn lemma_g2_reads(s: Seq<u8>, off: int, p: G2Affine)
    requires
        0 <= off,
        off + 128 <= s.len(),
        s.subrange(off, off + 128) == g2_file(p),
        plain(p, ec::g2_b_spec()),
    ensures
        zkey::g2_at(s, off) == p,
        zkey::lies(p, ec::g2_b_spec()),
{
    let w = s.subrange(off, off + 128);
    let (t, u) = (s.subrange(off, off + 32), s.subrange(off + 32, off + 64));
    let (v, x) = (s.subrange(off + 64, off + 96), s.subrange(off + 96, off + 128));
    assert(t =~= w.subrange(0, 32));
    assert(u =~= w.subrange(32, 64));
    assert(v =~= w.subrange(64, 96));
    assert(x =~= w.subrange(96, 128));
    lemma_zero_bytes(t);
    lemma_zero_bytes(u);
    lemma_zero_bytes(v);
    lemma_zero_bytes(x);
    lemma_fp_file(p.x.c0);
    lemma_fp_file(p.x.c1);
    lemma_fp_file(p.y.c0);
    lemma_fp_file(p.y.c1);
    ec::lemma_g2_smooth();
    if p.infinity {
        assert(t =~= le_bytes(0, 32));
        assert(u =~= le_bytes(0, 32));
        assert(v =~= le_bytes(0, 32));
        assert(x =~= le_bytes(0, 32));
    } else {
        assert(t =~= fp_file(p.x.c0));
        assert(u =~= fp_file(p.x.c1));
        assert(v =~= fp_file(p.y.c0));
        assert(x =~= fp_file(p.y.c1));
        lemma_finite(p, ec::g2_b_spec());
    }
}

/// A point in G2 that was read is in the file as its bytes.
proof fn lemma_g2_written(s: Seq<u8>, off: int)
    requires
        0 <= off,
        off + 128 <= s.len(),
        zkey::lies(zkey::g2_at(s, off), ec::g2_b_spec()),
    ensures
        s.subrange(off, off + 128) == g2_file(zkey::g2_at(s, off)),
        plain(zkey::g2_at(s, off), ec::g2_b_spec()),
{
    let (t, u) = (s.subrange(off, off + 32), s.subrange(off + 32, off + 64));
    let (v, x) = (s.subrange(off + 64, off + 96), s.subrange(off + 96, off + 128));
    let p = zkey::g2_at(s, off);
    lemma_zero_bytes(t);
    lemma_zero_bytes(u);
    lemma_zero_bytes(v);
    lemma_zero_bytes(x);
    if !p.infinity {
        lemma_fp_bytes(t);
        lemma_fp_bytes(u);
        lemma_fp_bytes(v);
        lemma_fp_bytes(x);
    }
    assert(s.subrange(off, off + 128) =~= t + u + v + x);
}

// ---- lists -------------------------------------------------------------------------------------

/// Bytes are their records of one size, one after another.
proof fn lemma_chunks(s: Seq<u8>, size: nat, n: nat, records: Seq<Seq<u8>>)
    requires
        s.len() == size * n,
        records.len() == n,
        forall|i: int|
            0 <= i < n ==> #[trigger] records[i] == s.subrange(size * i, size * i + size),
    ensures
        s == packed(records),
    decreases n,
{
    if n == 0 {
        assert(size * 0 == 0) by (nonlinear_arith);
        assert(s =~= packed(records));
    } else {
        let m = (n - 1) as nat;
        assert(size * n == size * m + size) by (nonlinear_arith)
            requires
                n == m + 1,
        ;
        let front = s.subrange(0, (size * m) as int);
        assert forall|i: int| 0 <= i < m implies #[trigger] records.drop_last()[i]
            == front.subrange(size * i, size * i + size) by {
            assert(records[i] == s.subrange(size * i, size * i + size));
            assert(0 <= size * i && size * i + size <= size * m) by (nonlinear_arith)
                requires
                    0 <= i < m,
            ;
            assert(front.subrange(size * i, size * i + size) =~= s.subrange(
                size * i,
                size * i + size,
            ));
        }
        lemma_chunks(front, size, m, records.drop_last());
        assert(records[n - 1] == s.subrange(size * (n - 1), size * (n - 1) + size));
        assert(s =~= front + records.last());
    }
}

/// A list without errors has none at any point, and the other way round.
proof fn lemma_g1_errors(s: Seq<u8>, id: u32, n: int)
    requires
        forall|i: int|
            0 <= i < n ==> zkey::lies(#[trigger] zkey::g1_at(s, 64 * i), ec::g1_b_spec()),
    ensures
        zkey::g1_points_error(s, id, n) is None,
    decreases n,
{
    if n > 0 {
        lemma_g1_errors(s, id, n - 1);
        assert(zkey::lies(zkey::g1_at(s, 64 * (n - 1)), ec::g1_b_spec()));
    }
}

/// A list without errors has none at any point, and the other way round.
proof fn lemma_g2_errors(s: Seq<u8>, id: u32, n: int)
    requires
        forall|i: int|
            0 <= i < n ==> zkey::lies(#[trigger] zkey::g2_at(s, 128 * i), ec::g2_b_spec()),
    ensures
        zkey::g2_points_error(s, id, n) is None,
    decreases n,
{
    if n > 0 {
        lemma_g2_errors(s, id, n - 1);
        assert(zkey::lies(zkey::g2_at(s, 128 * (n - 1)), ec::g2_b_spec()));
    }
}

/// Every point of the list is plain.
pub open spec fn all_plain<F: Field>(points: Seq<Affine<F>>, b: F) -> bool {
    forall|i: int| 0 <= i < points.len() ==> plain(#[trigger] points[i], b)
}

/// Points that were written read back, whatever their number.
pub proof fn lemma_g1s_read_back(points: Seq<G1Affine>, id: u32)
    requires
        all_plain(points, ec::g1_b_spec()),
    ensures
        g1s_file(points).len() == 64 * points.len(),
        zkey::g1_section_error(g1s_file(points), id) is None,
        zkey::g1_points(g1s_file(points)) == points,
{
    let records = points.map_values(|p: G1Affine| g1_file(p));
    let s = g1s_file(points);
    assert forall|i: int| 0 <= i < records.len() implies (#[trigger] records[i]).len() == 64 by {
        lemma_g1_len(points[i]);
    }
    pack::lemma_packed_len(records, 64);
    assert forall|i: int| 0 <= i < points.len() implies #[trigger] zkey::g1_at(s, 64 * i)
        == points[i] && zkey::lies(zkey::g1_at(s, 64 * i), ec::g1_b_spec()) by {
        pack::lemma_packed(records, 64, i);
        assert(records[i] == g1_file(points[i]));
        lemma_g1_reads(s, 64 * i, points[i]);
    }
    lemma_g1_errors(s, id, points.len() as int);
    assert(s.len() as int / 64 == points.len());
    assert(zkey::g1_points(s) =~= points);
}

proof fn lemma_g1_len(p: G1Affine)
    ensures
        g1_file(p).len() == 64,
{
}

/// A section of points in G1 that is accepted holds the bytes of its points.
pub proof fn lemma_g1s_written(s: Seq<u8>, id: u32)
    requires
        zkey::g1_section_error(s, id) is None,
    ensures
        s == g1s_file(zkey::g1_points(s)),
        all_plain(zkey::g1_points(s), ec::g1_b_spec()),
{
    let points = zkey::g1_points(s);
    let n = (s.len() / 64) as nat;
    let records = points.map_values(|p: G1Affine| g1_file(p));
    assert forall|i: int| 0 <= i < n implies #[trigger] records[i] == s.subrange(
        64 * i,
        64 * i + 64,
    ) && plain(points[i], ec::g1_b_spec()) by {
        zkey::lemma_g1_fine(s, id, n as int, i);
        lemma_g1_written(s, 64 * i);
    }
    assert forall|i: int| 0 <= i < points.len() implies plain(
        #[trigger] points[i],
        ec::g1_b_spec(),
    ) by {
        assert(records[i] == g1_file(points[i]));
    }
    lemma_chunks(s, 64, n, records);
}

/// Points that were written read back, whatever their number.
pub proof fn lemma_g2s_read_back(points: Seq<G2Affine>, id: u32)
    requires
        all_plain(points, ec::g2_b_spec()),
    ensures
        g2s_file(points).len() == 128 * points.len(),
        zkey::g2_section_error(g2s_file(points), id) is None,
        zkey::g2_points(g2s_file(points)) == points,
{
    let records = points.map_values(|p: G2Affine| g2_file(p));
    let s = g2s_file(points);
    assert forall|i: int| 0 <= i < records.len() implies (#[trigger] records[i]).len() == 128 by {
        lemma_g2_len(points[i]);
    }
    pack::lemma_packed_len(records, 128);
    assert forall|i: int| 0 <= i < points.len() implies #[trigger] zkey::g2_at(s, 128 * i)
        == points[i] && zkey::lies(zkey::g2_at(s, 128 * i), ec::g2_b_spec()) by {
        pack::lemma_packed(records, 128, i);
        assert(records[i] == g2_file(points[i]));
        lemma_g2_reads(s, 128 * i, points[i]);
    }
    lemma_g2_errors(s, id, points.len() as int);
    assert(s.len() as int / 128 == points.len());
    assert(zkey::g2_points(s) =~= points);
}

proof fn lemma_g2_len(p: G2Affine)
    ensures
        g2_file(p).len() == 128,
{
}

/// A section of points in G2 that is accepted holds the bytes of its points.
pub proof fn lemma_g2s_written(s: Seq<u8>, id: u32)
    requires
        zkey::g2_section_error(s, id) is None,
    ensures
        s == g2s_file(zkey::g2_points(s)),
        all_plain(zkey::g2_points(s), ec::g2_b_spec()),
{
    let points = zkey::g2_points(s);
    let n = (s.len() / 128) as nat;
    let records = points.map_values(|p: G2Affine| g2_file(p));
    assert forall|i: int| 0 <= i < n implies #[trigger] records[i] == s.subrange(
        128 * i,
        128 * i + 128,
    ) && plain(points[i], ec::g2_b_spec()) by {
        zkey::lemma_g2_fine(s, id, n as int, i);
        lemma_g2_written(s, 128 * i);
    }
    assert forall|i: int| 0 <= i < points.len() implies plain(
        #[trigger] points[i],
        ec::g2_b_spec(),
    ) by {
        assert(records[i] == g2_file(points[i]));
    }
    lemma_chunks(s, 128, n, records);
}

// ---- coefficients ------------------------------------------------------------------------------

/// A coefficient: the matrix, the constraint, the signal, and the residue of the value times
/// `2^512`, reduced.
pub open spec fn coefficient_file(c: Coefficient) -> Seq<u8> {
    le_bytes(c.matrix as int, 4) + le_bytes(c.constraint as int, 4) + le_bytes(c.signal as int, 4)
        + le_bytes((c.value.val() * limbs::radix() * limbs::radix()) % certificates::r(), 32)
}

/// The coefficient section: the number of coefficients, then the coefficients.
pub open spec fn coefficients_file(list: Seq<Coefficient>) -> Seq<u8> {
    le_bytes(list.len() as int, 4) + packed(list.map_values(|c: Coefficient| coefficient_file(c)))
}

/// How a coefficient is stored: the representative of the representative.
proof fn lemma_stored_twice(v: Fr)
    requires
        v.wf(),
    ensures
        ({
            let p = field::fr_modulus();
            let m = (v.val() * limbs::radix() * limbs::radix()) % certificates::r();
            &&& m == p.stored(p.stored(v.val()))
            &&& 0 <= m < certificates::r()
        }),
{
    let p = field::fr_modulus();
    field::lemma_fr_modulus();
    Fr::lemma_val(v);
    lemma_mul_mod_noop_left(v.val() * limbs::radix(), limbs::radix(), p.m);
    lemma_mod_bound(v.val() * limbs::radix() * limbs::radix(), p.m);
}

/// What a stored value reads as.
proof fn lemma_stored_value(m: int)
    requires
        0 <= m < certificates::r(),
    ensures
        ({
            let p = field::fr_modulus();
            let v = Fr::of_raw(m) * Fr::of_raw(1);
            &&& v.wf()
            &&& v.val() == p.residue(p.residue(m))
        }),
{
    let p = field::fr_modulus();
    field::lemma_fr_modulus();
    Fr::lemma_of_raw(m);
    Fr::lemma_of_raw(1);
    let (x, y) = (Fr::of_raw(m), Fr::of_raw(1));
    Fr::lemma_ops(x, y);
    assert(x.val() == p.residue(m));
    assert(y.val() == p.rinv % p.m) by {
        lemma_mul_basics(p.rinv);
    }
    lemma_small_mod(p.rinv as nat, p.m as nat);
}

/// The bytes of a coefficient read as the coefficient.
proof fn lemma_coefficient_reads(s: Seq<u8>, i: int, c: Coefficient)
    requires
        0 <= i,
        4 + 44 * i + 44 <= s.len(),
        s.subrange(4 + 44 * i, 4 + 44 * i + 44) == coefficient_file(c),
        c.value.wf(),
    ensures
        zkey::coefficient_at(s, i) == c,
        zkey::stored_value(s, 4 + 44 * i + 12) < certificates::r(),
        zkey::word(s, 4 + 44 * i) == c.matrix,
        zkey::word(s, 4 + 44 * i + 4) == c.constraint,
        zkey::word(s, 4 + 44 * i + 8) == c.signal,
{
    let off = 4 + 44 * i;
    let w = s.subrange(off, off + 44);
    let p = field::fr_modulus();
    let m = (c.value.val() * limbs::radix() * limbs::radix()) % certificates::r();
    field::lemma_fr_modulus();
    bytes::lemma_word_sizes();
    lemma_stored_twice(c.value);
    lemma_stored_value(m);
    Fr::lemma_val(c.value);
    montgomery::lemma_stored(p, c.value.val());
    montgomery::lemma_stored(p, p.stored(c.value.val()));
    Fr::lemma_val(Fr::of_raw(m) * Fr::of_raw(1));
    bytes::lemma_le_of_bytes(c.matrix as int, 4);
    bytes::lemma_le_of_bytes(c.constraint as int, 4);
    bytes::lemma_le_of_bytes(c.signal as int, 4);
    bytes::lemma_le_of_bytes(m, 32);
    assert(s.subrange(off, off + 4) =~= w.subrange(0, 4));
    assert(w.subrange(0, 4) =~= le_bytes(c.matrix as int, 4));
    assert(s.subrange(off + 4, off + 8) =~= w.subrange(4, 8));
    assert(w.subrange(4, 8) =~= le_bytes(c.constraint as int, 4));
    assert(s.subrange(off + 8, off + 12) =~= w.subrange(8, 12));
    assert(w.subrange(8, 12) =~= le_bytes(c.signal as int, 4));
    assert(s.subrange(off + 12, off + 44) =~= w.subrange(12, 44));
    assert(w.subrange(12, 44) =~= le_bytes(m, 32));
}

/// A coefficient that was read is in the file as its bytes.
proof fn lemma_coefficient_written(s: Seq<u8>, i: int)
    requires
        0 <= i,
        4 + 44 * i + 44 <= s.len(),
        zkey::stored_value(s, 4 + 44 * i + 12) < certificates::r(),
    ensures
        s.subrange(4 + 44 * i, 4 + 44 * i + 44) == coefficient_file(zkey::coefficient_at(s, i)),
        zkey::coefficient_at(s, i).value.wf(),
{
    let off = 4 + 44 * i;
    let c = zkey::coefficient_at(s, i);
    let p = field::fr_modulus();
    field::lemma_fr_modulus();
    bytes::lemma_word_sizes();
    let (a, b) = (s.subrange(off, off + 4), s.subrange(off + 4, off + 8));
    let (d, e) = (s.subrange(off + 8, off + 12), s.subrange(off + 12, off + 44));
    let m = bytes::le(e);
    bytes::lemma_le_bound(a);
    bytes::lemma_le_bound(b);
    bytes::lemma_le_bound(d);
    bytes::lemma_le_bound(e);
    bytes::lemma_bytes_of_le(a);
    bytes::lemma_bytes_of_le(b);
    bytes::lemma_bytes_of_le(d);
    bytes::lemma_bytes_of_le(e);
    lemma_stored_value(m);
    lemma_stored_twice(c.value);
    montgomery::lemma_residue(p, m);
    montgomery::lemma_residue(p, p.residue(m));
    assert(s.subrange(off, off + 44) =~= a + b + d + e);
}

/// The list names constraints of the domain in ascending order, signals and matrices, with
/// reduced values.
pub open spec fn plain_list(list: Seq<Coefficient>, vars: int, domain: int) -> bool {
    &&& list.len() <= u32::MAX
    &&& forall|i: int|
        0 <= i < list.len() ==> (#[trigger] list[i]).matrix <= 1 && list[i].constraint < domain
            && list[i].signal < vars && list[i].value.wf()
    &&& forall|i: int, j: int|
        0 <= i < j < list.len() ==> (#[trigger] list[i]).constraint <= (
        #[trigger] list[j]).constraint
}

proof fn lemma_coefficient_errors(s: Seq<u8>, n: int, vars: int, domain: int)
    requires
        forall|i: int|
            0 <= i < n ==> #[trigger] zkey::coefficient_error(s, i, vars, domain) is None,
    ensures
        zkey::coefficients_error(s, n, vars, domain) is None,
    decreases n,
{
    if n > 0 {
        lemma_coefficient_errors(s, n - 1, vars, domain);
        assert(zkey::coefficient_error(s, n - 1, vars, domain) is None);
    }
}

/// Coefficients that were written read back, whatever their number.
pub proof fn lemma_coefficients_read_back(list: Seq<Coefficient>, vars: int, domain: int)
    requires
        plain_list(list, vars, domain),
    ensures
        ({
            let s = coefficients_file(list);
            &&& zkey::coefficient_section_error(s, vars, domain) is None
            &&& zkey::word(s, 0) == list.len()
            &&& Seq::new(zkey::word(s, 0) as nat, |i: int| zkey::coefficient_at(s, i)) == list
        }),
{
    let records = list.map_values(|c: Coefficient| coefficient_file(c));
    let s = coefficients_file(list);
    let t = packed(records);
    bytes::lemma_word_sizes();
    bytes::lemma_le_of_bytes(list.len() as int, 4);
    assert(s.subrange(0, 4) =~= le_bytes(list.len() as int, 4));
    assert forall|i: int| 0 <= i < records.len() implies (#[trigger] records[i]).len() == 44 by {}
    pack::lemma_packed_len(records, 44);
    assert forall|i: int| 0 <= i < list.len() implies #[trigger] zkey::coefficient_at(s, i)
        == list[i] && zkey::stored_value(s, 4 + 44 * i + 12) < certificates::r() && zkey::word(
        s,
        4 + 44 * i,
    ) == list[i].matrix && zkey::word(s, 4 + 44 * i + 4) == list[i].constraint && zkey::word(
        s,
        4 + 44 * i + 8,
    ) == list[i].signal by {
        pack::lemma_packed(records, 44, i);
        assert(s.subrange(4 + 44 * i, 4 + 44 * i + 44) =~= t.subrange(44 * i, 44 * i + 44));
        assert(records[i] == coefficient_file(list[i]));
        lemma_coefficient_reads(s, i, list[i]);
    }
    assert forall|i: int| 0 <= i < list.len() implies #[trigger] zkey::coefficient_error(
        s,
        i,
        vars,
        domain,
    ) is None by {
        assert(zkey::coefficient_at(s, i) == list[i]);
        if i > 0 {
            assert(zkey::coefficient_at(s, i - 1) == list[i - 1]);
            assert(4 + 44 * (i - 1) + 4 == 4 + 44 * i - 40);
            assert(list[i - 1].constraint <= list[i].constraint);
        }
    }
    lemma_coefficient_errors(s, list.len() as int, vars, domain);
    assert(Seq::new(zkey::word(s, 0) as nat, |i: int| zkey::coefficient_at(s, i)) =~= list);
}

/// A coefficient section that is accepted holds the bytes of its coefficients, in order.
pub proof fn lemma_coefficients_written(s: Seq<u8>, vars: int, domain: int)
    requires
        zkey::coefficient_section_error(s, vars, domain) is None,
    ensures
        ({
            let list = Seq::new(zkey::word(s, 0) as nat, |i: int| zkey::coefficient_at(s, i));
            &&& s == coefficients_file(list)
            &&& plain_list(list, vars, domain)
        }),
{
    let n = zkey::word(s, 0);
    let list = Seq::new(n as nat, |i: int| zkey::coefficient_at(s, i));
    bytes::lemma_word_sizes();
    bytes::lemma_le_bound(s.subrange(0, 4));
    bytes::lemma_bytes_of_le(s.subrange(0, 4));
    let t = s.skip(4);
    let records = list.map_values(|c: Coefficient| coefficient_file(c));
    assert forall|i: int| 0 <= i < n implies #[trigger] records[i] == t.subrange(
        44 * i,
        44 * i + 44,
    ) by {
        zkey::lemma_coefficient_fine(s, i, n, vars, domain);
        lemma_coefficient_written(s, i);
        assert(t.subrange(44 * i, 44 * i + 44) =~= s.subrange(4 + 44 * i, 4 + 44 * i + 44));
    }
    lemma_chunks(t, 44, n as nat, records);
    assert(s =~= s.subrange(0, 4) + t);
    assert forall|i: int| 0 <= i < list.len() implies (#[trigger] list[i]).matrix <= 1
        && list[i].constraint < domain && list[i].signal < vars && list[i].value.wf() by {
        zkey::lemma_coefficient_fine(s, i, n, vars, domain);
        lemma_coefficient_written(s, i);
    }
    zkey::lemma_ascends(s, n, vars, domain);
}

// ---- the header --------------------------------------------------------------------------------

/// The header: the two moduli with their sizes, the three sizes, and the verifying key.
pub open spec fn header_file(z: Zkey) -> Seq<u8> {
    le_bytes(32, 4) + le_bytes(certificates::q(), 32) + le_bytes(32, 4) + le_bytes(
        certificates::r(),
        32,
    ) + le_bytes(z.num_vars as int, 4) + le_bytes(z.num_public as int, 4) + le_bytes(
        z.domain_size as int,
        4,
    ) + verifying_key_file(z.vk)
}

/// The verifying key: α and β in G1, β and γ in G2, δ in G1 and in G2.
pub open spec fn verifying_key_file(vk: VerifyingKey) -> Seq<u8> {
    g1_file(vk.alpha_g1) + g1_file(vk.beta_g1) + g2_file(vk.beta_g2) + g2_file(vk.gamma_g2)
        + g1_file(vk.delta_g1) + g2_file(vk.delta_g2)
}

/// The points of the verifying key are plain.
pub open spec fn plain_key(vk: VerifyingKey) -> bool {
    let (b1, b2) = (ec::g1_b_spec(), ec::g2_b_spec());
    &&& plain(vk.alpha_g1, b1)
    &&& plain(vk.beta_g1, b1)
    &&& plain(vk.beta_g2, b2)
    &&& plain(vk.gamma_g2, b2)
    &&& plain(vk.delta_g1, b1)
    &&& plain(vk.delta_g2, b2)
}

/// The moduli are numbers of 32 bytes.
proof fn lemma_moduli()
    ensures
        bytes::le(le_bytes(certificates::q(), 32)) == certificates::q(),
        bytes::le(le_bytes(certificates::r(), 32)) == certificates::r(),
        bytes::le(le_bytes(32, 4)) == 32,
{
    field::lemma_fp_modulus();
    field::lemma_fr_modulus();
    bytes::lemma_word_sizes();
    bytes::lemma_le_of_bytes(certificates::q(), 32);
    bytes::lemma_le_of_bytes(certificates::r(), 32);
    bytes::lemma_le_of_bytes(32, 4);
}

/// The verifying key that stands at byte 84 reads back.
proof fn lemma_key_reads(s: Seq<u8>, vk: VerifyingKey)
    requires
        s.len() >= 660,
        s.subrange(84, 660) == verifying_key_file(vk),
        plain_key(vk),
    ensures
        zkey::key_error(s) is None,
        zkey::key_of(s) == vk,
{
    let w = s.subrange(84, 660);
    lemma_g1_len(vk.alpha_g1);
    lemma_g1_len(vk.beta_g1);
    lemma_g1_len(vk.delta_g1);
    lemma_g2_len(vk.beta_g2);
    lemma_g2_len(vk.gamma_g2);
    lemma_g2_len(vk.delta_g2);
    assert(s.subrange(84, 148) =~= w.subrange(0, 64));
    assert(w.subrange(0, 64) =~= g1_file(vk.alpha_g1));
    assert(s.subrange(148, 212) =~= w.subrange(64, 128));
    assert(w.subrange(64, 128) =~= g1_file(vk.beta_g1));
    assert(s.subrange(212, 340) =~= w.subrange(128, 256));
    assert(w.subrange(128, 256) =~= g2_file(vk.beta_g2));
    assert(s.subrange(340, 468) =~= w.subrange(256, 384));
    assert(w.subrange(256, 384) =~= g2_file(vk.gamma_g2));
    assert(s.subrange(468, 532) =~= w.subrange(384, 448));
    assert(w.subrange(384, 448) =~= g1_file(vk.delta_g1));
    assert(s.subrange(532, 660) =~= w.subrange(448, 576));
    assert(w.subrange(448, 576) =~= g2_file(vk.delta_g2));
    lemma_g1_reads(s, 84, vk.alpha_g1);
    lemma_g1_reads(s, 148, vk.beta_g1);
    lemma_g2_reads(s, 212, vk.beta_g2);
    lemma_g2_reads(s, 340, vk.gamma_g2);
    lemma_g1_reads(s, 468, vk.delta_g1);
    lemma_g2_reads(s, 532, vk.delta_g2);
}

/// The header reads back, whatever follows it.
#[verifier::spinoff_prover]
#[verifier::rlimit(60)]
proof fn lemma_header_reads(z: Zkey, more: Seq<u8>)
    requires
        z.num_vars <= u32::MAX,
        z.num_public < z.num_vars,
        z.domain_size <= u32::MAX,
        exists|k: nat| z.domain_size == #[trigger] pow2(k),
        plain_key(z.vk),
    ensures
        ({
            let s = header_file(z) + more;
            &&& zkey::header_error(s) is None
            &&& zkey::word(s, 72) == z.num_vars
            &&& zkey::word(s, 76) == z.num_public
            &&& zkey::word(s, 80) == z.domain_size
            &&& zkey::key_of(s) == z.vk
        }),
{
    let s = header_file(z) + more;
    let vk = z.vk;
    lemma_g1_len(vk.alpha_g1);
    lemma_g1_len(vk.beta_g1);
    lemma_g1_len(vk.delta_g1);
    lemma_g2_len(vk.beta_g2);
    lemma_g2_len(vk.gamma_g2);
    lemma_g2_len(vk.delta_g2);
    assert(verifying_key_file(vk).len() == 576);
    assert(header_file(z).len() == 660);
    bytes::lemma_word_sizes();
    bytes::lemma_le_of_bytes(z.num_vars as int, 4);
    bytes::lemma_le_of_bytes(z.num_public as int, 4);
    bytes::lemma_le_of_bytes(z.domain_size as int, 4);
    lemma_moduli();
    assert(s.subrange(0, 4) =~= le_bytes(32, 4));
    assert(s.subrange(4, 36) =~= le_bytes(certificates::q(), 32));
    assert(s.subrange(36, 40) =~= le_bytes(32, 4));
    assert(s.subrange(40, 72) =~= le_bytes(certificates::r(), 32));
    assert(s.subrange(72, 76) =~= le_bytes(z.num_vars as int, 4));
    assert(s.subrange(76, 80) =~= le_bytes(z.num_public as int, 4));
    assert(s.subrange(80, 84) =~= le_bytes(z.domain_size as int, 4));
    assert(s.subrange(84, 660) =~= verifying_key_file(vk));
    lemma_key_reads(s, vk);
    assert(dft::power_of_two(z.domain_size as nat));
}

/// A verifying key that is accepted stands in the header as its bytes.
#[verifier::rlimit(30)]
proof fn lemma_key_written(s: Seq<u8>)
    requires
        zkey::key_error(s) is None,
    ensures
        s.len() >= 660,
        s.subrange(84, 660) == verifying_key_file(zkey::key_of(s)),
        plain_key(zkey::key_of(s)),
{
    lemma_g1_written(s, 84);
    lemma_g1_written(s, 148);
    lemma_g2_written(s, 212);
    lemma_g2_written(s, 340);
    lemma_g1_written(s, 468);
    lemma_g2_written(s, 532);
    let k1 = s.subrange(84, 148) + s.subrange(148, 212);
    let k2 = k1 + s.subrange(212, 340);
    let k3 = k2 + s.subrange(340, 468);
    let k4 = k3 + s.subrange(468, 532);
    assert(s.subrange(84, 212) =~= k1);
    assert(s.subrange(84, 340) =~= k2);
    assert(s.subrange(84, 468) =~= k3);
    assert(s.subrange(84, 532) =~= k4);
    assert(s.subrange(84, 660) =~= k4 + s.subrange(532, 660));
}

/// The parts of a header.
proof fn lemma_word_split(s: Seq<u8>)
    requires
        s.len() >= 660,
    ensures
        s == s.subrange(0, 4) + s.subrange(4, 36) + s.subrange(36, 40) + s.subrange(40, 72)
            + s.subrange(72, 76) + s.subrange(76, 80) + s.subrange(80, 84) + s.subrange(84, 660)
            + s.skip(660),
{
    assert(s.take(36) =~= s.subrange(0, 4) + s.subrange(4, 36));
    assert(s.take(40) =~= s.take(36) + s.subrange(36, 40));
    assert(s.take(72) =~= s.take(40) + s.subrange(40, 72));
    assert(s.take(76) =~= s.take(72) + s.subrange(72, 76));
    assert(s.take(80) =~= s.take(76) + s.subrange(76, 80));
    assert(s.take(84) =~= s.take(80) + s.subrange(80, 84));
    assert(s.take(660) =~= s.take(84) + s.subrange(84, 660));
    assert(s =~= s.take(660) + s.skip(660));
}

/// A header that is accepted holds the bytes of what was read, and more or nothing after it.
#[verifier::spinoff_prover]
#[verifier::rlimit(60)]
proof fn lemma_header_written(s: Seq<u8>, z: Zkey)
    requires
        zkey::header_error(s) is None,
        z.num_vars == zkey::word(s, 72),
        z.num_public == zkey::word(s, 76),
        z.domain_size == zkey::word(s, 80),
        z.vk == zkey::key_of(s),
    ensures
        s.len() >= 660,
        s == header_file(z) + s.skip(660),
        plain_key(z.vk),
        z.num_public < z.num_vars <= u32::MAX,
        z.domain_size <= u32::MAX,
        exists|k: nat| z.domain_size == #[trigger] pow2(k),
{
    bytes::lemma_word_sizes();
    bytes::lemma_le_bound(s.subrange(0, 4));
    lemma_moduli();
    assert(zkey::moduli_error(s) is None);
    assert(s.len() >= 72);
    bytes::lemma_le_bound(s.subrange(72, 76));
    bytes::lemma_le_bound(s.subrange(76, 80));
    bytes::lemma_le_bound(s.subrange(80, 84));
    bytes::lemma_bytes_of_le(s.subrange(0, 4));
    bytes::lemma_bytes_of_le(s.subrange(4, 36));
    bytes::lemma_bytes_of_le(s.subrange(36, 40));
    bytes::lemma_bytes_of_le(s.subrange(40, 72));
    bytes::lemma_bytes_of_le(s.subrange(72, 76));
    bytes::lemma_bytes_of_le(s.subrange(76, 80));
    bytes::lemma_bytes_of_le(s.subrange(80, 84));
    lemma_key_written(s);
    lemma_word_split(s);
}

// ---- the sections ------------------------------------------------------------------------------

/// A section in its frame: its number, the size of its contents, and its contents.
pub open spec fn frame(id: int, contents: Seq<u8>) -> Seq<u8> {
    le_bytes(id, 4) + le_bytes(contents.len() as int, 8) + contents
}

/// The first `n` sections, numbered from one.
pub open spec fn framed(contents: Seq<Seq<u8>>, n: int) -> Seq<u8>
    decreases n,
{
    if n <= 0 {
        Seq::empty()
    } else {
        framed(contents, n - 1) + frame(n, contents[n - 1])
    }
}

/// What a file begins with: four letters, the version, the number of sections.
pub open spec fn opening(letters: Seq<u8>, version: int, sections: int) -> Seq<u8> {
    letters + le_bytes(version, 4) + le_bytes(sections, 4)
}

/// The letters `zkey` in ASCII.
pub open spec fn zkey_letters() -> Seq<u8> {
    seq![122u8, 107, 101, 121]
}

/// The letters `wtns` in ASCII.
pub open spec fn wtns_letters() -> Seq<u8> {
    seq![119u8, 116, 110, 115]
}

/// The first sections are where they are whatever comes after them.
proof fn lemma_framed_prefix(contents: Seq<Seq<u8>>, n: int, m: int)
    requires
        0 <= n <= m,
    ensures
        framed(contents, n).len() <= framed(contents, m).len(),
        framed(contents, m).take(framed(contents, n).len() as int) == framed(contents, n),
    decreases m,
{
    let f = framed(contents, n);
    if n < m {
        lemma_framed_prefix(contents, n, m - 1);
        let g = framed(contents, m - 1);
        assert(framed(contents, m).take(f.len() as int) =~= g.take(f.len() as int));
    } else {
        assert(f.take(f.len() as int) =~= f);
    }
}

/// The sections of a file that was framed.
#[verifier::rlimit(30)]
proof fn lemma_framed_reads(head: Seq<u8>, contents: Seq<Seq<u8>>, rest: Seq<u8>, n: int)
    requires
        head.len() == 12,
        contents.len() == 10,
        0 <= n <= 10,
        forall|i: int|
            0 <= i < 10 ==> (#[trigger] contents[i]).len() < 0x1_0000_0000_0000_0000int,
    ensures
        ({
            let s = head + framed(contents, 10) + rest;
            &&& zkey::frames_error(s, n) is None
            &&& zkey::section_start(s, n + 1) == 24 + framed(contents, n).len()
            &&& 12 + framed(contents, n).len() <= s.len()
            &&& forall|k: int|
                1 <= k <= n ==> #[trigger] zkey::section(s, k) == contents[k - 1]
        }),
    decreases n,
{
    let s = head + framed(contents, 10) + rest;
    lemma_framed_prefix(contents, n, 10);
    if n > 0 {
        lemma_framed_reads(head, contents, rest, n - 1);
        let c = contents[n - 1];
        let cl = c.len() as int;
        let f = framed(contents, n - 1);
        let fl = f.len() as int;
        let at = 12 + fl;
        let all = framed(contents, 10);
        let g = framed(contents, n);
        bytes::lemma_word_sizes();
        bytes::lemma_le_of_bytes(n, 4);
        bytes::lemma_le_of_bytes(c.len() as int, 8);
        assert(g == f + frame(n, c));
        assert(g.len() == fl + 12 + cl);
        assert(s.subrange(12, 12 + g.len() as int) =~= all.take(g.len() as int));
        assert(s.subrange(at, at + 4) =~= g.subrange(fl, fl + 4));
        assert(g.subrange(fl, fl + 4) =~= le_bytes(n, 4));
        assert(s.subrange(at + 4, at + 12) =~= g.subrange(fl + 4, fl + 12));
        assert(g.subrange(fl + 4, fl + 12) =~= le_bytes(c.len() as int, 8));
        assert(s.subrange(at + 12, at + 12 + cl) =~= g.subrange(
            fl + 12,
            fl + 12 + cl,
        ));
        assert(g.subrange(fl + 12, fl + 12 + cl) =~= c);
        assert(zkey::section_start(s, n) == at + 12);
        assert(zkey::long(s, at + 4) == c.len());
        assert(zkey::frame_error(s, n) is None);
        assert(zkey::section(s, n) == c);
    }
}

/// A file without framing errors is its opening, its sections in their frames, and what follows.
#[verifier::rlimit(30)]
proof fn lemma_framed_written(s: Seq<u8>, contents: Seq<Seq<u8>>, n: int)
    requires
        s.len() >= 12,
        contents.len() == 10,
        0 <= n <= 10,
        forall|k: int| 1 <= k <= 10 ==> #[trigger] contents[k - 1] == zkey::section(s, k),
        zkey::frames_error(s, n) is None,
    ensures
        12 + framed(contents, n).len() <= s.len(),
        s.take(12 + framed(contents, n).len() as int) == s.take(12) + framed(contents, n),
        zkey::section_start(s, n + 1) == 24 + framed(contents, n).len(),
        forall|i: int|
            0 <= i < n ==> (#[trigger] contents[i]).len() < 0x1_0000_0000_0000_0000int,
    decreases n,
{
    if n > 0 {
        lemma_framed_written(s, contents, n - 1);
        let f = framed(contents, n - 1);
        let fl = f.len() as int;
        let at = 12 + fl;
        assert(zkey::frame_error(s, n) is None);
        assert(zkey::section_start(s, n) == at + 12);
        let c = contents[n - 1];
        let size = zkey::long(s, at + 4);
        bytes::lemma_word_sizes();
        bytes::lemma_le_bound(s.subrange(at, at + 4));
        bytes::lemma_le_bound(s.subrange(at + 4, at + 12));
        bytes::lemma_bytes_of_le(s.subrange(at, at + 4));
        bytes::lemma_bytes_of_le(s.subrange(at + 4, at + 12));
        assert(c == zkey::section(s, n));
        assert(c == s.subrange(at + 12, at + 12 + size));
        assert(c.len() == size);
        let g = framed(contents, n);
        assert(g == f + frame(n, c));
        let here = s.subrange(at, at + 4) + s.subrange(at + 4, at + 12) + s.subrange(
            at + 12,
            at + 12 + size,
        );
        assert(frame(n, c) == here);
        assert(s.take(12 + g.len() as int) =~= s.take(at) + here);
        assert(s.take(at) + here =~= s.take(12) + g);
    } else {
        assert(s.take(12 + framed(contents, 0).len() as int) =~= s.take(12) + framed(contents, 0));
    }
}

// ---- the key file ------------------------------------------------------------------------------

/// The contents of the ten sections of a key. What may follow the protocol number and the header,
/// and the last section, mean nothing to the prover.
pub open spec fn zkey_contents(
    z: Zkey,
    more1: Seq<u8>,
    more2: Seq<u8>,
    contributions: Seq<u8>,
) -> Seq<Seq<u8>> {
    seq![
        le_bytes(1, 4) + more1,
        header_file(z) + more2,
        g1s_file(z.ic@),
        coefficients_file(z.coefficients@),
        g1s_file(z.a@),
        g1s_file(z.b1@),
        g2s_file(z.b2@),
        g1s_file(z.c@),
        g1s_file(z.h@),
        contributions,
    ]
}

/// A file of a key: any version, and anything where nothing is read.
pub open spec fn zkey_file(
    z: Zkey,
    version: int,
    more1: Seq<u8>,
    more2: Seq<u8>,
    contributions: Seq<u8>,
    rest: Seq<u8>,
) -> Seq<u8> {
    opening(zkey_letters(), version, 10) + framed(
        zkey_contents(z, more1, more2, contributions),
        10,
    ) + rest
}

/// A key that a file can hold: fewer public inputs than variables, a domain that is a power of
/// two, lists of the matching lengths, reduced points on their curves, and coefficients in
/// ascending order with indices in range.
pub open spec fn storable(z: Zkey) -> bool {
    let (b1, b2) = (ec::g1_b_spec(), ec::g2_b_spec());
    &&& z.num_public < z.num_vars <= u32::MAX
    &&& z.domain_size <= u32::MAX
    &&& exists|k: nat| z.domain_size == #[trigger] pow2(k)
    &&& z.ic@.len() == z.num_public + 1
    &&& z.a@.len() == z.num_vars
    &&& z.b1@.len() == z.num_vars
    &&& z.b2@.len() == z.num_vars
    &&& z.c@.len() == z.num_vars - z.num_public - 1
    &&& z.h@.len() == z.domain_size
    &&& plain_key(z.vk)
    &&& all_plain(z.ic@, b1)
    &&& all_plain(z.a@, b1)
    &&& all_plain(z.b1@, b1)
    &&& all_plain(z.b2@, b2)
    &&& all_plain(z.c@, b1)
    &&& all_plain(z.h@, b1)
    &&& plain_list(z.coefficients@, z.num_vars as int, z.domain_size as int)
}

/// Two keys with the same contents.
pub open spec fn same_key(a: Zkey, b: Zkey) -> bool {
    &&& a.num_vars == b.num_vars
    &&& a.num_public == b.num_public
    &&& a.domain_size == b.domain_size
    &&& a.vk == b.vk
    &&& a.ic@ == b.ic@
    &&& a.coefficients@ == b.coefficients@
    &&& a.a@ == b.a@
    &&& a.b1@ == b.b1@
    &&& a.b2@ == b.b2@
    &&& a.c@ == b.c@
    &&& a.h@ == b.h@
}

/// Every file of a key is accepted, and what is read from it is the key.
#[verifier::spinoff_prover]
#[verifier::rlimit(60)]
pub proof fn lemma_zkey_file_parses(
    z: Zkey,
    version: int,
    more1: Seq<u8>,
    more2: Seq<u8>,
    contributions: Seq<u8>,
    rest: Seq<u8>,
    read: Zkey,
)
    requires
        storable(z),
        more1.len() < 0x1_0000_0000_0000int,
        more2.len() < 0x1_0000_0000_0000int,
        contributions.len() < 0x1_0000_0000_0000int,
    ensures
        zkey::zkey_error(zkey_file(z, version, more1, more2, contributions, rest)) is None,
        read.holds(zkey_file(z, version, more1, more2, contributions, rest)) <==> same_key(read, z),
{
    let s = zkey_file(z, version, more1, more2, contributions, rest);
    let contents = zkey_contents(z, more1, more2, contributions);
    let head = opening(zkey_letters(), version, 10);
    lemma_header_reads(z, more2);
    lemma_g1s_read_back(z.ic@, 3);
    lemma_coefficients_read_back(z.coefficients@, z.num_vars as int, z.domain_size as int);
    lemma_g1s_read_back(z.a@, 5);
    lemma_g1s_read_back(z.b1@, 6);
    lemma_g2s_read_back(z.b2@, 7);
    lemma_g1s_read_back(z.c@, 8);
    lemma_g1s_read_back(z.h@, 9);
    lemma_contents_fit(z, more1, more2, contributions);
    lemma_framed_reads(head, contents, rest, 10);
    bytes::lemma_word_sizes();
    bytes::lemma_le_of_bytes(10, 4);
    bytes::lemma_le_of_bytes(1, 4);
    assert(s.subrange(0, 4) =~= zkey::zkey_magic());
    assert(s.subrange(8, 12) =~= le_bytes(10, 4));
    assert(zkey::preamble_error(s) is None);
    assert(zkey::section(s, 1) == contents[0]);
    assert(zkey::section(s, 2) == contents[1]);
    assert(zkey::section(s, 3) == contents[2]);
    assert(zkey::section(s, 4) == contents[3]);
    assert(zkey::section(s, 5) == contents[4]);
    assert(zkey::section(s, 6) == contents[5]);
    assert(zkey::section(s, 7) == contents[6]);
    assert(zkey::section(s, 8) == contents[7]);
    assert(zkey::section(s, 9) == contents[8]);
    assert(contents[0].subrange(0, 4) =~= le_bytes(1, 4));
    assert(zkey::protocol_error(contents[0]) is None);
}

/// The sizes of lists.
proof fn lemma_list_sizes(ps: Seq<G1Affine>, qs: Seq<G2Affine>, list: Seq<Coefficient>)
    ensures
        g1s_file(ps).len() == 64 * ps.len(),
        g2s_file(qs).len() == 128 * qs.len(),
        coefficients_file(list).len() == 4 + 44 * list.len(),
{
    let r1 = ps.map_values(|p: G1Affine| g1_file(p));
    let r2 = qs.map_values(|p: G2Affine| g2_file(p));
    let r3 = list.map_values(|c: Coefficient| coefficient_file(c));
    assert forall|i: int| 0 <= i < r1.len() implies (#[trigger] r1[i]).len() == 64 by {
        lemma_g1_len(ps[i]);
    }
    assert forall|i: int| 0 <= i < r2.len() implies (#[trigger] r2[i]).len() == 128 by {
        lemma_g2_len(qs[i]);
    }
    assert forall|i: int| 0 <= i < r3.len() implies (#[trigger] r3[i]).len() == 44 by {}
    pack::lemma_packed_len(r1, 64);
    pack::lemma_packed_len(r2, 128);
    pack::lemma_packed_len(r3, 44);
}

/// The size of a header.
proof fn lemma_header_size(z: Zkey)
    ensures
        header_file(z).len() == 660,
{
    let vk = z.vk;
    lemma_g1_len(vk.alpha_g1);
    lemma_g1_len(vk.beta_g1);
    lemma_g1_len(vk.delta_g1);
    lemma_g2_len(vk.beta_g2);
    lemma_g2_len(vk.gamma_g2);
    lemma_g2_len(vk.delta_g2);
    assert(verifying_key_file(vk).len() == 576);
}

/// The sections of a key have sizes that can be written.
proof fn lemma_contents_fit(z: Zkey, more1: Seq<u8>, more2: Seq<u8>, contributions: Seq<u8>)
    requires
        storable(z),
        more1.len() < 0x1_0000_0000_0000int,
        more2.len() < 0x1_0000_0000_0000int,
        contributions.len() < 0x1_0000_0000_0000int,
    ensures
        ({
            let contents = zkey_contents(z, more1, more2, contributions);
            &&& contents.len() == 10
            &&& forall|i: int|
                0 <= i < 10 ==> (#[trigger] contents[i]).len() < 0x1_0000_0000_0000_0000int
        }),
{
    let contents = zkey_contents(z, more1, more2, contributions);
    let most = 0x1_0000_0000_0000_0000int;
    lemma_header_size(z);
    lemma_list_sizes(z.ic@, z.b2@, z.coefficients@);
    lemma_list_sizes(z.a@, z.b2@, z.coefficients@);
    lemma_list_sizes(z.b1@, z.b2@, z.coefficients@);
    lemma_list_sizes(z.c@, z.b2@, z.coefficients@);
    lemma_list_sizes(z.h@, z.b2@, z.coefficients@);
    assert(contents[0].len() < most && contents[1].len() < most && contents[2].len() < most);
    assert(contents[3].len() < most && contents[4].len() < most && contents[5].len() < most);
    assert(contents[6].len() < most && contents[7].len() < most && contents[8].len() < most);
    assert(contents[9].len() < most);
    assert forall|i: int| 0 <= i < 10 implies (#[trigger] contents[i]).len() < most by {
        assert(i == 0 || i == 1 || i == 2 || i == 3 || i == 4 || i == 5 || i == 6 || i == 7 || i
            == 8 || i == 9);
    }
}

/// The contents of the sections of a file.
spec fn sections_of(s: Seq<u8>) -> Seq<Seq<u8>> {
    Seq::new(10, |i: int| zkey::section(s, i + 1))
}

/// The key that is read from an accepted file can be stored.
#[verifier::spinoff_prover]
#[verifier::rlimit(60)]
proof fn lemma_parsed_is_storable(s: Seq<u8>, z: Zkey)
    requires
        zkey::zkey_error(s) is None,
        z.holds(s),
    ensures
        storable(z),
        zkey::section(s, 3) == g1s_file(z.ic@),
        zkey::section(s, 4) == coefficients_file(z.coefficients@),
        zkey::section(s, 5) == g1s_file(z.a@),
        zkey::section(s, 6) == g1s_file(z.b1@),
        zkey::section(s, 7) == g2s_file(z.b2@),
        zkey::section(s, 8) == g1s_file(z.c@),
        zkey::section(s, 9) == g1s_file(z.h@),
{
    let header = zkey::section(s, 2);
    lemma_header_written(header, z);
    lemma_g1s_written(zkey::section(s, 3), 3);
    lemma_coefficients_written(
        zkey::section(s, 4),
        zkey::word(header, 72),
        zkey::word(header, 80),
    );
    lemma_g1s_written(zkey::section(s, 5), 5);
    lemma_g1s_written(zkey::section(s, 6), 6);
    lemma_g2s_written(zkey::section(s, 7), 7);
    lemma_g1s_written(zkey::section(s, 8), 8);
    lemma_g1s_written(zkey::section(s, 9), 9);
}

/// The opening of a file that is not refused for it.
proof fn lemma_parsed_opening(s: Seq<u8>)
    requires
        zkey::preamble_error(s) is None,
    ensures
        s.len() >= 12,
        s.take(12) == opening(zkey_letters(), zkey::word(s, 4), 10),
{
    bytes::lemma_bytes_of_le(s.subrange(4, 8));
    bytes::lemma_bytes_of_le(s.subrange(8, 12));
    assert(s.take(12) =~= s.subrange(0, 4) + s.subrange(4, 8) + s.subrange(8, 12));
    assert(zkey_letters() =~= zkey::zkey_magic());
}

/// The first section of a file that is not refused for it.
proof fn lemma_parsed_protocol(one: Seq<u8>)
    requires
        zkey::protocol_error(one) is None,
    ensures
        one == le_bytes(1, 4) + one.skip(4),
{
    bytes::lemma_bytes_of_le(one.subrange(0, 4));
    assert(one =~= one.subrange(0, 4) + one.skip(4));
}

/// The first two sections of an accepted file.
#[verifier::spinoff_prover]
#[verifier::rlimit(60)]
proof fn lemma_parsed_front(s: Seq<u8>, z: Zkey)
    requires
        zkey::zkey_error(s) is None,
        z.holds(s),
    ensures
        zkey::section(s, 1) == le_bytes(1, 4) + zkey::section(s, 1).skip(4),
        zkey::section(s, 2) == header_file(z) + zkey::section(s, 2).skip(660),
        s.len() >= 12,
        s.take(12) == opening(zkey_letters(), zkey::word(s, 4), 10),
        zkey::frames_error(s, 10) is None,
{
    assert(zkey::preamble_error(s) is None && zkey::protocol_error(zkey::section(s, 1)) is None);
    lemma_parsed_opening(s);
    lemma_parsed_protocol(zkey::section(s, 1));
    lemma_header_written(zkey::section(s, 2), z);
}

/// A file that is accepted is a file of the key that is read from it, and that key is one that a
/// file can hold.
#[verifier::spinoff_prover]
#[verifier::rlimit(60)]
pub proof fn lemma_parsed_zkey_file(s: Seq<u8>, z: Zkey)
    requires
        zkey::zkey_error(s) is None,
        z.holds(s),
    ensures
        storable(z),
        exists|
            version: int,
            more1: Seq<u8>,
            more2: Seq<u8>,
            contributions: Seq<u8>,
            rest: Seq<u8>,
        |
            s == #[trigger] zkey_file(z, version, more1, more2, contributions, rest),
{
    lemma_parsed_is_storable(s, z);
    lemma_parsed_front(s, z);
    lemma_assembled(s, z);
}

/// A file with these sections is a file of the key.
proof fn lemma_assembled(s: Seq<u8>, z: Zkey)
    requires
        s.len() >= 12,
        s.take(12) == opening(zkey_letters(), zkey::word(s, 4), 10),
        zkey::frames_error(s, 10) is None,
        zkey::section(s, 1) == le_bytes(1, 4) + zkey::section(s, 1).skip(4),
        zkey::section(s, 2) == header_file(z) + zkey::section(s, 2).skip(660),
        zkey::section(s, 3) == g1s_file(z.ic@),
        zkey::section(s, 4) == coefficients_file(z.coefficients@),
        zkey::section(s, 5) == g1s_file(z.a@),
        zkey::section(s, 6) == g1s_file(z.b1@),
        zkey::section(s, 7) == g2s_file(z.b2@),
        zkey::section(s, 8) == g1s_file(z.c@),
        zkey::section(s, 9) == g1s_file(z.h@),
    ensures
        s == zkey_file(
            z,
            zkey::word(s, 4),
            zkey::section(s, 1).skip(4),
            zkey::section(s, 2).skip(660),
            zkey::section(s, 10),
            s.skip(12 + framed(sections_of(s), 10).len() as int),
        ),
{
    let contents = sections_of(s);
    lemma_framed_written(s, contents, 10);
    let given = zkey_contents(
        z,
        zkey::section(s, 1).skip(4),
        zkey::section(s, 2).skip(660),
        zkey::section(s, 10),
    );
    assert(contents[0] == given[0]);
    assert(contents[1] == given[1]);
    assert(contents[2] == given[2]);
    assert(contents[3] == given[3]);
    assert(contents[4] == given[4]);
    assert(contents[5] == given[5]);
    assert(contents[6] == given[6]);
    assert(contents[7] == given[7]);
    assert(contents[8] == given[8]);
    assert(contents[9] == given[9]);
    lemma_ten(contents, given);
    let n = 12 + framed(contents, 10).len() as int;
    assert(s =~= s.take(n) + s.skip(n));
}

/// Ten parts that agree one by one.
proof fn lemma_ten(a: Seq<Seq<u8>>, b: Seq<Seq<u8>>)
    requires
        a.len() == 10,
        b.len() == 10,
        a[0] == b[0],
        a[1] == b[1],
        a[2] == b[2],
        a[3] == b[3],
        a[4] == b[4],
        a[5] == b[5],
        a[6] == b[6],
        a[7] == b[7],
        a[8] == b[8],
        a[9] == b[9],
    ensures
        a == b,
{
    assert(a =~= b);
}

/// A key that a file can hold is consistent, reduced and in order, and can be proved with where
/// its domain has at most `2^27` points.
pub proof fn lemma_stored_key_is_usable(z: Zkey, k: nat)
    requires
        storable(z),
        z.domain_size == pow2(k),
    ensures
        z.consistent(),
        z.reduced(),
        prover::ascends(z.coefficients@),
        k <= 27 <==> prover::usable(z),
        k <= 27 && k > 0 && z.num_public + 1 < z.num_vars && 22 * z.num_vars <= u32::MAX && 22
            * z.domain_size <= u32::MAX ==> pipeline::launchable(z),
{
    ec::lemma_g1_smooth();
    ec::lemma_g2_smooth();
    ntt::lemma_lg(k);
    vstd::arithmetic::power2::lemma2_to64();
    if k > 0 {
        vstd::arithmetic::power2::lemma_pow2_unfold(k);
        vstd::arithmetic::power2::lemma_pow2_pos((k - 1) as nat);
    }
    lemma_plain_points(z.ic@, ec::g1_b_spec());
    lemma_plain_points(z.a@, ec::g1_b_spec());
    lemma_plain_points(z.b1@, ec::g1_b_spec());
    lemma_plain_points(z.b2@, ec::g2_b_spec());
    lemma_plain_points(z.c@, ec::g1_b_spec());
    lemma_plain_points(z.h@, ec::g1_b_spec());
}

/// Plain points are points of the curve.
proof fn lemma_plain_points<F: Field>(points: Seq<Affine<F>>, b: F)
    requires
        curve::smooth(b),
        all_plain(points, b),
    ensures
        msm::on_curve(points, b),
{
    assert forall|i: int| 0 <= i < points.len() implies (#[trigger] points[i]).wf()
        && points[i].pt().on(b) by {
        assert(plain(points[i], b));
    }
}

// ---- the file of coefficient groups ------------------------------------------------------------

/// The record at `off`: the matrix, the constraint, the signal, four bytes that are passed over,
/// and the residue of the value times `2^512`, reduced.
pub open spec fn record_here(
    s: Seq<u8>,
    off: int,
    matrix: int,
    constraint: u32,
    c: GroupedCoeff,
) -> bool {
    &&& s.subrange(off, off + 4) == le_bytes(matrix, 4)
    &&& s.subrange(off + 4, off + 8) == le_bytes(constraint as int, 4)
    &&& s.subrange(off + 8, off + 12) == le_bytes(c.signal as int, 4)
    &&& s.subrange(off + 16, off + 48) == le_bytes(
        (c.value.val() * limbs::radix() * limbs::radix()) % certificates::r(),
        32,
    )
}

/// The records of a matrix from `base` on, each under the constraint of its group, and where the
/// groups start from `index` on.
pub open spec fn groups_here(
    s: Seq<u8>,
    base: int,
    index: int,
    matrix: int,
    coeffs: Seq<GroupedCoeff>,
    starts: Seq<u32>,
    constraints: Seq<u32>,
) -> bool {
    &&& forall|g: int|
        0 <= g < starts.len() ==> s.subrange(index + 4 * g, index + 4 * g + 4) == le_bytes(
            #[trigger] starts[g] as int,
            4,
        )
    &&& forall|g: int, i: int|
        0 <= g < constraints.len() && starts[g] <= i < starts[g + 1] ==> record_here(
            s,
            base + 48 * i,
            matrix,
            #[trigger] constraints[g],
            #[trigger] coeffs[i],
        )
}

/// A record that is not refused is laid out as what it reads as.
proof fn lemma_record_here(s: Seq<u8>, base: int, i: int, matrix: int, vars: int, domain: int)
    requires
        0 <= base,
        0 <= i,
        base + 48 * i + 48 <= s.len(),
        artifacts::record_error(s, base, i, matrix, vars, domain) is None,
    ensures
        record_here(
            s,
            base + 48 * i,
            matrix,
            artifacts::constraint_at(s, base, i),
            artifacts::record_at(s, base, i),
        ),
{
    let off = base + i * 48;
    assert(off == base + 48 * i);
    let c = artifacts::record_at(s, base, i);
    let p = field::fr_modulus();
    field::lemma_fr_modulus();
    bytes::lemma_word_sizes();
    let (a, b) = (s.subrange(off, off + 4), s.subrange(off + 4, off + 8));
    let (d, e) = (s.subrange(off + 8, off + 12), s.subrange(off + 16, off + 48));
    let m = bytes::le(e);
    bytes::lemma_le_bound(b);
    bytes::lemma_le_bound(d);
    bytes::lemma_le_bound(e);
    bytes::lemma_bytes_of_le(a);
    bytes::lemma_bytes_of_le(b);
    bytes::lemma_bytes_of_le(d);
    bytes::lemma_bytes_of_le(e);
    assert(s.subrange(off + 16, off + 16 + 32) == e);
    lemma_stored_value(m);
    lemma_stored_twice(c.value);
    montgomery::lemma_residue(p, m);
    montgomery::lemma_residue(p, p.residue(m));
}

/// A list that is not refused is laid out as what it reads as.
proof fn lemma_groups_here(
    s: Seq<u8>,
    base: int,
    n: nat,
    index: int,
    m: nat,
    matrix: int,
    vars: int,
    domain: int,
)
    requires
        0 <= base,
        base + n * 48 <= s.len(),
        0 <= index,
        index + m * 4 <= s.len(),
        artifacts::records_error(s, base, n as int, matrix, vars, domain) is None,
        artifacts::starts_error(
            artifacts::starts_at(s, index, m),
            artifacts::constraints_at(s, base, n),
        ) is None,
    ensures
        ({
            let starts = artifacts::starts_at(s, index, m);
            groups_here(
                s,
                base,
                index,
                matrix,
                artifacts::list_at(s, base, n),
                starts,
                artifacts::group_constraints_of(starts, artifacts::constraints_at(s, base, n)),
            )
        }),
{
    let starts = artifacts::starts_at(s, index, m);
    let cons = artifacts::constraints_at(s, base, n);
    let coeffs = artifacts::list_at(s, base, n);
    let constraints = artifacts::group_constraints_of(starts, cons);
    let count = artifacts::group_count(starts) as int;
    bytes::lemma_word_sizes();
    assert forall|g: int| 0 <= g < starts.len() implies s.subrange(
        index + 4 * g,
        index + 4 * g + 4,
    ) == le_bytes(#[trigger] starts[g] as int, 4) by {
        let w = s.subrange(index + g * 4, index + g * 4 + 4);
        bytes::lemma_le_bound(w);
        bytes::lemma_bytes_of_le(w);
    }
    assert forall|g: int, i: int|
        0 <= g < constraints.len() && starts[g] <= i < starts[g + 1] implies record_here(
        s,
        base + 48 * i,
        matrix,
        #[trigger] constraints[g],
        #[trigger] coeffs[i],
    ) by {
        artifacts::lemma_group_fine(starts, cons, count, g);
        assert(cons[i] == cons[starts[g] as int]);
        lemma_no_record_error_at(s, base, n as int, i, matrix, vars, domain);
        lemma_record_here(s, base, i, matrix, vars, domain);
    }
}

proof fn lemma_no_record_error_at(
    s: Seq<u8>,
    base: int,
    n: int,
    i: int,
    matrix: int,
    vars: int,
    domain: int,
)
    requires
        0 <= i < n,
        artifacts::records_error(s, base, n, matrix, vars, domain) is None,
    ensures
        artifacts::record_error(s, base, i, matrix, vars, domain) is None,
    decreases n,
{
    if i < n - 1 {
        lemma_no_record_error_at(s, base, n - 1, i, matrix, vars, domain);
    }
}

/// A coefficient file that is accepted is the four counts, the records of the first matrix and of
/// the second, and the start indices of the first and of the second; the groups cover the
/// records in ascending order of their constraints, and every index is one that the key has.
#[verifier::rlimit(40)]
pub proof fn lemma_parsed_coeffs_file(
    s: Seq<u8>,
    groups: CoefficientGroups,
    vars: int,
    domain: int,
)
    requires
        artifacts::coeffs_error(s, vars, domain) is None,
        artifacts::groups_hold(groups, s),
    ensures
        ({
            let (na, nb) = (groups.a@.len() as int, groups.b@.len() as int);
            let (ga, gb) = (groups.a_starts@.len() as int, groups.b_starts@.len() as int);
            let index = 32 + 48 * na + 48 * nb;
            &&& s.len() == index + 4 * ga + 4 * gb
            &&& s.take(32) == le_bytes(na, 8) + le_bytes(nb, 8) + le_bytes(ga, 8) + le_bytes(gb, 8)
            &&& groups_here(s, 32, index, 0, groups.a@, groups.a_starts@, groups.a_constraint@)
            &&& groups_here(
                s,
                32 + 48 * na,
                index + 4 * ga,
                1,
                groups.b@,
                groups.b_starts@,
                groups.b_constraint@,
            )
        }),
        artifacts::valid_list(groups.a@, groups.a_starts@, groups.a_constraint@, vars, domain),
        artifacts::valid_list(groups.b@, groups.b_starts@, groups.b_constraint@, vars, domain),
{
    let c = artifacts::counts(s);
    bytes::lemma_word_sizes();
    let (h0, h1) = (s.subrange(0, 8), s.subrange(8, 16));
    let (h2, h3) = (s.subrange(16, 24), s.subrange(24, 32));
    bytes::lemma_le_bound(h0);
    bytes::lemma_le_bound(h1);
    bytes::lemma_le_bound(h2);
    bytes::lemma_le_bound(h3);
    bytes::lemma_bytes_of_le(h0);
    bytes::lemma_bytes_of_le(h1);
    bytes::lemma_bytes_of_le(h2);
    bytes::lemma_bytes_of_le(h3);
    assert(s.take(32) =~= h0 + h1 + h2 + h3);
    let second = 32 + c.0 * 48;
    let index = 32 + (c.0 + c.1) * 48;
    lemma_groups_here(s, 32, c.0 as nat, index, c.2 as nat, 0, vars, domain);
    lemma_groups_here(s, second, c.1 as nat, index + c.2 * 4, c.3 as nat, 1, vars, domain);
    artifacts::lemma_list_valid(
        s,
        32,
        c.0 as nat,
        artifacts::starts_at(s, index, c.2 as nat),
        0,
        vars,
        domain,
    );
    artifacts::lemma_list_valid(
        s,
        second,
        c.1 as nat,
        artifacts::starts_at(s, index + c.2 * 4, c.3 as nat),
        1,
        vars,
        domain,
    );
}

// ---- the file of fuzzed sums -------------------------------------------------------------------

/// A point in G1 in Jacobian coordinates.
pub open spec fn jacobian_g1_file(p: Jacobian<Fp>) -> Seq<u8> {
    fp_file(p.x) + fp_file(p.y) + fp_file(p.z)
}

/// A point in G2 in Jacobian coordinates.
pub open spec fn jacobian_g2_file(p: Jacobian<Fp2>) -> Seq<u8> {
    fp_file(p.x.c0) + fp_file(p.x.c1) + fp_file(p.y.c0) + fp_file(p.y.c1) + fp_file(p.z.c0)
        + fp_file(p.z.c1)
}

/// The five sums, in the order A, B1, C, H, B2.
pub open spec fn fuzzed_file(f: FuzzedMsmResults) -> Seq<u8> {
    jacobian_g1_file(f.a) + jacobian_g1_file(f.b_g1) + jacobian_g1_file(f.c) + jacobian_g1_file(
        f.h,
    ) + jacobian_g2_file(f.b_g2)
}

proof fn lemma_fp_at(s: Seq<u8>, off: int, x: Fp)
    requires
        0 <= off,
        off + 32 <= s.len(),
        x.wf(),
        s.subrange(off, off + 32) == fp_file(x),
    ensures
        zkey::fp_raw(s, off) == x,
{
    lemma_fp_file(x);
}

proof fn lemma_jacobian_g1_reads(s: Seq<u8>, off: int, p: Jacobian<Fp>)
    requires
        0 <= off,
        off + 96 <= s.len(),
        p.wf(),
        s.subrange(off, off + 96) == jacobian_g1_file(p),
    ensures
        artifacts::jacobian_g1_at(s, off) == p,
{
    let w = s.subrange(off, off + 96);
    assert(s.subrange(off, off + 32) =~= w.subrange(0, 32));
    assert(w.subrange(0, 32) =~= fp_file(p.x));
    assert(s.subrange(off + 32, off + 64) =~= w.subrange(32, 64));
    assert(w.subrange(32, 64) =~= fp_file(p.y));
    assert(s.subrange(off + 64, off + 96) =~= w.subrange(64, 96));
    assert(w.subrange(64, 96) =~= fp_file(p.z));
    lemma_fp_at(s, off, p.x);
    lemma_fp_at(s, off + 32, p.y);
    lemma_fp_at(s, off + 64, p.z);
}

/// The file of reduced sums has the size that is expected, and reads back as the sums.
#[verifier::rlimit(40)]
pub proof fn lemma_fuzzed_read_back(f: FuzzedMsmResults)
    requires
        f.a.wf(),
        f.b_g1.wf(),
        f.c.wf(),
        f.h.wf(),
        f.b_g2.wf(),
    ensures
        fuzzed_file(f).len() == artifacts::FRES_SIZE,
        artifacts::fuzzed_of(fuzzed_file(f)) == f,
{
    let s = fuzzed_file(f);
    let (a, b, c, h, g) = (
        jacobian_g1_file(f.a),
        jacobian_g1_file(f.b_g1),
        jacobian_g1_file(f.c),
        jacobian_g1_file(f.h),
        jacobian_g2_file(f.b_g2),
    );
    assert(a.len() == 96 && b.len() == 96 && c.len() == 96 && h.len() == 96 && g.len() == 192);
    assert(s.subrange(0, 96) =~= a);
    assert(s.subrange(96, 192) =~= b);
    assert(s.subrange(192, 288) =~= c);
    assert(s.subrange(288, 384) =~= h);
    lemma_jacobian_g1_reads(s, 0, f.a);
    lemma_jacobian_g1_reads(s, 96, f.b_g1);
    lemma_jacobian_g1_reads(s, 192, f.c);
    lemma_jacobian_g1_reads(s, 288, f.h);
    assert(s.subrange(384, 576) =~= g);
    assert(s.subrange(384, 416) =~= g.subrange(0, 32));
    assert(g.subrange(0, 32) =~= fp_file(f.b_g2.x.c0));
    assert(s.subrange(416, 448) =~= g.subrange(32, 64));
    assert(g.subrange(32, 64) =~= fp_file(f.b_g2.x.c1));
    assert(s.subrange(448, 480) =~= g.subrange(64, 96));
    assert(g.subrange(64, 96) =~= fp_file(f.b_g2.y.c0));
    assert(s.subrange(480, 512) =~= g.subrange(96, 128));
    assert(g.subrange(96, 128) =~= fp_file(f.b_g2.y.c1));
    assert(s.subrange(512, 544) =~= g.subrange(128, 160));
    assert(g.subrange(128, 160) =~= fp_file(f.b_g2.z.c0));
    assert(s.subrange(544, 576) =~= g.subrange(160, 192));
    assert(g.subrange(160, 192) =~= fp_file(f.b_g2.z.c1));
    lemma_fp_at(s, 384, f.b_g2.x.c0);
    lemma_fp_at(s, 416, f.b_g2.x.c1);
    lemma_fp_at(s, 448, f.b_g2.y.c0);
    lemma_fp_at(s, 480, f.b_g2.y.c1);
    lemma_fp_at(s, 512, f.b_g2.z.c0);
    lemma_fp_at(s, 544, f.b_g2.z.c1);
}

// ---- device records ----------------------------------------------------------------------------

/// A device record of a reduced point or value is what the key file holds of it; that of a point
/// in projective coordinates begins with it, and its third coordinate comes last.
pub proof fn lemma_records_are_file_bytes(
    p: G1Affine,
    q: G2Affine,
    j: Jacobian<Fp>,
    k: Jacobian<Fp2>,
    w: Fr,
)
    requires
        p.wf(),
        q.wf(),
        j.wf(),
        k.wf(),
        w.wf(),
    ensures
        pack::g1_record(p) == g1_file(p),
        pack::g2_record(q) == g2_file(q),
        pack::jac_g1_record(j) == fp_file(j.x) + fp_file(j.y) + fp_file(j.z),
        pack::jac_g2_record(k) == fp_file(k.x.c0) + fp_file(k.x.c1) + (fp_file(k.y.c0) + fp_file(
            k.y.c1,
        )) + (fp_file(k.z.c0) + fp_file(k.z.c1)),
        pack::canonical_record(w) == le_bytes(w.val(), 32),
        pack::fr_record(w) == le_bytes((w.val() * limbs::radix()) % certificates::r(), 32),
{
    lemma_fp_record(p.x);
    lemma_fp_record(p.y);
    lemma_fp_record(q.x.c0);
    lemma_fp_record(q.x.c1);
    lemma_fp_record(q.y.c0);
    lemma_fp_record(q.y.c1);
    lemma_fp_record(j.x);
    lemma_fp_record(j.y);
    lemma_fp_record(j.z);
    lemma_fp_record(k.x.c0);
    lemma_fp_record(k.x.c1);
    lemma_fp_record(k.y.c0);
    lemma_fp_record(k.y.c1);
    lemma_fp_record(k.z.c0);
    lemma_fp_record(k.z.c1);
    assert(pack::zeros(32) =~= le_bytes(0, 32)) by {
        assert forall|i: int| 0 <= i < 32 implies #[trigger] le_bytes(0, 32)[i] == 0u8 by {
            vstd::arithmetic::power::lemma_pow_positive(256, i as nat);
            lemma_div_basics_1(vstd::arithmetic::power::pow(256, i as nat));
        }
    }
    assert(pack::zeros(64) =~= pack::zeros(32) + pack::zeros(32));
    assert(pack::zeros(128) =~= pack::zeros(32) + pack::zeros(32) + pack::zeros(32)
        + pack::zeros(32));
    let (a, b, c, d) = (
        fp_file(q.x.c0),
        fp_file(q.x.c1),
        fp_file(q.y.c0),
        fp_file(q.y.c1),
    );
    assert(a + b + (c + d) =~= a + b + c + d);
    field::lemma_fr_modulus();
    Fr::lemma_raw(w);
    montgomery::lemma_residue(field::fr_modulus(), w.raw());
}

proof fn lemma_fp_record(x: Fp)
    requires
        x.wf(),
    ensures
        pack::fp_record(x) == fp_file(x),
{
    lemma_fp_file(x);
    bytes::lemma_bytes_of_le(fp_file(x));
}

// ---- the witness file --------------------------------------------------------------------------

/// Witness values one after another, each its residue in 32 bytes.
pub open spec fn values_file(w: Seq<Fr>) -> Seq<u8> {
    packed(w.map_values(|x: Fr| le_bytes(x.val(), 32)))
}

/// The header of a witness file: the size and the modulus of the field, and the number of values.
pub open spec fn wtns_header_file(w: Seq<Fr>, more: Seq<u8>) -> Seq<u8> {
    le_bytes(32, 4) + le_bytes(certificates::r(), 32) + le_bytes(w.len() as int, 4) + more
}

/// A file of a witness: any version and section numbers, and anything where nothing is read.
pub open spec fn wtns_file(
    w: Seq<Fr>,
    version: int,
    ids: (int, int),
    more: Seq<u8>,
    rest: Seq<u8>,
) -> Seq<u8> {
    opening(wtns_letters(), version, 2) + frame(ids.0, wtns_header_file(w, more)) + frame(
        ids.1,
        values_file(w),
    ) + rest
}

/// The index is that of the first value that is no field element, and there is none exactly
/// where every value is one.
pub proof fn lemma_bad_value_is_first(s: Seq<u8>, n: int)
    requires
        0 <= n <= usize::MAX,
    ensures
        match zkey::bad_value(s, n) {
            Some(i) => {
                &&& i < n
                &&& bytes::le(s.subrange(32 * i, 32 * i + 32)) >= certificates::r()
                &&& forall|j: int|
                    0 <= j < i ==> bytes::le(#[trigger] s.subrange(32 * j, 32 * j + 32))
                        < certificates::r()
            },
            None => forall|j: int|
                0 <= j < n ==> bytes::le(#[trigger] s.subrange(32 * j, 32 * j + 32))
                    < certificates::r(),
        },
    decreases n,
{
    if n > 0 {
        lemma_bad_value_is_first(s, n - 1);
    }
}

/// Values that were written read back, whatever their number.
pub proof fn lemma_values_read_back(w: Seq<Fr>)
    requires
        forall|i: int| 0 <= i < w.len() ==> (#[trigger] w[i]).wf(),
    ensures
        values_file(w).len() == 32 * w.len(),
        zkey::bad_value(values_file(w), w.len() as int) is None,
        zkey::witness_of(values_file(w)) == w,
{
    let s = values_file(w);
    let records = w.map_values(|x: Fr| le_bytes(x.val(), 32));
    assert forall|i: int| 0 <= i < records.len() implies (#[trigger] records[i]).len() == 32 by {}
    pack::lemma_packed_len(records, 32);
    assert forall|i: int| 0 <= i < w.len() implies #[trigger] zkey::witness_value(s, i)
        == w[i].val() && 0 <= w[i].val() < certificates::r() && Fr::of(w[i].val()) == w[i] by {
        pack::lemma_packed(records, 32, i);
        assert(records[i] == le_bytes(w[i].val(), 32));
        Fr::lemma_val(w[i]);
        field::lemma_fr_modulus();
        bytes::lemma_word_sizes();
        bytes::lemma_le_of_bytes(w[i].val(), 32);
    }
    lemma_no_bad_value(s, w.len() as int);
    assert(s.len() / 32 == w.len());
    assert(zkey::witness_of(s) =~= w);
}

proof fn lemma_no_bad_value(s: Seq<u8>, n: int)
    requires
        forall|i: int|
            0 <= i < n ==> #[trigger] zkey::witness_value(s, i) < certificates::r(),
    ensures
        zkey::bad_value(s, n) is None,
    decreases n,
{
    if n > 0 {
        lemma_no_bad_value(s, n - 1);
        assert(zkey::witness_value(s, n - 1) < certificates::r());
    }
}

/// Values that are accepted are in the file as their bytes.
pub proof fn lemma_values_written(s: Seq<u8>)
    requires
        s.len() % 32 == 0,
        zkey::bad_value(s, s.len() as int / 32) is None,
    ensures
        s == values_file(zkey::witness_of(s)),
        forall|i: int|
            0 <= i < zkey::witness_of(s).len() ==> (#[trigger] zkey::witness_of(s)[i]).wf(),
{
    let w = zkey::witness_of(s);
    let n = s.len() / 32;
    let records = w.map_values(|x: Fr| le_bytes(x.val(), 32));
    assert forall|i: int| 0 <= i < n implies #[trigger] records[i] == s.subrange(
        32 * i,
        32 * i + 32,
    ) && w[i].wf() by {
        zkey::lemma_good_value(s, n as int, i);
        field::lemma_fr_modulus();
        Fr::lemma_of(zkey::witness_value(s, i));
        bytes::lemma_bytes_of_le(s.subrange(32 * i, 32 * i + 32));
    }
    assert forall|i: int| 0 <= i < w.len() implies (#[trigger] w[i]).wf() by {
        assert(records[i] == le_bytes(w[i].val(), 32));
    }
    lemma_chunks(s, 32, n, records);
}

/// Every file of a witness is accepted, and what is read from it is the witness, whatever the
/// number of its values.
#[verifier::spinoff_prover]
#[verifier::rlimit(60)]
pub proof fn lemma_wtns_file_parses(
    w: Seq<Fr>,
    version: int,
    ids: (int, int),
    more: Seq<u8>,
    rest: Seq<u8>,
)
    requires
        w.len() <= u32::MAX,
        forall|i: int| 0 <= i < w.len() ==> (#[trigger] w[i]).wf(),
        more.len() < 0x1_0000_0000_0000int,
    ensures
        zkey::wtns_error(wtns_file(w, version, ids, more, rest)) is None,
        zkey::witness_of(zkey::wtns_data(wtns_file(w, version, ids, more, rest))) == w,
{
    let s = wtns_file(w, version, ids, more, rest);
    let h = wtns_header_file(w, more);
    let v = values_file(w);
    let (hl, vl) = (h.len() as int, v.len() as int);
    lemma_values_read_back(w);
    lemma_moduli();
    bytes::lemma_word_sizes();
    bytes::lemma_le_of_bytes(2, 4);
    bytes::lemma_le_of_bytes(hl, 8);
    bytes::lemma_le_of_bytes(vl, 8);
    bytes::lemma_le_of_bytes(w.len() as int, 4);
    let o = opening(wtns_letters(), version, 2);
    let (f1, f2) = (frame(ids.0, h), frame(ids.1, v));
    assert(o.len() == 12 && f1.len() == 12 + hl && f2.len() == 12 + vl);
    assert(s.subrange(0, 4) =~= zkey::wtns_magic());
    assert(s.subrange(8, 12) =~= o.subrange(8, 12));
    assert(o.subrange(8, 12) =~= le_bytes(2, 4));
    assert(s.subrange(16, 24) =~= f1.subrange(4, 12));
    assert(f1.subrange(4, 12) =~= le_bytes(hl, 8));
    let at = 24 + hl;
    assert(s.subrange(24, at) =~= f1.subrange(12, 12 + hl));
    assert(f1.subrange(12, 12 + hl) =~= h);
    assert(zkey::wtns_header(s) == h);
    assert(h.subrange(0, 4) =~= le_bytes(32, 4));
    assert(h.subrange(4, 36) =~= le_bytes(certificates::r(), 32));
    assert(h.subrange(36, 40) =~= le_bytes(w.len() as int, 4));
    assert(s.subrange(at + 4, at + 12) =~= f2.subrange(4, 12));
    assert(f2.subrange(4, 12) =~= le_bytes(vl, 8));
    assert(s.subrange(at + 12, at + 12 + vl) =~= f2.subrange(12, 12 + vl));
    assert(f2.subrange(12, 12 + vl) =~= v);
    assert(zkey::wtns_data(s) == v);
}

/// A witness file that is accepted is a file of the witness that is read from it.
#[verifier::spinoff_prover]
#[verifier::rlimit(60)]
pub proof fn lemma_parsed_wtns_file(s: Seq<u8>)
    requires
        zkey::wtns_error(s) is None,
    ensures
        exists|version: int, ids: (int, int), more: Seq<u8>, rest: Seq<u8>|
            s == #[trigger] wtns_file(
                zkey::witness_of(zkey::wtns_data(s)),
                version,
                ids,
                more,
                rest,
            ),
{
    let h = zkey::wtns_header(s);
    let v = zkey::wtns_data(s);
    let w = zkey::witness_of(v);
    bytes::lemma_word_sizes();
    bytes::lemma_le_bound(s.subrange(16, 24));
    let at = zkey::wtns_second(s);
    bytes::lemma_le_bound(s.subrange(at + 4, at + 12));
    bytes::lemma_le_bound(h.subrange(36, 40));
    lemma_values_written(v);
    let version = zkey::word(s, 4);
    let ids = (zkey::word(s, 12), zkey::word(s, at));
    let more = h.skip(40);
    let end = at + 12 + zkey::long(s, at + 4);
    let rest = s.skip(end);
    bytes::lemma_bytes_of_le(s.subrange(4, 8));
    bytes::lemma_bytes_of_le(s.subrange(8, 12));
    bytes::lemma_bytes_of_le(s.subrange(12, 16));
    bytes::lemma_bytes_of_le(s.subrange(16, 24));
    bytes::lemma_bytes_of_le(s.subrange(at, at + 4));
    bytes::lemma_bytes_of_le(s.subrange(at + 4, at + 12));
    bytes::lemma_bytes_of_le(h.subrange(0, 4));
    bytes::lemma_bytes_of_le(h.subrange(4, 36));
    bytes::lemma_bytes_of_le(h.subrange(36, 40));
    assert(h =~= h.subrange(0, 4) + h.subrange(4, 36) + h.subrange(36, 40) + more);
    assert(w.len() == zkey::word(h, 36));
    assert(h == wtns_header_file(w, more));
    assert(wtns_letters() =~= zkey::wtns_magic());
    let o = s.subrange(0, 4) + s.subrange(4, 8) + s.subrange(8, 12);
    assert(o == opening(wtns_letters(), version, 2));
    assert(s.take(12) =~= o);
    let f1 = s.subrange(12, 16) + s.subrange(16, 24) + h;
    assert(f1 == frame(ids.0, h));
    assert(s.take(at) =~= s.take(12) + f1);
    let f2 = s.subrange(at, at + 4) + s.subrange(at + 4, at + 12) + v;
    assert(f2 == frame(ids.1, v));
    assert(s.take(end) =~= s.take(at) + f2);
    assert(s =~= s.take(end) + rest);
    assert(s == wtns_file(w, version, ids, more, rest));
}

// ---- what is refused ---------------------------------------------------------------------------

/// A file that is cut off somewhere in its frames.
proof fn lemma_cut_frames(s: Seq<u8>, k: int, n: int)
    requires
        12 <= k <= s.len(),
        0 <= n <= 10,
        zkey::frames_error(s, n) is None,
    ensures
        zkey::section_start(s, n + 1) - 12 >= 12,
        zkey::section_start(s, n + 1) - 12 <= k ==> zkey::frames_error(s.take(k), n) is None
            && zkey::section_start(s.take(k), n + 1) == zkey::section_start(s, n + 1),
        zkey::section_start(s, n + 1) - 12 > k ==> (zkey::frames_error(s.take(k), n) matches Some(
            e,
        ) && e is Truncated),
    decreases n,
{
    if n > 0 {
        lemma_cut_frames(s, k, n - 1);
        let t = s.take(k);
        let at = zkey::section_start(s, n) - 12;
        assert(zkey::frame_error(s, n) is None);
        bytes::lemma_le_bound(s.subrange(at + 4, at + 12));
        if at <= k {
            if at + 4 <= k {
                assert(t.subrange(at, at + 4) =~= s.subrange(at, at + 4));
            }
            if at + 12 <= k {
                assert(t.subrange(at + 4, at + 12) =~= s.subrange(at + 4, at + 12));
            }
        }
    }
}

/// A key file that is cut off before the end of its last section is reported as truncated.
#[verifier::spinoff_prover]
#[verifier::rlimit(60)]
pub proof fn lemma_cut_zkey_is_truncated(s: Seq<u8>, k: int)
    requires
        zkey::zkey_error(s) is None,
        0 <= k < zkey::section_start(s, 11) - 12,
    ensures
        zkey::zkey_error(s.take(k)) matches Some(e) && e is Truncated,
{
    let t = s.take(k);
    assert(zkey::preamble_error(s) is None);
    assert(zkey::frames_error(s, 10) is None);
    if k >= 4 {
        assert(t.subrange(0, 4) =~= s.subrange(0, 4));
    }
    if k >= 12 {
        assert(t.subrange(8, 12) =~= s.subrange(8, 12));
        assert(zkey::frame_error(s, 10) is None);
        assert(k <= s.len());
        lemma_cut_frames(s, k, 10);
    }
}

/// What a well-framed file is refused for is a matter of what its sections hold: the protocol
/// first, then the header, then the lists in the order of their sections, then their lengths.
#[verifier::spinoff_prover]
#[verifier::rlimit(60)]
pub proof fn lemma_sections_decide(contents: Seq<Seq<u8>>, version: int, rest: Seq<u8>)
    requires
        contents.len() == 10,
        forall|i: int|
            0 <= i < 10 ==> (#[trigger] contents[i]).len() < 0x1_0000_0000_0000_0000int,
    ensures
        ({
            let s = opening(zkey_letters(), version, 10) + framed(contents, 10) + rest;
            let h = contents[1];
            let (vars, public, domain) = (
                zkey::word(h, 72),
                zkey::word(h, 76),
                zkey::word(h, 80),
            );
            let e = zkey::zkey_error(s);
            &&& zkey::protocol_error(contents[0]) is Some ==> e == zkey::protocol_error(
                contents[0],
            )
            &&& zkey::protocol_error(contents[0]) is None && zkey::header_error(h) is Some ==> e
                == zkey::header_error(h)
            &&& zkey::protocol_error(contents[0]) is None && zkey::header_error(h) is None
                && zkey::g1_section_error(contents[2], 3) is Some ==> e == zkey::g1_section_error(
                contents[2],
                3,
            )
        }),
{
    let head = opening(zkey_letters(), version, 10);
    let s = head + framed(contents, 10) + rest;
    lemma_framed_reads(head, contents, rest, 10);
    bytes::lemma_word_sizes();
    bytes::lemma_le_of_bytes(10, 4);
    assert(s.subrange(0, 4) =~= zkey::zkey_magic());
    assert(s.subrange(8, 12) =~= le_bytes(10, 4));
    assert(zkey::section(s, 1) == contents[0]);
    assert(zkey::section(s, 2) == contents[1]);
    assert(zkey::section(s, 3) == contents[2]);
}

/// Other letters, another number of sections and another protocol are refused as what they are.
#[verifier::spinoff_prover]
#[verifier::rlimit(60)]
pub proof fn lemma_zkey_opening_refused(s: Seq<u8>, version: int, n: u32, more: Seq<u8>)
    ensures
        s.len() >= 4 && s.take(4) != zkey_letters() ==> zkey::zkey_error(s) == Some(
            ZkeyError::Magic,
        ),
        n != 10 ==> zkey::zkey_error(opening(zkey_letters(), version, n as int) + more) == Some(
            ZkeyError::SectionCount(n),
        ),
        n != 1 ==> zkey::protocol_error(le_bytes(n as int, 4) + more) == Some(
            ZkeyError::Protocol(n),
        ),
        n == 1 ==> zkey::protocol_error(le_bytes(n as int, 4) + more) is None,
{
    bytes::lemma_word_sizes();
    bytes::lemma_le_of_bytes(n as int, 4);
    assert(zkey_letters() =~= zkey::zkey_magic());
    if s.len() >= 4 {
        assert(s.take(4) =~= s.subrange(0, 4));
    }
    let t = opening(zkey_letters(), version, n as int) + more;
    assert(t.subrange(0, 4) =~= zkey::zkey_magic());
    assert(t.subrange(8, 12) =~= le_bytes(n as int, 4));
    let p = le_bytes(n as int, 4) + more;
    assert(p.subrange(0, 4) =~= le_bytes(n as int, 4));
}

/// A header whose sizes do not belong together is refused for that, and only then.
#[verifier::spinoff_prover]
#[verifier::rlimit(60)]
pub proof fn lemma_header_sizes_refused(z: Zkey, more: Seq<u8>)
    requires
        z.num_vars <= u32::MAX,
        z.num_public <= u32::MAX,
        z.domain_size <= u32::MAX,
        plain_key(z.vk),
    ensures
        ({
            let fits = z.num_public < z.num_vars && exists|k: nat|
                z.domain_size == #[trigger] pow2(k);
            let e = zkey::header_error(header_file(z) + more);
            &&& fits ==> e is None
            &&& !fits ==> e == Some(ZkeyError::Inconsistent("header sizes"))
        }),
{
    let s = header_file(z) + more;
    lemma_header_size(z);
    bytes::lemma_word_sizes();
    bytes::lemma_le_of_bytes(z.num_vars as int, 4);
    bytes::lemma_le_of_bytes(z.num_public as int, 4);
    bytes::lemma_le_of_bytes(z.domain_size as int, 4);
    lemma_moduli();
    assert(s.subrange(0, 4) =~= le_bytes(32, 4));
    assert(s.subrange(4, 36) =~= le_bytes(certificates::q(), 32));
    assert(s.subrange(36, 40) =~= le_bytes(32, 4));
    assert(s.subrange(40, 72) =~= le_bytes(certificates::r(), 32));
    assert(s.subrange(72, 76) =~= le_bytes(z.num_vars as int, 4));
    assert(s.subrange(76, 80) =~= le_bytes(z.num_public as int, 4));
    assert(s.subrange(80, 84) =~= le_bytes(z.domain_size as int, 4));
    assert(s.subrange(84, 660) =~= verifying_key_file(z.vk));
    lemma_key_reads(s, z.vk);
}

/// The point that a section is refused for is the first that is off its curve or not reduced.
pub proof fn lemma_bad_point_is_first(s: Seq<u8>, id: u32, n: int)
    requires
        0 <= n <= usize::MAX,
    ensures
        match zkey::g1_points_error(s, id, n) {
            None => forall|i: int|
                0 <= i < n ==> zkey::lies(#[trigger] zkey::g1_at(s, 64 * i), ec::g1_b_spec()),
            Some(e) => {
                &&& e matches ZkeyError::PointOffCurve { section, index } && section == id
                    && index < n && !zkey::lies(zkey::g1_at(s, 64 * index), ec::g1_b_spec())
                    && forall|i: int|
                    0 <= i < index ==> zkey::lies(
                        #[trigger] zkey::g1_at(s, 64 * i),
                        ec::g1_b_spec(),
                    )
            },
        },
    decreases n,
{
    if n > 0 {
        lemma_bad_point_is_first(s, id, n - 1);
    }
}

/// The same in G2.
pub proof fn lemma_bad_g2_point_is_first(s: Seq<u8>, id: u32, n: int)
    requires
        0 <= n <= usize::MAX,
    ensures
        match zkey::g2_points_error(s, id, n) {
            None => forall|i: int|
                0 <= i < n ==> zkey::lies(#[trigger] zkey::g2_at(s, 128 * i), ec::g2_b_spec()),
            Some(e) => {
                &&& e matches ZkeyError::PointOffCurve { section, index } && section == id
                    && index < n && !zkey::lies(zkey::g2_at(s, 128 * index), ec::g2_b_spec())
                    && forall|i: int|
                    0 <= i < index ==> zkey::lies(
                        #[trigger] zkey::g2_at(s, 128 * i),
                        ec::g2_b_spec(),
                    )
            },
        },
    decreases n,
{
    if n > 0 {
        lemma_bad_g2_point_is_first(s, id, n - 1);
    }
}

/// A witness file that is cut off before the end of its values is reported as truncated.
#[verifier::spinoff_prover]
#[verifier::rlimit(60)]
pub proof fn lemma_cut_wtns_is_truncated(s: Seq<u8>, k: int)
    requires
        zkey::wtns_error(s) is None,
        0 <= k < zkey::wtns_second(s) + 12 + zkey::wtns_data(s).len(),
    ensures
        zkey::wtns_error(s.take(k)) == Some(WtnsError::Truncated),
{
    let t = s.take(k);
    let at = zkey::wtns_second(s);
    bytes::lemma_le_bound(s.subrange(16, 24));
    bytes::lemma_le_bound(s.subrange(at + 4, at + 12));
    bytes::lemma_le_bound(zkey::wtns_header(s).subrange(0, 4));
    if k >= 4 {
        assert(t.subrange(0, 4) =~= s.subrange(0, 4));
    }
    if k >= 12 {
        assert(t.subrange(8, 12) =~= s.subrange(8, 12));
    }
    if k >= 24 {
        assert(t.subrange(16, 24) =~= s.subrange(16, 24));
    }
    if k >= at {
        assert(zkey::wtns_header(t) =~= zkey::wtns_header(s));
    }
    if k >= at + 12 {
        assert(t.subrange(at + 4, at + 12) =~= s.subrange(at + 4, at + 12));
    }
}

/// Other letters and another number of sections are refused as what they are.
#[verifier::spinoff_prover]
#[verifier::rlimit(60)]
pub proof fn lemma_wtns_opening_refused(s: Seq<u8>, version: int, n: u32, more: Seq<u8>)
    ensures
        s.len() >= 4 && s.take(4) != wtns_letters() ==> zkey::wtns_error(s) == Some(
            WtnsError::Magic,
        ),
        n != 2 ==> zkey::wtns_error(opening(wtns_letters(), version, n as int) + more) == Some(
            WtnsError::Count,
        ),
{
    bytes::lemma_word_sizes();
    bytes::lemma_le_of_bytes(n as int, 4);
    assert(wtns_letters() =~= zkey::wtns_magic());
    if s.len() >= 4 {
        assert(s.take(4) =~= s.subrange(0, 4));
    }
    let t = opening(wtns_letters(), version, n as int) + more;
    assert(t.subrange(0, 4) =~= zkey::wtns_magic());
    assert(t.subrange(8, 12) =~= le_bytes(n as int, 4));
}

} // verus!
