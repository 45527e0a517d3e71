//! Byte layouts that a device's kernels read, produced from the types of this
//! crate: field elements as 32 Montgomery bytes, G1 points as 64, G2 as 128
//! (the zkey's own layouts), grouped coefficients as 48-byte records (signal at
//! 0, value at 16), and Jacobian results back into points.

use vstd::arithmetic::div_mod::*;
use vstd::prelude::*;

use crate::bytes;
use crate::bytes::{limbs_at, limbs_bytes, u32_at, u32_bytes};
use crate::coeff::GroupedCoeff;
use crate::ec::{Affine, Jacobian};
use crate::field;
use crate::field::{Field, Fp, Fr};
use crate::fp2::Fp2;
use crate::limbs;
use crate::math::curve;
use crate::math::ring;
use crate::math::ring::{FieldLaws, Ring};
use crate::msm;

verus! {

// ---- records one after another -----------------------------------------------------------------

/// Records one after another.
pub open spec fn packed(records: Seq<Seq<u8>>) -> Seq<u8>
    decreases records.len(),
{
    if records.len() == 0 {
        Seq::empty()
    } else {
        packed(records.drop_last()) + records.last()
    }
}

/// Record `i` of packed records of one size.
pub proof fn lemma_packed(records: Seq<Seq<u8>>, size: nat, i: int)
    requires
        forall|j: int| 0 <= j < records.len() ==> (#[trigger] records[j]).len() == size,
        0 <= i < records.len(),
    ensures
        packed(records).len() == size * records.len(),
        0 <= size * i,
        size * i + size <= size * records.len(),
        packed(records).subrange(size * i, size * i + size) == records[i],
    decreases records.len(),
{
    let n = records.len() - 1;
    let front = records.drop_last();
    let p = packed(front);
    lemma_packed_len(front, size);
    lemma_packed_len(records, size);
    assert(size * (n + 1) == size * n + size) by (nonlinear_arith);
    assert(size * i >= 0 && size * i + size <= size * (n + 1)) by (nonlinear_arith)
        requires
            0 <= i <= n,
            size >= 0,
    ;
    if i < n {
        lemma_packed(front, size, i);
        assert(packed(records).subrange(size * i, size * i + size) =~= p.subrange(
            size * i,
            size * i + size,
        ));
    } else {
        assert(packed(records).subrange(size * i, size * i + size) =~= records.last());
    }
}

/// The size of packed records of one size.
pub proof fn lemma_packed_len(records: Seq<Seq<u8>>, size: nat)
    requires
        forall|j: int| 0 <= j < records.len() ==> (#[trigger] records[j]).len() == size,
    ensures
        packed(records).len() == size * records.len(),
    decreases records.len(),
{
    if records.len() > 0 {
        let n = records.len() - 1;
        lemma_packed_len(records.drop_last(), size);
        assert(size * (n + 1) == size * n + size) by (nonlinear_arith);
    } else {
        assert(size * 0 == 0) by (nonlinear_arith);
    }
}

/// Append one record.
proof fn lemma_packed_push(records: Seq<Seq<u8>>, n: int)
    requires
        0 <= n < records.len(),
    ensures
        packed(records.take(n + 1)) == packed(records.take(n)) + records[n],
{
    assert(records.take(n + 1).drop_last() =~= records.take(n));
}

/// Append bytes.
pub(crate) fn append(out: &mut Vec<u8>, s: &[u8])
    ensures
        final(out)@ == old(out)@ + s@,
{
    let ghost before = out@;
    let n = s.len();
    let mut i: usize = 0;
    while i < n
        invariant
            i <= n,
            n == s@.len(),
            out@ =~= before + s@.take(i as int),
        decreases n - i,
    {
        out.push(s[i]);
        i = i + 1;
    }
    proof {
        assert(s@.take(n as int) =~= s@);
    }
}

// ---- records -----------------------------------------------------------------------------------

/// A scalar-field element in Montgomery form.
pub open spec fn fr_record(x: Fr) -> Seq<u8> {
    bytes::le_bytes(x.raw(), 32)
}

/// A scalar-field element in canonical form.
pub open spec fn canonical_record(x: Fr) -> Seq<u8> {
    bytes::le_bytes(x.val(), 32)
}

/// A base-field element in Montgomery form.
pub open spec fn fp_record(x: Fp) -> Seq<u8> {
    bytes::le_bytes(x.raw(), 32)
}

/// An element of the extension.
pub open spec fn fp2_record(x: Fp2) -> Seq<u8> {
    fp_record(x.c0) + fp_record(x.c1)
}

/// Zeros.
pub open spec fn zeros(n: nat) -> Seq<u8> {
    Seq::new(n, |i: int| 0u8)
}

/// A G1 point; the identity as zeros.
pub open spec fn g1_record(p: Affine<Fp>) -> Seq<u8> {
    if p.infinity {
        zeros(64)
    } else {
        fp_record(p.x) + fp_record(p.y)
    }
}

/// A G2 point; the identity as zeros.
pub open spec fn g2_record(p: Affine<Fp2>) -> Seq<u8> {
    if p.infinity {
        zeros(128)
    } else {
        fp2_record(p.x) + fp2_record(p.y)
    }
}

/// A grouped coefficient.
pub open spec fn coeff_record(c: GroupedCoeff) -> Seq<u8> {
    bytes::le_bytes(c.signal as int, 4) + zeros(12) + fr_record(c.value)
}

/// A Jacobian G1 point.
pub open spec fn jac_g1_record(p: Jacobian<Fp>) -> Seq<u8> {
    fp_record(p.x) + fp_record(p.y) + fp_record(p.z)
}

/// A Jacobian G2 point.
pub open spec fn jac_g2_record(p: Jacobian<Fp2>) -> Seq<u8> {
    fp2_record(p.x) + fp2_record(p.y) + fp2_record(p.z)
}

/// A word.
pub open spec fn word_record(x: u32) -> Seq<u8> {
    bytes::le_bytes(x as int, 4)
}

/// The bytes of scalar-field elements, one record after another.
pub open spec fn packed_fr(xs: Seq<Fr>) -> Seq<u8> {
    packed(xs.map_values(|x: Fr| fr_record(x)))
}

/// The bytes of canonical scalars, one record after another.
pub open spec fn packed_canonical(xs: Seq<Fr>) -> Seq<u8> {
    packed(xs.map_values(|x: Fr| canonical_record(x)))
}

/// The bytes of G1 points, one record after another.
pub open spec fn packed_g1(xs: Seq<Affine<Fp>>) -> Seq<u8> {
    packed(xs.map_values(|x: Affine<Fp>| g1_record(x)))
}

/// The bytes of G2 points, one record after another.
pub open spec fn packed_g2(xs: Seq<Affine<Fp2>>) -> Seq<u8> {
    packed(xs.map_values(|x: Affine<Fp2>| g2_record(x)))
}

/// The bytes of grouped coefficients, one record after another.
pub open spec fn packed_coeffs(xs: Seq<GroupedCoeff>) -> Seq<u8> {
    packed(xs.map_values(|x: GroupedCoeff| coeff_record(x)))
}

/// The bytes of Jacobian G1 points, one record after another.
pub open spec fn packed_jac_g1(xs: Seq<Jacobian<Fp>>) -> Seq<u8> {
    packed(xs.map_values(|x: Jacobian<Fp>| jac_g1_record(x)))
}

/// The bytes of Jacobian G2 points, one record after another.
pub open spec fn packed_jac_g2(xs: Seq<Jacobian<Fp2>>) -> Seq<u8> {
    packed(xs.map_values(|x: Jacobian<Fp2>| jac_g2_record(x)))
}

/// The bytes of words, one record after another.
pub open spec fn packed_u32(xs: Seq<u32>) -> Seq<u8> {
    packed(xs.map_values(|x: u32| word_record(x)))
}

/// A field element's Montgomery limbs as 32 little-endian bytes.
pub fn fr_bytes(x: &Fr) -> (r: [u8; 32])
    ensures
        r@ == fr_record(*x),
{
    limbs_bytes(&x.montgomery_limbs())
}

fn fp_bytes(x: &Fp) -> (r: [u8; 32])
    ensures
        r@ == fp_record(*x),
{
    limbs_bytes(&x.montgomery_limbs())
}

/// Pack scalar-field elements (Montgomery form).
pub fn pack_fr(xs: &[Fr]) -> (r: Vec<u8>)
    ensures
        r@ == packed_fr(xs@),
{
    let mut r: Vec<u8> = Vec::new();
    let ghost records = xs@.map_values(|x: Fr| fr_record(x));
    let n = xs.len();
    let mut i: usize = 0;
    while i < n
        invariant
            i <= n,
            n == xs@.len(),
            records == xs@.map_values(|x: Fr| fr_record(x)),
            r@ == packed(records.take(i as int)),
        decreases n - i,
    {
        let ghost before = r@;
        append(&mut r, &fr_bytes(&xs[i]));
        proof {
            lemma_packed_push(records, i as int);
            assert(records[i as int] == fr_record(xs@[i as int]));
            assert(r@ =~= before + fr_record(xs@[i as int]));
        }
        i = i + 1;
    }
    proof {
        assert(records.take(n as int) =~= records);
    }
    r
}

/// Pack canonical scalars (what the digit kernel reads).
pub fn pack_canonical(xs: &[Fr]) -> (r: Vec<u8>)
    ensures
        r@ == packed_canonical(xs@),
{
    let mut r: Vec<u8> = Vec::new();
    let ghost records = xs@.map_values(|x: Fr| canonical_record(x));
    let n = xs.len();
    let mut i: usize = 0;
    while i < n
        invariant
            i <= n,
            n == xs@.len(),
            records == xs@.map_values(|x: Fr| canonical_record(x)),
            r@ == packed(records.take(i as int)),
        decreases n - i,
    {
        let ghost before = r@;
        append(&mut r, &limbs_bytes(&xs[i].to_canonical()));
        proof {
            lemma_packed_push(records, i as int);
            assert(records[i as int] == canonical_record(xs@[i as int]));
            assert(r@ =~= before + canonical_record(xs@[i as int]));
        }
        i = i + 1;
    }
    proof {
        assert(records.take(n as int) =~= records);
    }
    r
}

/// Pack G1 affine points as 64 bytes each; infinity as all zeros.
pub fn pack_g1(xs: &[Affine<Fp>]) -> (r: Vec<u8>)
    ensures
        r@ == packed_g1(xs@),
{
    let mut r: Vec<u8> = Vec::new();
    let ghost records = xs@.map_values(|x: Affine<Fp>| g1_record(x));
    let n = xs.len();
    let mut i: usize = 0;
    while i < n
        invariant
            i <= n,
            n == xs@.len(),
            records == xs@.map_values(|x: Affine<Fp>| g1_record(x)),
            r@ == packed(records.take(i as int)),
        decreases n - i,
    {
        let ghost before = r@;
        let p = &xs[i];
        if p.infinity {
            let z: [u8; 64] = [0; 64];
            append(&mut r, &z);
            assert(z@ =~= zeros(64));
        } else {
            append(&mut r, &fp_bytes(&p.x));
            append(&mut r, &fp_bytes(&p.y));
        }
        proof {
            lemma_packed_push(records, i as int);
            assert(records[i as int] == g1_record(xs@[i as int]));
            assert(r@ =~= before + g1_record(xs@[i as int]));
        }
        i = i + 1;
    }
    proof {
        assert(records.take(n as int) =~= records);
    }
    r
}

/// Pack G2 affine points as 128 bytes each (`x.c0, x.c1, y.c0, y.c1`); infinity as zeros.
pub fn pack_g2(xs: &[Affine<Fp2>]) -> (r: Vec<u8>)
    ensures
        r@ == packed_g2(xs@),
{
    let mut r: Vec<u8> = Vec::new();
    let ghost records = xs@.map_values(|x: Affine<Fp2>| g2_record(x));
    let n = xs.len();
    let mut i: usize = 0;
    while i < n
        invariant
            i <= n,
            n == xs@.len(),
            records == xs@.map_values(|x: Affine<Fp2>| g2_record(x)),
            r@ == packed(records.take(i as int)),
        decreases n - i,
    {
        let ghost before = r@;
        let p = &xs[i];
        if p.infinity {
            let z: [u8; 128] = [0; 128];
            append(&mut r, &z);
            assert(z@ =~= zeros(128));
        } else {
            append(&mut r, &fp_bytes(&p.x.c0));
            append(&mut r, &fp_bytes(&p.x.c1));
            append(&mut r, &fp_bytes(&p.y.c0));
            append(&mut r, &fp_bytes(&p.y.c1));
        }
        proof {
            lemma_packed_push(records, i as int);
            assert(records[i as int] == g2_record(xs@[i as int]));
            assert(r@ =~= before + g2_record(xs@[i as int]));
        }
        i = i + 1;
    }
    proof {
        assert(records.take(n as int) =~= records);
    }
    r
}

/// Pack grouped coefficients as 48-byte records: `signal` at 0, `value` at 16.
pub fn pack_coeffs(xs: &[GroupedCoeff]) -> (r: Vec<u8>)
    ensures
        r@ == packed_coeffs(xs@),
{
    let mut r: Vec<u8> = Vec::new();
    let ghost records = xs@.map_values(|x: GroupedCoeff| coeff_record(x));
    let n = xs.len();
    let mut i: usize = 0;
    while i < n
        invariant
            i <= n,
            n == xs@.len(),
            records == xs@.map_values(|x: GroupedCoeff| coeff_record(x)),
            r@ == packed(records.take(i as int)),
        decreases n - i,
    {
        let ghost before = r@;
        let c = &xs[i];
        let z: [u8; 12] = [0; 12];
        append(&mut r, &u32_bytes(c.signal));
        append(&mut r, &z);
        append(&mut r, &fr_bytes(&c.value));
        assert(z@ =~= zeros(12));
        proof {
            lemma_packed_push(records, i as int);
            assert(records[i as int] == coeff_record(xs@[i as int]));
            assert(r@ =~= before + coeff_record(xs@[i as int]));
        }
        i = i + 1;
    }
    proof {
        assert(records.take(n as int) =~= records);
    }
    r
}

/// Pack Jacobian G1 points (96 bytes each).
pub fn pack_jac_g1(xs: &[Jacobian<Fp>]) -> (r: Vec<u8>)
    ensures
        r@ == packed_jac_g1(xs@),
{
    let mut r: Vec<u8> = Vec::new();
    let ghost records = xs@.map_values(|x: Jacobian<Fp>| jac_g1_record(x));
    let n = xs.len();
    let mut i: usize = 0;
    while i < n
        invariant
            i <= n,
            n == xs@.len(),
            records == xs@.map_values(|x: Jacobian<Fp>| jac_g1_record(x)),
            r@ == packed(records.take(i as int)),
        decreases n - i,
    {
        let ghost before = r@;
        append(&mut r, &fp_bytes(&xs[i].x));
        append(&mut r, &fp_bytes(&xs[i].y));
        append(&mut r, &fp_bytes(&xs[i].z));
        proof {
            lemma_packed_push(records, i as int);
            assert(records[i as int] == jac_g1_record(xs@[i as int]));
            assert(r@ =~= before + jac_g1_record(xs@[i as int]));
        }
        i = i + 1;
    }
    proof {
        assert(records.take(n as int) =~= records);
    }
    r
}

/// Pack Jacobian G2 points (192 bytes each).
pub fn pack_jac_g2(xs: &[Jacobian<Fp2>]) -> (r: Vec<u8>)
    ensures
        r@ == packed_jac_g2(xs@),
{
    let mut r: Vec<u8> = Vec::new();
    let ghost records = xs@.map_values(|x: Jacobian<Fp2>| jac_g2_record(x));
    let n = xs.len();
    let mut i: usize = 0;
    while i < n
        invariant
            i <= n,
            n == xs@.len(),
            records == xs@.map_values(|x: Jacobian<Fp2>| jac_g2_record(x)),
            r@ == packed(records.take(i as int)),
        decreases n - i,
    {
        let ghost before = r@;
        append(&mut r, &fp_bytes(&xs[i].x.c0));
        append(&mut r, &fp_bytes(&xs[i].x.c1));
        append(&mut r, &fp_bytes(&xs[i].y.c0));
        append(&mut r, &fp_bytes(&xs[i].y.c1));
        append(&mut r, &fp_bytes(&xs[i].z.c0));
        append(&mut r, &fp_bytes(&xs[i].z.c1));
        proof {
            lemma_packed_push(records, i as int);
            assert(records[i as int] == jac_g2_record(xs@[i as int]));
            assert(r@ =~= before + jac_g2_record(xs@[i as int]));
        }
        i = i + 1;
    }
    proof {
        assert(records.take(n as int) =~= records);
    }
    r
}

/// Pack indices.
pub fn pack_u32(xs: &[u32]) -> (r: Vec<u8>)
    ensures
        r@ == packed_u32(xs@),
{
    let mut r: Vec<u8> = Vec::new();
    let ghost records = xs@.map_values(|x: u32| word_record(x));
    let n = xs.len();
    let mut i: usize = 0;
    while i < n
        invariant
            i <= n,
            n == xs@.len(),
            records == xs@.map_values(|x: u32| word_record(x)),
            r@ == packed(records.take(i as int)),
        decreases n - i,
    {
        let ghost before = r@;
        append(&mut r, &u32_bytes(xs[i]));
        proof {
            lemma_packed_push(records, i as int);
            assert(records[i as int] == word_record(xs@[i as int]));
            assert(r@ =~= before + word_record(xs@[i as int]));
        }
        i = i + 1;
    }
    proof {
        assert(records.take(n as int) =~= records);
    }
    r
}

// ---- reading -----------------------------------------------------------------------------------

/// The 32-byte number at an offset.
pub open spec fn number_at(s: Seq<u8>, off: int) -> int {
    bytes::le(s.subrange(off, off + 32))
}

/// The base-field element at an offset.
pub open spec fn fp_at(s: Seq<u8>, off: int) -> Fp {
    Fp::of_raw(number_at(s, off))
}

/// The element of the extension at an offset.
pub open spec fn fp2_at(s: Seq<u8>, off: int) -> Fp2 {
    Fp2 { c0: fp_at(s, off), c1: fp_at(s, off + 32) }
}

/// The scalar-field elements that bytes hold.
pub open spec fn unpacked_fr(s: Seq<u8>) -> Seq<Fr> {
    Seq::new(s.len() / 32, |i: int| Fr::of_raw(number_at(s, 32 * i)))
}

/// The Jacobian G1 points that bytes hold.
pub open spec fn unpacked_jac_g1(s: Seq<u8>) -> Seq<Jacobian<Fp>> {
    Seq::new(
        s.len() / 96,
        |i: int|
            Jacobian {
                x: fp_at(s, 96 * i),
                y: fp_at(s, 96 * i + 32),
                z: fp_at(s, 96 * i + 64),
            },
    )
}

/// The Jacobian G2 points that bytes hold.
pub open spec fn unpacked_jac_g2(s: Seq<u8>) -> Seq<Jacobian<Fp2>> {
    Seq::new(
        s.len() / 192,
        |i: int|
            Jacobian {
                x: fp2_at(s, 192 * i),
                y: fp2_at(s, 192 * i + 64),
                z: fp2_at(s, 192 * i + 128),
            },
    )
}

/// The words that bytes hold.
pub open spec fn unpacked_u32(s: Seq<u8>) -> Seq<u32> {
    Seq::new(s.len() / 4, |i: int| bytes::le(s.subrange(4 * i, 4 * i + 4)) as u32)
}

fn read_fp(b: &[u8], off: usize) -> (r: Fp)
    requires
        off + 32 <= b@.len(),
    ensures
        r == fp_at(b@, off as int),
{
    let l = limbs_at(b, off);
    let r = Fp::from_montgomery_limbs(l);
    proof {
        Fp::lemma_raw(r);
    }
    r
}

fn read_fp2(b: &[u8], off: usize) -> (r: Fp2)
    requires
        off + 64 <= b@.len(),
    ensures
        r == fp2_at(b@, off as int),
{
    let len = b.len();
    Fp2::new(read_fp(b, off), read_fp(b, off + 32))
}

/// Read scalar-field results (32 bytes each, Montgomery).
pub fn unpack_fr(b: &[u8]) -> (r: Vec<Fr>)
    ensures
        r@ == unpacked_fr(b@),
{
    let len = b.len();
    let n = len / 32;
    let mut r: Vec<Fr> = Vec::new();
    let mut i: usize = 0;
    while i < n
        invariant
            i <= n,
            n == len / 32,
            len == b@.len(),
            r@ =~= unpacked_fr(b@).take(i as int),
        decreases n - i,
    {
        let x = Fr::from_montgomery_limbs(limbs_at(b, 32 * i));
        proof {
            Fr::lemma_raw(x);
        }
        r.push(x);
        i = i + 1;
    }
    proof {
        assert(unpacked_fr(b@).take(n as int) =~= unpacked_fr(b@));
    }
    r
}

/// Read Jacobian G1 results (96 bytes each: X, Y, Z Montgomery).
pub fn unpack_jac_g1(b: &[u8]) -> (r: Vec<Jacobian<Fp>>)
    ensures
        r@ == unpacked_jac_g1(b@),
{
    let len = b.len();
    let n = len / 96;
    let mut r: Vec<Jacobian<Fp>> = Vec::new();
    let mut i: usize = 0;
    while i < n
        invariant
            i <= n,
            n == len / 96,
            len == b@.len(),
            r@ =~= unpacked_jac_g1(b@).take(i as int),
        decreases n - i,
    {
        r.push(Jacobian { x: read_fp(b, 96 * i), y: read_fp(b, 96 * i + 32), z: read_fp(b, 96 * i + 64) });
        i = i + 1;
    }
    proof {
        assert(unpacked_jac_g1(b@).take(n as int) =~= unpacked_jac_g1(b@));
    }
    r
}

/// Read Jacobian G2 results (192 bytes each: X, Y, Z in Fp2).
pub fn unpack_jac_g2(b: &[u8]) -> (r: Vec<Jacobian<Fp2>>)
    ensures
        r@ == unpacked_jac_g2(b@),
{
    let len = b.len();
    let n = len / 192;
    let mut r: Vec<Jacobian<Fp2>> = Vec::new();
    let mut i: usize = 0;
    while i < n
        invariant
            i <= n,
            n == len / 192,
            len == b@.len(),
            r@ =~= unpacked_jac_g2(b@).take(i as int),
        decreases n - i,
    {
        r.push(Jacobian {
                x: read_fp2(b, 192 * i),
                y: read_fp2(b, 192 * i + 64),
                z: read_fp2(b, 192 * i + 128),
            });
        i = i + 1;
    }
    proof {
        assert(unpacked_jac_g2(b@).take(n as int) =~= unpacked_jac_g2(b@));
    }
    r
}

/// Read indices.
pub fn unpack_u32(b: &[u8]) -> (r: Vec<u32>)
    ensures
        r@ == unpacked_u32(b@),
{
    let len = b.len();
    let n = len / 4;
    let mut r: Vec<u32> = Vec::new();
    let mut i: usize = 0;
    while i < n
        invariant
            i <= n,
            n == len / 4,
            len == b@.len(),
            r@ =~= unpacked_u32(b@).take(i as int),
        decreases n - i,
    {
        r.push(u32_at(b, 4 * i));
        i = i + 1;
    }
    proof {
        assert(unpacked_u32(b@).take(n as int) =~= unpacked_u32(b@));
    }
    r
}

/// Whether a Jacobian result is the identity (Z = 0), matching the kernels' convention.
pub fn is_infinity<F: Field>(p: &Jacobian<F>) -> (r: bool)
    ensures
        r == (p.z == F::zero_spec()),
        r == (p.pt() is Infinity),
{
    p.is_infinity()
}

// ---- reading gives back what was packed --------------------------------------------------------

/// A number of 32 bytes reads back.
proof fn lemma_number(x: int)
    requires
        0 <= x < limbs::radix(),
    ensures
        bytes::le(bytes::le_bytes(x, 32)) == x,
{
    bytes::lemma_word_sizes();
    bytes::lemma_le_of_bytes(x, 32);
}

/// A base-field element reads back from the middle of its record.
proof fn lemma_fp_reads(s: Seq<u8>, off: int, x: Fp)
    requires
        0 <= off,
        off + 32 <= s.len(),
        s.subrange(off, off + 32) == fp_record(x),
    ensures
        fp_at(s, off) == x,
{
    Fp::lemma_raw(x);
    lemma_number(x.raw());
}

/// Unpacking undoes packing of scalar-field elements.
pub proof fn lemma_fr_round_trip(xs: Seq<Fr>)
    ensures
        unpacked_fr(packed_fr(xs)) == xs,
        packed_fr(xs).len() == 32 * xs.len(),
{
    let records = xs.map_values(|x: Fr| fr_record(x));
    let s = packed(records);
    lemma_packed_len(records, 32);
    assert forall|i: int| 0 <= i < xs.len() implies unpacked_fr(s)[i] == #[trigger] xs[i] by {
        lemma_packed(records, 32, i);
        Fr::lemma_raw(xs[i]);
        lemma_number(xs[i].raw());
    }
    assert(unpacked_fr(s) =~= xs);
}

/// Unpacking undoes packing of indices.
pub proof fn lemma_u32_round_trip(xs: Seq<u32>)
    ensures
        unpacked_u32(packed_u32(xs)) == xs,
        packed_u32(xs).len() == 4 * xs.len(),
{
    let records = xs.map_values(|x: u32| word_record(x));
    let s = packed(records);
    lemma_packed_len(records, 4);
    bytes::lemma_word_sizes();
    assert forall|i: int| 0 <= i < xs.len() implies unpacked_u32(s)[i] == #[trigger] xs[i] by {
        lemma_packed(records, 4, i);
        bytes::lemma_le_of_bytes(xs[i] as int, 4);
    }
    assert(unpacked_u32(s) =~= xs);
}

/// Unpacking undoes packing of Jacobian G1 points, coordinate for coordinate.
pub proof fn lemma_jac_g1_round_trip(ps: Seq<Jacobian<Fp>>)
    ensures
        unpacked_jac_g1(packed_jac_g1(ps)) == ps,
        packed_jac_g1(ps).len() == 96 * ps.len(),
{
    let records = ps.map_values(|x: Jacobian<Fp>| jac_g1_record(x));
    let s = packed(records);
    lemma_packed_len(records, 96);
    assert forall|i: int| 0 <= i < ps.len() implies unpacked_jac_g1(s)[i] == #[trigger] ps[i] by {
        lemma_packed(records, 96, i);
        let r = records[i];
        let k = 96 * i;
        assert(r == s.subrange(k, k + 96));
        assert(s.subrange(k, k + 32) =~= r.subrange(0, 32));
        assert(s.subrange(k + 32, k + 64) =~= r.subrange(32, 64));
        assert(s.subrange(k + 64, k + 96) =~= r.subrange(64, 96));
        assert(r.subrange(0, 32) =~= fp_record(ps[i].x));
        assert(r.subrange(32, 64) =~= fp_record(ps[i].y));
        assert(r.subrange(64, 96) =~= fp_record(ps[i].z));
        lemma_fp_reads(s, k, ps[i].x);
        lemma_fp_reads(s, k + 32, ps[i].y);
        lemma_fp_reads(s, k + 64, ps[i].z);
    }
    assert(unpacked_jac_g1(s) =~= ps);
}

/// Unpacking undoes packing of Jacobian G2 points, coordinate for coordinate.
pub proof fn lemma_jac_g2_round_trip(ps: Seq<Jacobian<Fp2>>)
    ensures
        unpacked_jac_g2(packed_jac_g2(ps)) == ps,
        packed_jac_g2(ps).len() == 192 * ps.len(),
{
    let records = ps.map_values(|x: Jacobian<Fp2>| jac_g2_record(x));
    let s = packed(records);
    lemma_packed_len(records, 192);
    assert forall|i: int| 0 <= i < ps.len() implies unpacked_jac_g2(s)[i] == #[trigger] ps[i] by {
        lemma_packed(records, 192, i);
        let r = records[i];
        let k = 192 * i;
        let p = ps[i];
        assert(r == s.subrange(k, k + 192));
        lemma_part(s, k, r, 0, fp_record(p.x.c0));
        lemma_part(s, k, r, 32, fp_record(p.x.c1));
        lemma_part(s, k, r, 64, fp_record(p.y.c0));
        lemma_part(s, k, r, 96, fp_record(p.y.c1));
        lemma_part(s, k, r, 128, fp_record(p.z.c0));
        lemma_part(s, k, r, 160, fp_record(p.z.c1));
        lemma_fp_reads(s, k, p.x.c0);
        lemma_fp_reads(s, k + 32, p.x.c1);
        lemma_fp_reads(s, k + 64, p.y.c0);
        lemma_fp_reads(s, k + 96, p.y.c1);
        lemma_fp_reads(s, k + 128, p.z.c0);
        lemma_fp_reads(s, k + 160, p.z.c1);
    }
    assert(unpacked_jac_g2(s) =~= ps);
}

/// A part of a record that stands in a longer string.
proof fn lemma_part(s: Seq<u8>, k: int, r: Seq<u8>, at: int, part: Seq<u8>)
    requires
        0 <= k,
        k + 192 <= s.len(),
        r == s.subrange(k, k + 192),
        0 <= at <= 160,
        r.subrange(at, at + 32) =~= part,
    ensures
        s.subrange(k + at, k + at + 32) == part,
{
    assert(s.subrange(k + at, k + at + 32) =~= r.subrange(at, at + 32));
}

// ---- what the kernels read ---------------------------------------------------------------------

/// The 256-bit integers that bytes hold, as limbs.
pub open spec fn unpacked_canonical(s: Seq<u8>) -> Seq<[u64; 4]> {
    Seq::new(s.len() / 32, |i: int| limbs::limbs_of(number_at(s, 32 * i)))
}

/// The grouped coefficients that bytes hold.
pub open spec fn unpacked_coeffs(s: Seq<u8>) -> Seq<GroupedCoeff> {
    Seq::new(
        s.len() / 48,
        |i: int|
            GroupedCoeff {
                signal: bytes::le(s.subrange(48 * i, 48 * i + 4)) as u32,
                value: Fr::of_raw(number_at(s, 48 * i + 16)),
            },
    )
}

/// A point of two coordinates; both zero stand for the identity.
pub open spec fn point_of<F: Field>(x: F, y: F) -> Affine<F> {
    Affine { x, y, infinity: x == F::zero_spec() && y == F::zero_spec() }
}

/// The G1 points that bytes hold.
pub open spec fn unpacked_g1(s: Seq<u8>) -> Seq<Affine<Fp>> {
    Seq::new(s.len() / 64, |i: int| point_of(fp_at(s, 64 * i), fp_at(s, 64 * i + 32)))
}

/// The G2 points that bytes hold.
pub open spec fn unpacked_g2(s: Seq<u8>) -> Seq<Affine<Fp2>> {
    Seq::new(s.len() / 128, |i: int| point_of(fp2_at(s, 128 * i), fp2_at(s, 128 * i + 64)))
}

/// Read canonical scalars, as limbs.
pub fn unpack_canonical(b: &[u8]) -> (r: Vec<[u64; 4]>)
    ensures
        r@ == unpacked_canonical(b@),
{
    let len = b.len();
    let n = len / 32;
    let mut r: Vec<[u64; 4]> = Vec::new();
    let mut i: usize = 0;
    while i < n
        invariant
            i <= n,
            n == len / 32,
            len == b@.len(),
            r@ =~= unpacked_canonical(b@).take(i as int),
        decreases n - i,
    {
        let x = limbs_at(b, 32 * i);
        proof {
            limbs::lemma_value(x);
        }
        r.push(x);
        i = i + 1;
    }
    proof {
        assert(unpacked_canonical(b@).take(n as int) =~= unpacked_canonical(b@));
    }
    r
}

/// Read grouped coefficients.
pub fn unpack_coeffs(b: &[u8]) -> (r: Vec<GroupedCoeff>)
    ensures
        r@ == unpacked_coeffs(b@),
{
    let len = b.len();
    let n = len / 48;
    let mut r: Vec<GroupedCoeff> = Vec::new();
    let mut i: usize = 0;
    while i < n
        invariant
            i <= n,
            n == len / 48,
            len == b@.len(),
            r@ =~= unpacked_coeffs(b@).take(i as int),
        decreases n - i,
    {
        let value = Fr::from_montgomery_limbs(limbs_at(b, 48 * i + 16));
        proof {
            Fr::lemma_raw(value);
        }
        r.push(GroupedCoeff { signal: u32_at(b, 48 * i), value });
        i = i + 1;
    }
    proof {
        assert(unpacked_coeffs(b@).take(n as int) =~= unpacked_coeffs(b@));
    }
    r
}

/// A point of two coordinates; both zero stand for the identity.
fn read_point<F: Field>(x: F, y: F) -> (r: Affine<F>)
    ensures
        r == point_of(x, y),
{
    Affine { x, y, infinity: x.is_zero() && y.is_zero() }
}

/// Read G1 points (64 bytes each); zeros are the identity.
pub fn unpack_g1(b: &[u8]) -> (r: Vec<Affine<Fp>>)
    ensures
        r@ == unpacked_g1(b@),
{
    let len = b.len();
    let n = len / 64;
    let mut r: Vec<Affine<Fp>> = Vec::new();
    let mut i: usize = 0;
    while i < n
        invariant
            i <= n,
            n == len / 64,
            len == b@.len(),
            r@ =~= unpacked_g1(b@).take(i as int),
        decreases n - i,
    {
        r.push(read_point(read_fp(b, 64 * i), read_fp(b, 64 * i + 32)));
        i = i + 1;
    }
    proof {
        assert(unpacked_g1(b@).take(n as int) =~= unpacked_g1(b@));
    }
    r
}

/// Read G2 points (128 bytes each); zeros are the identity.
pub fn unpack_g2(b: &[u8]) -> (r: Vec<Affine<Fp2>>)
    ensures
        r@ == unpacked_g2(b@),
{
    let len = b.len();
    let n = len / 128;
    let mut r: Vec<Affine<Fp2>> = Vec::new();
    let mut i: usize = 0;
    while i < n
        invariant
            i <= n,
            n == len / 128,
            len == b@.len(),
            r@ =~= unpacked_g2(b@).take(i as int),
        decreases n - i,
    {
        r.push(read_point(read_fp2(b, 128 * i), read_fp2(b, 128 * i + 64)));
        i = i + 1;
    }
    proof {
        assert(unpacked_g2(b@).take(n as int) =~= unpacked_g2(b@));
    }
    r
}

/// Canonical scalars read back as their residues.
pub proof fn lemma_canonical_round_trip(xs: Seq<Fr>)
    ensures
        packed_canonical(xs).len() == 32 * xs.len(),
        unpacked_canonical(packed_canonical(xs)).len() == xs.len(),
        forall|i: int|
            0 <= i < xs.len() ==> limbs::value(
                #[trigger] unpacked_canonical(packed_canonical(xs))[i],
            ) == xs[i].val(),
{
    let records = xs.map_values(|x: Fr| canonical_record(x));
    let s = packed(records);
    lemma_packed_len(records, 32);
    assert forall|i: int| 0 <= i < xs.len() implies limbs::value(
        #[trigger] unpacked_canonical(s)[i],
    ) == xs[i].val() by {
        lemma_packed(records, 32, i);
        msm::lemma_val_nonnegative(xs[i]);
        field::lemma_fr_modulus();
        lemma_number(xs[i].val());
        limbs::lemma_limbs_of(xs[i].val());
    }
}

/// Unpacking undoes packing of grouped coefficients.
pub proof fn lemma_coeffs_round_trip(xs: Seq<GroupedCoeff>)
    ensures
        unpacked_coeffs(packed_coeffs(xs)) == xs,
        packed_coeffs(xs).len() == 48 * xs.len(),
{
    let records = xs.map_values(|x: GroupedCoeff| coeff_record(x));
    let s = packed(records);
    lemma_packed_len(records, 48);
    bytes::lemma_word_sizes();
    assert forall|i: int| 0 <= i < xs.len() implies unpacked_coeffs(s)[i] == #[trigger] xs[i] by {
        lemma_packed(records, 48, i);
        let r = records[i];
        let k = 48 * i;
        assert(r == s.subrange(k, k + 48));
        assert(s.subrange(k, k + 4) =~= r.subrange(0, 4));
        assert(s.subrange(k + 16, k + 48) =~= r.subrange(16, 48));
        assert(r.subrange(0, 4) =~= word_record(xs[i].signal));
        assert(r.subrange(16, 48) =~= fr_record(xs[i].value));
        bytes::lemma_le_of_bytes(xs[i].signal as int, 4);
        Fr::lemma_raw(xs[i].value);
        lemma_number(xs[i].value.raw());
    }
    assert(unpacked_coeffs(s) =~= xs);
}

/// Zeros read as zero.
proof fn lemma_zeros_read(s: Seq<u8>, off: int)
    requires
        0 <= off,
        off + 32 <= s.len(),
        s.subrange(off, off + 32) == zeros(32),
    ensures
        fp_at(s, off) == Fp::zero_spec(),
{
    assert(zeros(32) =~= bytes::le_bytes(0, 32)) by {
        assert forall|i: int| 0 <= i < 32 implies #[trigger] bytes::le_bytes(0, 32)[i] == 0u8 by {
            vstd::arithmetic::power::lemma_pow_positive(256, i as nat);
            lemma_div_basics_1(vstd::arithmetic::power::pow(256, i as nat));
        }
    }
    lemma_number(0);
}

/// No point of a smooth curve has both coordinates zero.
proof fn lemma_point_nonzero<F: Field>(p: Affine<F>, b: F)
    requires
        curve::smooth(b),
        p.pt().on(b),
        !p.infinity,
    ensures
        !(p.x == F::zero_spec() && p.y == F::zero_spec()),
{
    if p.x == F::zero_spec() && p.y == F::zero_spec() {
        F::constants_wf();
        let z = F::zero_spec();
        ring::lemma_mul_zero(z);
        F::additive(b, z, z);
        F::additive(z, b, z);
        assert(z * z * z + b == z);
    }
}

/// Points of a curve read back as the same points, whatever the coordinates of the identity.
#[verifier::spinoff_prover]
#[verifier::rlimit(60)]
pub proof fn lemma_g1_round_trip(ps: Seq<Affine<Fp>>, b: Fp)
    ensures
        packed_g1(ps).len() == 64 * ps.len(),
        unpacked_g1(packed_g1(ps)).len() == ps.len(),
        msm::on_curve(ps, b) ==> msm::on_curve(unpacked_g1(packed_g1(ps)), b) && msm::pts(
            unpacked_g1(packed_g1(ps)),
        ) == msm::pts(ps),
{
    let records = ps.map_values(|x: Affine<Fp>| g1_record(x));
    let s = packed(records);
    lemma_packed_len(records, 64);
    let q = unpacked_g1(s);
    assert(q.len() == ps.len());
    if msm::on_curve(ps, b) {
        assert forall|i: int| 0 <= i < ps.len() implies (#[trigger] q[i]).wf() && q[i].pt()
            == ps[i].pt() by {
            lemma_packed(records, 64, i);
            let r = records[i];
            let k = 64 * i;
            let p = ps[i];
            assert(p.wf() && p.pt().on(b));
            assert(r == s.subrange(k, k + 64));
            assert(s.subrange(k, k + 32) =~= r.subrange(0, 32));
            assert(s.subrange(k + 32, k + 64) =~= r.subrange(32, 64));
            if p.infinity {
                Fp::constants_wf();
                assert(r.subrange(0, 32) =~= zeros(32));
                assert(r.subrange(32, 64) =~= zeros(32));
                lemma_zeros_read(s, k);
                lemma_zeros_read(s, k + 32);
            } else {
                assert(r.subrange(0, 32) =~= fp_record(p.x));
                assert(r.subrange(32, 64) =~= fp_record(p.y));
                lemma_fp_reads(s, k, p.x);
                lemma_fp_reads(s, k + 32, p.y);
                lemma_point_nonzero(p, b);
            }
        }
        assert(msm::on_curve(q, b)) by {
            assert forall|i: int| 0 <= i < q.len() implies (#[trigger] q[i]).wf() && q[i].pt().on(
                b,
            ) by {
                assert(ps[i].pt().on(b));
            }
        }
        assert(msm::pts(q) =~= msm::pts(ps));
    }
}

/// Points of a curve read back as the same points, whatever the coordinates of the identity.
#[verifier::spinoff_prover]
#[verifier::rlimit(60)]
pub proof fn lemma_g2_round_trip(ps: Seq<Affine<Fp2>>, b: Fp2)
    ensures
        packed_g2(ps).len() == 128 * ps.len(),
        unpacked_g2(packed_g2(ps)).len() == ps.len(),
        msm::on_curve(ps, b) ==> msm::on_curve(unpacked_g2(packed_g2(ps)), b) && msm::pts(
            unpacked_g2(packed_g2(ps)),
        ) == msm::pts(ps),
{
    let records = ps.map_values(|x: Affine<Fp2>| g2_record(x));
    let s = packed(records);
    lemma_packed_len(records, 128);
    let q = unpacked_g2(s);
    assert(q.len() == ps.len());
    if msm::on_curve(ps, b) {
        assert forall|i: int| 0 <= i < ps.len() implies (#[trigger] q[i]).wf() && q[i].pt()
            == ps[i].pt() by {
            lemma_packed(records, 128, i);
            let r = records[i];
            let k = 128 * i;
            let p = ps[i];
            assert(p.wf() && p.pt().on(b));
            assert(r == s.subrange(k, k + 128));
            assert(s.subrange(k, k + 32) =~= r.subrange(0, 32));
            assert(s.subrange(k + 32, k + 64) =~= r.subrange(32, 64));
            assert(s.subrange(k + 64, k + 96) =~= r.subrange(64, 96));
            assert(s.subrange(k + 96, k + 128) =~= r.subrange(96, 128));
            if p.infinity {
                Fp2::constants_wf();
                assert(r.subrange(0, 32) =~= zeros(32));
                assert(r.subrange(32, 64) =~= zeros(32));
                assert(r.subrange(64, 96) =~= zeros(32));
                assert(r.subrange(96, 128) =~= zeros(32));
                lemma_zeros_read(s, k);
                lemma_zeros_read(s, k + 32);
                lemma_zeros_read(s, k + 64);
                lemma_zeros_read(s, k + 96);
            } else {
                assert(r.subrange(0, 32) =~= fp_record(p.x.c0));
                assert(r.subrange(32, 64) =~= fp_record(p.x.c1));
                assert(r.subrange(64, 96) =~= fp_record(p.y.c0));
                assert(r.subrange(96, 128) =~= fp_record(p.y.c1));
                lemma_fp_reads(s, k, p.x.c0);
                lemma_fp_reads(s, k + 32, p.x.c1);
                lemma_fp_reads(s, k + 64, p.y.c0);
                lemma_fp_reads(s, k + 96, p.y.c1);
                lemma_point_nonzero(p, b);
            }
        }
        assert(msm::on_curve(q, b)) by {
            assert forall|i: int| 0 <= i < q.len() implies (#[trigger] q[i]).wf() && q[i].pt().on(
                b,
            ) by {
                assert(ps[i].pt().on(b));
            }
        }
        assert(msm::pts(q) =~= msm::pts(ps));
    }
}

} // verus!
