//! The snarkjs artifact formats a Groth16 prover consumes: the `zkey` (proving
//! key) and the `wtns` (witness). A zkey holds ten sections in ascending
//! order; points are little-endian Montgomery limbs, coefficient values are
//! `v·R²`, witness values are canonical.
//!
//! Every malformation is a distinct error: a prover must reject a bad
//! artifact with a reason, never produce something from it. The spec functions
//! below say which error a file has, and what a file without errors holds.

use vstd::arithmetic::div_mod::*;
use vstd::prelude::*;
use vstd::slice::slice_subrange;

use crate::bytes;
use crate::bytes::{limbs_at, limbs_bytes, u32_at, u64_at};
use crate::consts;
use crate::ec;
use crate::ec::{g1_b, g2_b, Affine, G1Affine, G2Affine};
use crate::field;
use crate::field::{Field, Fp, Fr};
use crate::fp2::Fp2;
use crate::limbs;
use crate::math::certificates;
use crate::math::dft;
use crate::math::ring;
use crate::math::ring::{FieldLaws, Ring};
use crate::msm;
use crate::ntt;
use crate::prover;
use crate::reading;
use crate::text;

verus! {

/// The verifying key embedded in the zkey header (section 2).
#[derive(Clone, Debug, PartialEq, Eq)]
pub struct VerifyingKey {
    /// α in G1.
    pub alpha_g1: G1Affine,
    /// β in G1 (used by the prover for π_B's G1 twin).
    pub beta_g1: G1Affine,
    /// β in G2.
    pub beta_g2: G2Affine,
    /// γ in G2.
    pub gamma_g2: G2Affine,
    /// δ in G1.
    pub delta_g1: G1Affine,
    /// δ in G2.
    pub delta_g2: G2Affine,
}

/// One entry of the zkey's coefficient section: `matrix ∈ {0 = A, 1 = B}`,
/// the constraint (row) index, the signal (witness) index, and the value.
#[derive(Clone, Copy, Debug, PartialEq, Eq)]
pub struct Coefficient {
    /// 0 for the A matrix, 1 for the B matrix.
    pub matrix: u32,
    /// Constraint index (a point of the evaluation domain).
    pub constraint: u32,
    /// Witness index.
    pub signal: u32,
    /// The coefficient as a field element (the file's `v·R²` decoded).
    pub value: Fr,
}

/// A parsed Groth16 zkey.
#[derive(Clone, Debug, PartialEq, Eq)]
pub struct Zkey {
    /// Number of witness values (`w[0] = 1` counted).
    pub num_vars: usize,
    /// Number of public inputs (`w[1..=num_public]`).
    pub num_public: usize,
    /// Size of the evaluation domain (a power of two).
    pub domain_size: usize,
    /// The verifying key.
    pub vk: VerifyingKey,
    /// The `IC` points (`num_public + 1` of them).
    pub ic: Vec<G1Affine>,
    /// The A/B coefficients, in file order (ascending constraint).
    pub coefficients: Vec<Coefficient>,
    /// Section 5: `num_vars` A-query points.
    pub a: Vec<G1Affine>,
    /// Section 6: `num_vars` B-query points in G1.
    pub b1: Vec<G1Affine>,
    /// Section 7: `num_vars` B-query points in G2.
    pub b2: Vec<G2Affine>,
    /// Section 8: `num_vars - num_public - 1` C-query points.
    pub c: Vec<G1Affine>,
    /// Section 9: `domain_size` H-query points.
    pub h: Vec<G1Affine>,
}

/// Why a zkey could not be parsed.
#[derive(Clone, Debug, PartialEq, Eq)]
pub enum ZkeyError {
    /// The file does not start with `zkey`.
    Magic,
    /// The file ends before a declared structure.
    Truncated {
        /// Byte offset at which more data was needed.
        at: usize,
    },
    /// The file does not declare exactly ten sections.
    SectionCount(u32),
    /// A section id is out of order.
    SectionOrder {
        /// The id expected next.
        expected: u32,
        /// The id found.
        found: u32,
    },
    /// The header names a protocol other than Groth16 (1).
    Protocol(u32),
    /// The header's field moduli or sizes do not match BN254 / 32 bytes.
    Curve,
    /// A section's byte length is not a multiple of its element size.
    SectionSize {
        /// Section id.
        section: u32,
    },
    /// A point is not on its curve, or has a coordinate that is not reduced.
    PointOffCurve {
        /// Section id.
        section: u32,
        /// Index within the section.
        index: usize,
    },
    /// The point counts disagree with the header.
    Inconsistent(&'static str),
    /// A coefficient value is not below the scalar modulus.
    CoefficientValue(usize),
}

impl ZkeyError {
    /// The message for a reader.
    pub open spec fn text(self) -> Seq<char> {
        match self {
            ZkeyError::Magic => "not a zkey file (bad magic)"@,
            ZkeyError::Truncated { at } => "zkey truncated at byte "@ + text::decimal_of(at as nat),
            ZkeyError::SectionCount(n) => "zkey has "@ + text::decimal_of(n as nat)
                + " sections, expected 10"@,
            ZkeyError::SectionOrder { expected, found } => "zkey section "@ + text::decimal_of(
                found as nat,
            ) + " found where "@ + text::decimal_of(expected as nat) + " was expected"@,
            ZkeyError::Protocol(p) => "zkey protocol "@ + text::decimal_of(p as nat)
                + " is not groth16 (1)"@,
            ZkeyError::Curve => "zkey is not over BN254 with 32-byte elements"@,
            ZkeyError::SectionSize { section } => "zkey section "@ + text::decimal_of(section as nat)
                + " has a size that is not a whole number of elements"@,
            ZkeyError::PointOffCurve { section, index } => "zkey section "@ + text::decimal_of(
                section as nat,
            ) + " point "@ + text::decimal_of(index as nat) + " is not on the curve"@,
            ZkeyError::Inconsistent(what) => "zkey is inconsistent: "@ + what@,
            ZkeyError::CoefficientValue(i) => "zkey coefficient "@ + text::decimal_of(i as nat)
                + " is not a field element"@,
        }
    }

    /// The message for a reader.
    pub fn message(&self) -> (r: String)
        ensures
            r@ == self.text(),
    {
        match self {
            ZkeyError::Magic => text::owned("not a zkey file (bad magic)"),
            ZkeyError::Truncated { at } => {
                let mut r = text::owned("zkey truncated at byte ");
                text::push_u64(&mut r, *at as u64);
                r
            },
            ZkeyError::SectionCount(n) => {
                let mut r = text::owned("zkey has ");
                text::push_u64(&mut r, *n as u64);
                text::push(&mut r, " sections, expected 10");
                r
            },
            ZkeyError::SectionOrder { expected, found } => {
                let mut r = text::owned("zkey section ");
                text::push_u64(&mut r, *found as u64);
                text::push(&mut r, " found where ");
                text::push_u64(&mut r, *expected as u64);
                text::push(&mut r, " was expected");
                r
            },
            ZkeyError::Protocol(p) => {
                let mut r = text::owned("zkey protocol ");
                text::push_u64(&mut r, *p as u64);
                text::push(&mut r, " is not groth16 (1)");
                r
            },
            ZkeyError::Curve => text::owned("zkey is not over BN254 with 32-byte elements"),
            ZkeyError::SectionSize { section } => {
                let mut r = text::owned("zkey section ");
                text::push_u64(&mut r, *section as u64);
                text::push(&mut r, " has a size that is not a whole number of elements");
                r
            },
            ZkeyError::PointOffCurve { section, index } => {
                let mut r = text::owned("zkey section ");
                text::push_u64(&mut r, *section as u64);
                text::push(&mut r, " point ");
                text::push_u64(&mut r, *index as u64);
                text::push(&mut r, " is not on the curve");
                r
            },
            ZkeyError::Inconsistent(what) => {
                let mut r = text::owned("zkey is inconsistent: ");
                text::push(&mut r, what);
                r
            },
            ZkeyError::CoefficientValue(i) => {
                let mut r = text::owned("zkey coefficient ");
                text::push_u64(&mut r, *i as u64);
                text::push(&mut r, " is not a field element");
                r
            },
        }
    }
}

/// The texts with spaces between them.
spec fn words(parts: Seq<Seq<char>>) -> Seq<char> {
    reading::joined(parts, ' ')
}

/// The numbers in the messages, read back word by word: where the file ends, the number of
/// sections, the section that was found and the one that was expected, the section and the index
/// of a point.
#[verifier::rlimit(40)]
pub proof fn lemma_messages_name_numbers(at: usize, n: u32, expected: u32, found: u32, index: usize)
    ensures
        ({
            let f = reading::fields(ZkeyError::Truncated { at }.text(), ' ');
            f.len() == 5 && reading::numerals(f[4]) && reading::number(f[4]) == at
        }),
        ({
            let f = reading::fields(ZkeyError::SectionCount(n).text(), ' ');
            f.len() == 6 && reading::numerals(f[2]) && reading::number(f[2]) == n
        }),
        ({
            let f = reading::fields(ZkeyError::SectionOrder { expected, found }.text(), ' ');
            &&& f.len() == 8
            &&& reading::numerals(f[2]) && reading::number(f[2]) == found && f[3] == "found"@
            &&& reading::numerals(f[5]) && reading::number(f[5]) == expected && f[7]
                == "expected"@
        }),
        ({
            let f = reading::fields(
                ZkeyError::PointOffCurve { section: n, index }.text(),
                ' ',
            );
            &&& f.len() == 10
            &&& f[1] == "section"@ && reading::numerals(f[2]) && reading::number(f[2]) == n
            &&& f[3] == "point"@ && reading::numerals(f[4]) && reading::number(f[4]) == index
        }),
{
    let (a, b) = (text::decimal_of(at as nat), text::decimal_of(n as nat));
    let (c, d) = (text::decimal_of(expected as nat), text::decimal_of(found as nat));
    let e = text::decimal_of(index as nat);
    reading::lemma_decimal(at as nat);
    reading::lemma_decimal(n as nat);
    reading::lemma_decimal(expected as nat);
    reading::lemma_decimal(found as nat);
    reading::lemma_decimal(index as nat);
    reading::lemma_decimal_free(at as nat);
    reading::lemma_decimal_free(n as nat);
    reading::lemma_decimal_free(expected as nat);
    reading::lemma_decimal_free(found as nat);
    reading::lemma_decimal_free(index as nat);
    lemma_words_free();
    let w0 = seq!["zkey"@, "truncated"@, "at"@, "byte"@, a];
    let w1 = seq!["zkey"@, "has"@, b, "sections,"@, "expected"@, "10"@];
    let w2 = seq!["zkey"@, "section"@, d, "found"@, "where"@, c, "was"@, "expected"@];
    let w3 = seq![
        "zkey"@,
        "section"@,
        b,
        "point"@,
        e,
        "is"@,
        "not"@,
        "on"@,
        "the"@,
        "curve"@,
    ];
    reading::lemma_joined(w0, ' ');
    reading::lemma_joined(w1, ' ');
    reading::lemma_joined(w2, ' ');
    reading::lemma_joined(w3, ' ');
    lemma_spelled_messages(a, b, c, d, e);
}

/// The words of the messages have no spaces in them.
proof fn lemma_words_free()
    ensures
        reading::free("zkey"@, ' '),
        reading::free("truncated"@, ' '),
        reading::free("at"@, ' '),
        reading::free("byte"@, ' '),
        reading::free("has"@, ' '),
        reading::free("sections,"@, ' '),
        reading::free("expected"@, ' '),
        reading::free("10"@, ' '),
        reading::free("section"@, ' '),
        reading::free("found"@, ' '),
        reading::free("where"@, ' '),
        reading::free("was"@, ' '),
        reading::free("point"@, ' '),
        reading::free("is"@, ' '),
        reading::free("not"@, ' '),
        reading::free("on"@, ' '),
        reading::free("the"@, ' '),
        reading::free("curve"@, ' '),
{
    reveal_strlit("zkey");
    reveal_strlit("truncated");
    reveal_strlit("at");
    reveal_strlit("byte");
    reveal_strlit("has");
    reveal_strlit("sections,");
    reveal_strlit("expected");
    reveal_strlit("10");
    reveal_strlit("section");
    reveal_strlit("found");
    reveal_strlit("where");
    reveal_strlit("was");
    reveal_strlit("point");
    reveal_strlit("is");
    reveal_strlit("not");
    reveal_strlit("on");
    reveal_strlit("the");
    reveal_strlit("curve");
}

/// The messages as their words.
#[verifier::rlimit(60)]
proof fn lemma_spelled_messages(
    a: Seq<char>,
    b: Seq<char>,
    c: Seq<char>,
    d: Seq<char>,
    e: Seq<char>,
)
    ensures
        "zkey truncated at byte "@ + a == words(seq!["zkey"@, "truncated"@, "at"@, "byte"@, a]),
        "zkey has "@ + b + " sections, expected 10"@ == words(
            seq!["zkey"@, "has"@, b, "sections,"@, "expected"@, "10"@],
        ),
        "zkey section "@ + d + " found where "@ + c + " was expected"@ == words(
            seq!["zkey"@, "section"@, d, "found"@, "where"@, c, "was"@, "expected"@],
        ),
        "zkey section "@ + b + " point "@ + e + " is not on the curve"@ == words(
            seq![
                "zkey"@,
                "section"@,
                b,
                "point"@,
                e,
                "is"@,
                "not"@,
                "on"@,
                "the"@,
                "curve"@,
            ],
        ),
{
    reveal_strlit("zkey");
    reveal_strlit("truncated");
    reveal_strlit("at");
    reveal_strlit("byte");
    reveal_strlit("has");
    reveal_strlit("sections,");
    reveal_strlit("expected");
    reveal_strlit("10");
    reveal_strlit("section");
    reveal_strlit("found");
    reveal_strlit("where");
    reveal_strlit("was");
    reveal_strlit("point");
    reveal_strlit("is");
    reveal_strlit("not");
    reveal_strlit("on");
    reveal_strlit("the");
    reveal_strlit("curve");
    reveal_strlit("zkey truncated at byte ");
    reveal_strlit("zkey has ");
    reveal_strlit(" sections, expected 10");
    reveal_strlit("zkey section ");
    reveal_strlit(" found where ");
    reveal_strlit(" was expected");
    reveal_strlit(" point ");
    reveal_strlit(" is not on the curve");
    let z = seq!["zkey"@];
    assert(words(z) == "zkey"@);
    // zkey truncated at byte a
    reading::lemma_joined_push(z, "truncated"@, ' ');
    let z1 = z.push("truncated"@);
    reading::lemma_joined_push(z1, "at"@, ' ');
    let z2 = z1.push("at"@);
    reading::lemma_joined_push(z2, "byte"@, ' ');
    let z3 = z2.push("byte"@);
    reading::lemma_joined_push(z3, a, ' ');
    assert(words(z3).push(' ') =~= "zkey truncated at byte "@);
    assert(z3.push(a) =~= seq!["zkey"@, "truncated"@, "at"@, "byte"@, a]);
    // zkey has b sections, expected 10
    reading::lemma_joined_push(z, "has"@, ' ');
    let y1 = z.push("has"@);
    reading::lemma_joined_push(y1, b, ' ');
    let y2 = y1.push(b);
    reading::lemma_joined_push(y2, "sections,"@, ' ');
    let y3 = y2.push("sections,"@);
    reading::lemma_joined_push(y3, "expected"@, ' ');
    let y4 = y3.push("expected"@);
    reading::lemma_joined_push(y4, "10"@, ' ');
    assert(words(y1).push(' ') =~= "zkey has "@);
    assert(words(y4).push(' ') + "10"@ =~= words(y2) + " sections, expected 10"@);
    assert(y4.push("10"@) =~= seq!["zkey"@, "has"@, b, "sections,"@, "expected"@, "10"@]);
    // zkey section d found where c was expected
    reading::lemma_joined_push(z, "section"@, ' ');
    let x1 = z.push("section"@);
    assert(words(x1).push(' ') =~= "zkey section "@);
    reading::lemma_joined_push(x1, d, ' ');
    let x2 = x1.push(d);
    reading::lemma_joined_push(x2, "found"@, ' ');
    let x3 = x2.push("found"@);
    reading::lemma_joined_push(x3, "where"@, ' ');
    let x4 = x3.push("where"@);
    reading::lemma_joined_push(x4, c, ' ');
    let x5 = x4.push(c);
    reading::lemma_joined_push(x5, "was"@, ' ');
    let x6 = x5.push("was"@);
    reading::lemma_joined_push(x6, "expected"@, ' ');
    assert(words(x4).push(' ') =~= words(x2) + " found where "@);
    assert(words(x6).push(' ') + "expected"@ =~= words(x5) + " was expected"@);
    assert(x6.push("expected"@) =~= seq![
        "zkey"@,
        "section"@,
        d,
        "found"@,
        "where"@,
        c,
        "was"@,
        "expected"@,
    ]);
    // zkey section b point e is not on the curve
    reading::lemma_joined_push(x1, b, ' ');
    let v2 = x1.push(b);
    reading::lemma_joined_push(v2, "point"@, ' ');
    let v3 = v2.push("point"@);
    reading::lemma_joined_push(v3, e, ' ');
    let v4 = v3.push(e);
    reading::lemma_joined_push(v4, "is"@, ' ');
    let v5 = v4.push("is"@);
    reading::lemma_joined_push(v5, "not"@, ' ');
    let v6 = v5.push("not"@);
    reading::lemma_joined_push(v6, "on"@, ' ');
    let v7 = v6.push("on"@);
    reading::lemma_joined_push(v7, "the"@, ' ');
    let v8 = v7.push("the"@);
    reading::lemma_joined_push(v8, "curve"@, ' ');
    assert(words(v3).push(' ') =~= words(v2) + " point "@);
    assert(words(v8).push(' ') + "curve"@ =~= words(v4) + " is not on the curve"@);
    assert(v8.push("curve"@) =~= seq![
        "zkey"@,
        "section"@,
        b,
        "point"@,
        e,
        "is"@,
        "not"@,
        "on"@,
        "the"@,
        "curve"@,
    ]);
}

// ---- what a file means ---------------------------------------------------------------------

/// The integer in the four bytes at `off`.
pub open spec fn word(s: Seq<u8>, off: int) -> int {
    bytes::le(s.subrange(off, off + 4))
}

/// The integer in the eight bytes at `off`.
pub open spec fn long(s: Seq<u8>, off: int) -> int {
    bytes::le(s.subrange(off, off + 8))
}

/// The base-field element whose Montgomery limbs are the 32 bytes at `off`.
pub open spec fn fp_raw(s: Seq<u8>, off: int) -> Fp {
    Fp::of_raw(bytes::le(s.subrange(off, off + 32)))
}

/// The G1 point in the 64 bytes at `off`; all zeros is the identity.
pub open spec fn g1_at(s: Seq<u8>, off: int) -> G1Affine {
    let (x, y) = (fp_raw(s, off), fp_raw(s, off + 32));
    if x == Fp::zero_spec() && y == Fp::zero_spec() {
        Affine::infinity_spec()
    } else {
        Affine { x, y, infinity: false }
    }
}

/// The G2 point in the 128 bytes at `off`: `x.c0, x.c1, y.c0, y.c1`.
pub open spec fn g2_at(s: Seq<u8>, off: int) -> G2Affine {
    let x = Fp2 { c0: fp_raw(s, off), c1: fp_raw(s, off + 32) };
    let y = Fp2 { c0: fp_raw(s, off + 64), c1: fp_raw(s, off + 96) };
    if x == Fp2::zero_spec() && y == Fp2::zero_spec() {
        Affine::infinity_spec()
    } else {
        Affine { x, y, infinity: false }
    }
}

/// The point has reduced coordinates and is on its curve.
pub open spec fn lies<F: Field>(p: Affine<F>, b: F) -> bool {
    p.wf() && p.pt().on(b)
}

/// The earlier of two errors.
pub open spec fn first<E>(a: Option<E>, b: Option<E>) -> Option<E> {
    if a is Some {
        a
    } else {
        b
    }
}

/// The four bytes `zkey`.
pub open spec fn zkey_magic() -> Seq<u8> {
    seq![0x7au8, 0x6b, 0x65, 0x79]
}

/// Where the payload of section `k` begins in a well-framed file.
pub open spec fn section_start(s: Seq<u8>, k: int) -> int
    decreases k,
{
    if k <= 1 {
        24
    } else {
        section_start(s, k - 1) + long(s, section_start(s, k - 1) - 8) + 12
    }
}

/// The payload of section `k`.
pub open spec fn section(s: Seq<u8>, k: int) -> Seq<u8> {
    s.subrange(section_start(s, k), section_start(s, k) + long(s, section_start(s, k) - 8))
}

/// The first framing error among the sections `1..=k`.
pub open spec fn frames_error(s: Seq<u8>, k: int) -> Option<ZkeyError>
    decreases k,
{
    if k <= 0 {
        None
    } else {
        first(frames_error(s, k - 1), frame_error(s, k))
    }
}

/// The framing error of section `k`, which is found after the sections before it.
pub open spec fn frame_error(s: Seq<u8>, k: int) -> Option<ZkeyError> {
    let at = section_start(s, k) - 12;
    if at + 4 > s.len() {
        Some(ZkeyError::Truncated { at: at as usize })
    } else if word(s, at) != k {
        Some(ZkeyError::SectionOrder { expected: k as u32, found: word(s, at) as u32 })
    } else if at + 12 > s.len() {
        Some(ZkeyError::Truncated { at: (at + 4) as usize })
    } else if at + 12 + long(s, at + 4) > s.len() {
        Some(ZkeyError::Truncated { at: (at + 12) as usize })
    } else {
        None
    }
}

/// Errors before the sections.
pub open spec fn preamble_error(s: Seq<u8>) -> Option<ZkeyError> {
    if s.len() < 4 {
        Some(ZkeyError::Truncated { at: 0 })
    } else if s.subrange(0, 4) != zkey_magic() {
        Some(ZkeyError::Magic)
    } else if s.len() < 8 {
        Some(ZkeyError::Truncated { at: 4 })
    } else if s.len() < 12 {
        Some(ZkeyError::Truncated { at: 8 })
    } else if word(s, 8) != 10 {
        Some(ZkeyError::SectionCount(word(s, 8) as u32))
    } else {
        None
    }
}

/// Errors in section 1, the protocol id.
pub open spec fn protocol_error(s: Seq<u8>) -> Option<ZkeyError> {
    if s.len() < 4 {
        Some(ZkeyError::Truncated { at: 0 })
    } else if word(s, 0) != 1 {
        Some(ZkeyError::Protocol(word(s, 0) as u32))
    } else {
        None
    }
}

/// Errors in the moduli that section 2 begins with.
pub open spec fn moduli_error(s: Seq<u8>) -> Option<ZkeyError> {
    let n = word(s, 0);
    let m = word(s, 4 + n);
    if s.len() < 4 {
        Some(ZkeyError::Truncated { at: 0 })
    } else if s.len() < 4 + n {
        Some(ZkeyError::Truncated { at: 4 })
    } else if s.len() < 8 + n {
        Some(ZkeyError::Truncated { at: (4 + n) as usize })
    } else if s.len() < 8 + n + m {
        Some(ZkeyError::Truncated { at: (8 + n) as usize })
    } else if n != 32 || m != 32 || bytes::le(s.subrange(4, 36)) != certificates::q() || bytes::le(
        s.subrange(40, 72),
    ) != certificates::r() {
        Some(ZkeyError::Curve)
    } else {
        None
    }
}

/// Where the fields of section 2 stand, after the moduli.
pub open spec fn sizes_error(s: Seq<u8>) -> Option<ZkeyError> {
    if s.len() < 76 {
        Some(ZkeyError::Truncated { at: 72 })
    } else if s.len() < 80 {
        Some(ZkeyError::Truncated { at: 76 })
    } else if s.len() < 84 {
        Some(ZkeyError::Truncated { at: 80 })
    } else {
        None
    }
}

/// The error of a header point in G1.
pub open spec fn header_g1_error(s: Seq<u8>, off: int) -> Option<ZkeyError> {
    if s.len() < off + 64 {
        Some(ZkeyError::Truncated { at: off as usize })
    } else if !lies(g1_at(s, off), ec::g1_b_spec()) {
        Some(ZkeyError::PointOffCurve { section: 2, index: 0 })
    } else {
        None
    }
}

/// The error of a header point in G2.
pub open spec fn header_g2_error(s: Seq<u8>, off: int) -> Option<ZkeyError> {
    if s.len() < off + 128 {
        Some(ZkeyError::Truncated { at: off as usize })
    } else if !lies(g2_at(s, off), ec::g2_b_spec()) {
        Some(ZkeyError::PointOffCurve { section: 2, index: 0 })
    } else {
        None
    }
}

/// The errors of the verifying key.
pub open spec fn key_error(s: Seq<u8>) -> Option<ZkeyError> {
    first(
        header_g1_error(s, 84),
        first(
            header_g1_error(s, 148),
            first(
                header_g2_error(s, 212),
                first(
                    header_g2_error(s, 340),
                    first(header_g1_error(s, 468), header_g2_error(s, 532)),
                ),
            ),
        ),
    )
}

/// The error of sizes that cannot belong together.
pub open spec fn dimensions_error(s: Seq<u8>) -> Option<ZkeyError> {
    if !dft::power_of_two(word(s, 80) as nat) || word(s, 76) + 1 > word(s, 72) {
        Some(ZkeyError::Inconsistent("header sizes"))
    } else {
        None
    }
}

/// The errors of section 2.
pub open spec fn header_error(s: Seq<u8>) -> Option<ZkeyError> {
    first(
        moduli_error(s),
        first(sizes_error(s), first(key_error(s), dimensions_error(s))),
    )
}

/// The verifying key of section 2.
pub open spec fn key_of(s: Seq<u8>) -> VerifyingKey {
    VerifyingKey {
        alpha_g1: g1_at(s, 84),
        beta_g1: g1_at(s, 148),
        beta_g2: g2_at(s, 212),
        gamma_g2: g2_at(s, 340),
        delta_g1: g1_at(s, 468),
        delta_g2: g2_at(s, 532),
    }
}

/// The first error among the first `n` G1 points of a section.
pub open spec fn g1_points_error(s: Seq<u8>, id: u32, n: int) -> Option<ZkeyError>
    decreases n,
{
    if n <= 0 {
        None
    } else {
        first(
            g1_points_error(s, id, n - 1),
            if lies(g1_at(s, 64 * (n - 1)), ec::g1_b_spec()) {
                None
            } else {
                Some(ZkeyError::PointOffCurve { section: id, index: (n - 1) as usize })
            },
        )
    }
}

/// The first error among the first `n` G2 points of a section.
pub open spec fn g2_points_error(s: Seq<u8>, id: u32, n: int) -> Option<ZkeyError>
    decreases n,
{
    if n <= 0 {
        None
    } else {
        first(
            g2_points_error(s, id, n - 1),
            if lies(g2_at(s, 128 * (n - 1)), ec::g2_b_spec()) {
                None
            } else {
                Some(ZkeyError::PointOffCurve { section: id, index: (n - 1) as usize })
            },
        )
    }
}

/// The error of a section of G1 points.
pub open spec fn g1_section_error(s: Seq<u8>, id: u32) -> Option<ZkeyError> {
    if s.len() % 64 != 0 {
        Some(ZkeyError::SectionSize { section: id })
    } else {
        g1_points_error(s, id, s.len() as int / 64)
    }
}

/// The error of a section of G2 points.
pub open spec fn g2_section_error(s: Seq<u8>, id: u32) -> Option<ZkeyError> {
    if s.len() % 128 != 0 {
        Some(ZkeyError::SectionSize { section: id })
    } else {
        g2_points_error(s, id, s.len() as int / 128)
    }
}

/// The G1 points of a section.
pub open spec fn g1_points(s: Seq<u8>) -> Seq<G1Affine> {
    Seq::new(s.len() / 64, |i: int| g1_at(s, 64 * i))
}

/// The G2 points of a section.
pub open spec fn g2_points(s: Seq<u8>) -> Seq<G2Affine> {
    Seq::new(s.len() / 128, |i: int| g2_at(s, 128 * i))
}

/// The error of a count that disagrees with the header.
pub open spec fn count_error(agrees: bool, what: &'static str) -> Option<ZkeyError> {
    if agrees {
        None
    } else {
        Some(ZkeyError::Inconsistent(what))
    }
}

/// The value at `off` as stored, `v·R²`.
pub open spec fn stored_value(s: Seq<u8>, off: int) -> int {
    bytes::le(s.subrange(off, off + 32))
}

/// The field element `v` that is stored as `v·R²` at `off`.
pub open spec fn value_at(s: Seq<u8>, off: int) -> Fr {
    Fr::of_raw(stored_value(s, off)) * Fr::of_raw(1)
}

/// Coefficient `i` of section 4: the count, then records of 44 bytes.
pub open spec fn coefficient_at(s: Seq<u8>, i: int) -> Coefficient {
    let off = 4 + 44 * i;
    Coefficient {
        matrix: word(s, off) as u32,
        constraint: word(s, off + 4) as u32,
        signal: word(s, off + 8) as u32,
        value: value_at(s, off + 12),
    }
}

/// The error of coefficient `i`, which comes at the constraint of the one before or later.
pub open spec fn coefficient_error(s: Seq<u8>, i: int, vars: int, domain: int) -> Option<
    ZkeyError,
> {
    let off = 4 + 44 * i;
    if stored_value(s, off + 12) >= certificates::r() {
        Some(ZkeyError::CoefficientValue(i as usize))
    } else if word(s, off) > 1 || word(s, off + 4) >= domain || word(s, off + 8) >= vars {
        Some(ZkeyError::Inconsistent("coefficient indices"))
    } else if i > 0 && word(s, off + 4) < word(s, off - 40) {
        Some(ZkeyError::Inconsistent("coefficient order"))
    } else {
        None
    }
}

/// The first error among the first `n` coefficients.
pub open spec fn coefficients_error(s: Seq<u8>, n: int, vars: int, domain: int) -> Option<ZkeyError>
    decreases n,
{
    if n <= 0 {
        None
    } else {
        first(
            coefficients_error(s, n - 1, vars, domain),
            coefficient_error(s, n - 1, vars, domain),
        )
    }
}

/// The error of section 4.
pub open spec fn coefficient_section_error(s: Seq<u8>, vars: int, domain: int) -> Option<ZkeyError> {
    if s.len() < 4 {
        Some(ZkeyError::Truncated { at: 0 })
    } else if s.len() != 4 + 44 * word(s, 0) {
        Some(ZkeyError::SectionSize { section: 4 })
    } else {
        coefficients_error(s, word(s, 0), vars, domain)
    }
}

/// The errors inside the query sections.
pub open spec fn query_points_error(
    a: Seq<u8>,
    b1: Seq<u8>,
    b2: Seq<u8>,
    c: Seq<u8>,
    h: Seq<u8>,
) -> Option<ZkeyError> {
    first(
        g1_section_error(a, 5),
        first(
            g1_section_error(b1, 6),
            first(
                g2_section_error(b2, 7),
                first(g1_section_error(c, 8), g1_section_error(h, 9)),
            ),
        ),
    )
}

/// The errors of the query counts.
pub open spec fn query_counts_error(
    a: int,
    b1: int,
    b2: int,
    c: int,
    h: int,
    vars: int,
    public: int,
    domain: int,
) -> Option<ZkeyError> {
    first(
        count_error(a == vars && b1 == vars && b2 == vars, "A/B query counts"),
        first(
            count_error(c == vars - public - 1, "C query count"),
            count_error(h == domain, "H query count"),
        ),
    )
}

/// The error of the query sections and their counts.
pub open spec fn queries_error(s: Seq<u8>, vars: int, public: int, domain: int) -> Option<
    ZkeyError,
> {
    let (a, b1, b2, c, h) = (
        section(s, 5),
        section(s, 6),
        section(s, 7),
        section(s, 8),
        section(s, 9),
    );
    first(
        query_points_error(a, b1, b2, c, h),
        query_counts_error(
            a.len() as int / 64,
            b1.len() as int / 64,
            b2.len() as int / 128,
            c.len() as int / 64,
            h.len() as int / 64,
            vars,
            public,
            domain,
        ),
    )
}

/// The errors of the sections between the header and the queries.
pub open spec fn middle_error(ic: Seq<u8>, coefficients: Seq<u8>, vars: int, public: int, domain: int) -> Option<
    ZkeyError,
> {
    first(
        g1_section_error(ic, 3),
        first(
            count_error(ic.len() as int / 64 == public + 1, "IC count"),
            coefficient_section_error(coefficients, vars, domain),
        ),
    )
}

/// The first error of a zkey file, in the order in which a reader meets them.
pub open spec fn zkey_error(s: Seq<u8>) -> Option<ZkeyError> {
    let header = section(s, 2);
    let (vars, public, domain) = (word(header, 72), word(header, 76), word(header, 80));
    first(
        preamble_error(s),
        first(
            frames_error(s, 10),
            first(
                protocol_error(section(s, 1)),
                first(
                    header_error(header),
                    first(
                        middle_error(section(s, 3), section(s, 4), vars, public, domain),
                        queries_error(s, vars, public, domain),
                    ),
                ),
            ),
        ),
    )
}

impl Zkey {
    /// The key holds what the file says.
    pub open spec fn holds(self, s: Seq<u8>) -> bool {
        let header = section(s, 2);
        &&& self.num_vars == word(header, 72)
        &&& self.num_public == word(header, 76)
        &&& self.domain_size == word(header, 80)
        &&& self.vk == key_of(header)
        &&& self.ic@ == g1_points(section(s, 3))
        &&& self.coefficients@ == Seq::new(
            word(section(s, 4), 0) as nat,
            |i: int| coefficient_at(section(s, 4), i),
        )
        &&& self.a@ == g1_points(section(s, 5))
        &&& self.b1@ == g1_points(section(s, 6))
        &&& self.b2@ == g2_points(section(s, 7))
        &&& self.c@ == g1_points(section(s, 8))
        &&& self.h@ == g1_points(section(s, 9))
    }

    /// Every point has reduced coordinates and is on its curve, and every coefficient is reduced.
    pub open spec fn reduced(self) -> bool {
        &&& prover::key_reduced(self)
        &&& prover::g2_point(self.vk.gamma_g2)
        &&& msm::on_curve(self.ic@, ec::g1_b_spec())
    }

    /// The sizes belong together, and every coefficient names a constraint and a signal.
    pub open spec fn consistent(self) -> bool {
        &&& dft::power_of_two(self.domain_size as nat)
        &&& self.num_public + 1 <= self.num_vars
        &&& self.num_vars <= u32::MAX
        &&& self.domain_size <= u32::MAX
        &&& self.coefficients@.len() <= u32::MAX
        &&& self.ic@.len() == self.num_public + 1
        &&& self.a@.len() == self.num_vars
        &&& self.b1@.len() == self.num_vars
        &&& self.b2@.len() == self.num_vars
        &&& self.c@.len() == self.num_vars - self.num_public - 1
        &&& self.h@.len() == self.domain_size
        &&& forall|i: int|
            0 <= i < self.coefficients@.len() ==> (#[trigger] self.coefficients@[i]).matrix <= 1
                && self.coefficients@[i].constraint < self.domain_size
                && self.coefficients@[i].signal < self.num_vars
    }
}

// ---- reading -------------------------------------------------------------------------------

struct Reader<'a> {
    bytes: &'a [u8],
    pos: usize,
}

impl<'a> Reader<'a> {
    fn take(&mut self, n: usize) -> (r: Result<&'a [u8], ZkeyError>)
        requires
            old(self).pos <= old(self).bytes@.len(),
        ensures
            final(self).bytes == old(self).bytes,
            match r {
                Ok(s) => {
                    &&& old(self).pos + n <= old(self).bytes@.len()
                    &&& final(self).pos == old(self).pos + n
                    &&& s@ == old(self).bytes@.subrange(old(self).pos as int, old(self).pos + n)
                },
                Err(e) => {
                    &&& old(self).pos + n > old(self).bytes@.len()
                    &&& e == (ZkeyError::Truncated { at: old(self).pos })
                },
            },
    {
        if n > self.bytes.len() - self.pos {
            return Err(ZkeyError::Truncated { at: self.pos });
        }
        let end = self.pos + n;
        let s = slice_subrange(self.bytes, self.pos, end);
        self.pos = end;
        Ok(s)
    }

    fn u32(&mut self) -> (r: Result<u32, ZkeyError>)
        requires
            old(self).pos <= old(self).bytes@.len(),
        ensures
            final(self).bytes == old(self).bytes,
            match r {
                Ok(x) => {
                    &&& old(self).pos + 4 <= old(self).bytes@.len()
                    &&& final(self).pos == old(self).pos + 4
                    &&& x == word(old(self).bytes@, old(self).pos as int)
                },
                Err(e) => {
                    &&& old(self).pos + 4 > old(self).bytes@.len()
                    &&& e == (ZkeyError::Truncated { at: old(self).pos })
                },
            },
    {
        let b = self.take(4)?;
        proof {
            assert(b@.subrange(0, 4) =~= b@);
        }
        Ok(u32_at(b, 0))
    }

    fn u64(&mut self) -> (r: Result<u64, ZkeyError>)
        requires
            old(self).pos <= old(self).bytes@.len(),
        ensures
            final(self).bytes == old(self).bytes,
            match r {
                Ok(x) => {
                    &&& old(self).pos + 8 <= old(self).bytes@.len()
                    &&& final(self).pos == old(self).pos + 8
                    &&& x == long(old(self).bytes@, old(self).pos as int)
                },
                Err(e) => {
                    &&& old(self).pos + 8 > old(self).bytes@.len()
                    &&& e == (ZkeyError::Truncated { at: old(self).pos })
                },
            },
    {
        let b = self.take(8)?;
        proof {
            assert(b@.subrange(0, 8) =~= b@);
        }
        Ok(u64_at(b, 0))
    }
}

/// Whether two byte strings are equal.
fn same_bytes(a: &[u8], b: &[u8]) -> (r: bool)
    ensures
        r == (a@ == b@),
{
    if a.len() != b.len() {
        return false;
    }
    let mut i: usize = 0;
    while i < a.len()
        invariant
            i <= a@.len(),
            a@.len() == b@.len(),
            forall|j: int| 0 <= j < i ==> a@[j] == b@[j],
        decreases a@.len() - i,
    {
        if a[i] != b[i] {
            return false;
        }
        i = i + 1;
    }
    assert(a@ =~= b@);
    true
}

/// Decode a G1 point stored as two Montgomery-form coordinates (64 bytes).
pub fn g1_from_montgomery_bytes(b: &[u8]) -> (r: G1Affine)
    requires
        b@.len() >= 64,
    ensures
        r == g1_at(b@, 0),
{
    let x = Fp::from_montgomery_limbs(limbs_at(b, 0));
    let y = Fp::from_montgomery_limbs(limbs_at(b, 32));
    proof {
        Fp::lemma_raw(x);
        Fp::lemma_raw(y);
    }
    if x.is_zero() && y.is_zero() {
        Affine::infinity()
    } else {
        Affine::new(x, y)
    }
}

/// Decode a G2 point stored as four Montgomery-form coordinates (128 bytes):
/// `x.c0, x.c1, y.c0, y.c1`.
pub fn g2_from_montgomery_bytes(b: &[u8]) -> (r: G2Affine)
    requires
        b@.len() >= 128,
    ensures
        r == g2_at(b@, 0),
{
    let x = Fp2::new(
        Fp::from_montgomery_limbs(limbs_at(b, 0)),
        Fp::from_montgomery_limbs(limbs_at(b, 32)),
    );
    let y = Fp2::new(
        Fp::from_montgomery_limbs(limbs_at(b, 64)),
        Fp::from_montgomery_limbs(limbs_at(b, 96)),
    );
    proof {
        Fp::lemma_raw(x.c0);
        Fp::lemma_raw(x.c1);
        Fp::lemma_raw(y.c0);
        Fp::lemma_raw(y.c1);
    }
    if x.is_zero() && y.is_zero() {
        Affine::infinity()
    } else {
        Affine::new(x, y)
    }
}

/// Whether a coordinate is reduced.
fn reduced(x: &Fp) -> (r: bool)
    ensures
        r == x.wf(),
{
    proof {
        field::lemma_fp_modulus();
    }
    let modulus = consts::FP_MODULUS;
    !limbs::geq(&x.montgomery_limbs(), &modulus)
}

/// Whether a point has reduced coordinates and is on the G1 curve.
fn g1_lies(p: &G1Affine) -> (r: bool)
    ensures
        r == lies(*p, ec::g1_b_spec()),
{
    reduced(&p.x) && reduced(&p.y) && p.is_on_curve(&g1_b())
}

/// Whether a point has reduced coordinates and is on the G2 curve.
fn g2_lies(p: &G2Affine) -> (r: bool)
    ensures
        r == lies(*p, ec::g2_b_spec()),
{
    reduced(&p.x.c0) && reduced(&p.x.c1) && reduced(&p.y.c0) && reduced(&p.y.c1)
        && p.is_on_curve(&g2_b())
}

/// A point read from a part of a section.
proof fn lemma_g1_part(s: Seq<u8>, off: int)
    requires
        0 <= off,
        off + 64 <= s.len(),
    ensures
        g1_at(s.subrange(off, off + 64), 0) == g1_at(s, off),
{
    let t = s.subrange(off, off + 64);
    assert(t.subrange(0, 32) =~= s.subrange(off, off + 32));
    assert(t.subrange(32, 64) =~= s.subrange(off + 32, off + 64));
}

/// A point read from a part of a section.
proof fn lemma_g2_part(s: Seq<u8>, off: int)
    requires
        0 <= off,
        off + 128 <= s.len(),
    ensures
        g2_at(s.subrange(off, off + 128), 0) == g2_at(s, off),
{
    let t = s.subrange(off, off + 128);
    assert(t.subrange(0, 32) =~= s.subrange(off, off + 32));
    assert(t.subrange(32, 64) =~= s.subrange(off + 32, off + 64));
    assert(t.subrange(64, 96) =~= s.subrange(off + 64, off + 96));
    assert(t.subrange(96, 128) =~= s.subrange(off + 96, off + 128));
}

/// Point `index` of a section.
fn g1_point_at(data: &[u8], index: usize) -> (p: G1Affine)
    requires
        64 * index + 64 <= data@.len(),
    ensures
        p == g1_at(data@, 64 * index),
{
    let len = data.len();
    let chunk = slice_subrange(data, index * 64, index * 64 + 64);
    proof {
        lemma_g1_part(data@, 64 * index);
    }
    g1_from_montgomery_bytes(chunk)
}

fn read_g1_points(section: u32, data: &[u8]) -> (r: Result<Vec<G1Affine>, ZkeyError>)
    ensures
        match r {
            Ok(v) => g1_section_error(data@, section) is None && v@ == g1_points(data@),
            Err(e) => g1_section_error(data@, section) == Some(e),
        },
{
    let elem: usize = 64;
    if data.len() % elem != 0 {
        return Err(ZkeyError::SectionSize { section });
    }
    let n = data.len() / elem;
    let mut out: Vec<G1Affine> = Vec::with_capacity(n);
    let mut index: usize = 0;
    while index < n
        invariant
            index <= n,
            n * 64 == data@.len(),
            out@.len() == index,
            g1_points_error(data@, section, index as int) is None,
            forall|i: int| 0 <= i < index ==> #[trigger] out@[i] == g1_at(data@, 64 * i),
        decreases n - index,
    {
        let p = g1_point_at(data, index);
        if !g1_lies(&p) {
            proof {
                lemma_g1_error_stays(data@, section, index + 1, n as int);
            }
            return Err(ZkeyError::PointOffCurve { section, index });
        }
        out.push(p);
        index = index + 1;
    }
    proof {
        assert(out@ =~= g1_points(data@));
    }
    Ok(out)
}

proof fn lemma_g1_error_stays(s: Seq<u8>, id: u32, k: int, n: int)
    requires
        k <= n,
        g1_points_error(s, id, k) is Some,
    ensures
        g1_points_error(s, id, n) == g1_points_error(s, id, k),
    decreases n - k,
{
    if k < n {
        lemma_g1_error_stays(s, id, k, n - 1);
    }
}

/// Point `index` of a section.
fn g2_point_at(data: &[u8], index: usize) -> (p: G2Affine)
    requires
        128 * index + 128 <= data@.len(),
    ensures
        p == g2_at(data@, 128 * index),
{
    let len = data.len();
    let chunk = slice_subrange(data, index * 128, index * 128 + 128);
    proof {
        lemma_g2_part(data@, 128 * index);
    }
    g2_from_montgomery_bytes(chunk)
}

fn read_g2_points(section: u32, data: &[u8]) -> (r: Result<Vec<G2Affine>, ZkeyError>)
    ensures
        match r {
            Ok(v) => g2_section_error(data@, section) is None && v@ == g2_points(data@),
            Err(e) => g2_section_error(data@, section) == Some(e),
        },
{
    let elem: usize = 128;
    if data.len() % elem != 0 {
        return Err(ZkeyError::SectionSize { section });
    }
    let n = data.len() / elem;
    let mut out: Vec<G2Affine> = Vec::with_capacity(n);
    let mut index: usize = 0;
    while index < n
        invariant
            index <= n,
            n * 128 == data@.len(),
            out@.len() == index,
            g2_points_error(data@, section, index as int) is None,
            forall|i: int| 0 <= i < index ==> #[trigger] out@[i] == g2_at(data@, 128 * i),
        decreases n - index,
    {
        let p = g2_point_at(data, index);
        if !g2_lies(&p) {
            proof {
                lemma_g2_error_stays(data@, section, index + 1, n as int);
            }
            return Err(ZkeyError::PointOffCurve { section, index });
        }
        out.push(p);
        index = index + 1;
    }
    proof {
        assert(out@ =~= g2_points(data@));
    }
    Ok(out)
}

proof fn lemma_g2_error_stays(s: Seq<u8>, id: u32, k: int, n: int)
    requires
        k <= n,
        g2_points_error(s, id, k) is Some,
    ensures
        g2_points_error(s, id, n) == g2_points_error(s, id, k),
    decreases n - k,
{
    if k < n {
        lemma_g2_error_stays(s, id, k, n - 1);
    }
}

/// One G1 point of the verifying key.
fn header_g1(r: &mut Reader) -> (p: Result<G1Affine, ZkeyError>)
    requires
        old(r).pos <= old(r).bytes@.len(),
    ensures
        final(r).bytes == old(r).bytes,
        match p {
            Ok(x) => {
                &&& header_g1_error(old(r).bytes@, old(r).pos as int) is None
                &&& x == g1_at(old(r).bytes@, old(r).pos as int)
                &&& final(r).pos == old(r).pos + 64
                &&& final(r).pos <= final(r).bytes@.len()
            },
            Err(e) => header_g1_error(old(r).bytes@, old(r).pos as int) == Some(e),
        },
{
    let ghost s = r.bytes@;
    let ghost at = r.pos as int;
    let p = g1_from_montgomery_bytes(r.take(64)?);
    proof {
        lemma_g1_part(s, at);
    }
    if !g1_lies(&p) {
        return Err(ZkeyError::PointOffCurve { section: 2, index: 0 });
    }
    Ok(p)
}

/// One G2 point of the verifying key.
fn header_g2(r: &mut Reader) -> (p: Result<G2Affine, ZkeyError>)
    requires
        old(r).pos <= old(r).bytes@.len(),
    ensures
        final(r).bytes == old(r).bytes,
        match p {
            Ok(x) => {
                &&& header_g2_error(old(r).bytes@, old(r).pos as int) is None
                &&& x == g2_at(old(r).bytes@, old(r).pos as int)
                &&& final(r).pos == old(r).pos + 128
                &&& final(r).pos <= final(r).bytes@.len()
            },
            Err(e) => header_g2_error(old(r).bytes@, old(r).pos as int) == Some(e),
        },
{
    let ghost s = r.bytes@;
    let ghost at = r.pos as int;
    let p = g2_from_montgomery_bytes(r.take(128)?);
    proof {
        lemma_g2_part(s, at);
    }
    if !g2_lies(&p) {
        return Err(ZkeyError::PointOffCurve { section: 2, index: 0 });
    }
    Ok(p)
}

/// Whether a number is a power of two.
fn is_power_of_two(n: usize) -> (r: bool)
    ensures
        r == dft::power_of_two(n as nat),
{
    let mut m: usize = n;
    proof {
        if n == 0 && dft::power_of_two(0) {
            let k = choose|k: nat| 0nat == #[trigger] vstd::arithmetic::power2::pow2(k);
            vstd::arithmetic::power2::lemma_pow2_pos(k);
        }
    }
    if n == 0 {
        return false;
    }
    while m % 2 == 0
        invariant
            m > 0,
            dft::power_of_two(n as nat) == dft::power_of_two(m as nat),
        decreases m,
    {
        proof {
            lemma_power_of_two_halves(m as nat);
        }
        m = m / 2;
    }
    proof {
        if m == 1 {
            vstd::arithmetic::power2::lemma2_to64();
            ntt::lemma_lg(0);
        } else if dft::power_of_two(m as nat) {
            dft::lemma_half(m as nat);
        }
    }
    m == 1
}

proof fn lemma_power_of_two_halves(m: nat)
    requires
        m > 0,
        m % 2 == 0,
    ensures
        dft::power_of_two(m) == dft::power_of_two(m / 2),
{
    if dft::power_of_two(m) {
        dft::lemma_half(m);
    }
    if dft::power_of_two(m / 2) {
        let k = ntt::lg(m / 2);
        vstd::arithmetic::power2::lemma_pow2_unfold(k + 1);
        ntt::lemma_lg(k + 1);
    }
}

/// What the header says.
struct Header {
    num_vars: usize,
    num_public: usize,
    domain_size: usize,
    vk: VerifyingKey,
}

/// Section 2: `q`, `r`, sizes, verifying key.
fn read_header(data: &[u8]) -> (r: Result<Header, ZkeyError>)
    ensures
        match r {
            Ok(h) => {
                &&& header_error(data@) is None
                &&& h.num_vars == word(data@, 72)
                &&& h.num_public == word(data@, 76)
                &&& h.domain_size == word(data@, 80)
                &&& h.vk == key_of(data@)
            },
            Err(e) => header_error(data@) == Some(e),
        },
{
    let mut s2 = Reader { bytes: data, pos: 0 };
    let n8q = s2.u32()? as usize;
    let q = s2.take(n8q)?;
    let n8r = s2.u32()? as usize;
    let rr = s2.take(n8r)?;
    let fp_modulus = consts::FP_MODULUS;
    let fr_modulus = consts::FR_MODULUS;
    let q_bytes = limbs_bytes(&fp_modulus);
    let r_bytes = limbs_bytes(&fr_modulus);
    proof {
        field::lemma_fp_modulus();
        field::lemma_fr_modulus();
        if n8q == 32 && n8r == 32 {
            lemma_modulus_bytes(data@.subrange(4, 36), certificates::q());
            lemma_modulus_bytes(data@.subrange(40, 72), certificates::r());
        }
    }
    if n8q != 32 || n8r != 32 || !same_bytes(q, &q_bytes) || !same_bytes(rr, &r_bytes) {
        return Err(ZkeyError::Curve);
    }
    let num_vars = s2.u32()? as usize;
    let num_public = s2.u32()? as usize;
    let domain_size = s2.u32()? as usize;
    let alpha_g1 = header_g1(&mut s2)?;
    let beta_g1 = header_g1(&mut s2)?;
    let beta_g2 = header_g2(&mut s2)?;
    let gamma_g2 = header_g2(&mut s2)?;
    let delta_g1 = header_g1(&mut s2)?;
    let delta_g2 = header_g2(&mut s2)?;
    let vk = VerifyingKey { alpha_g1, beta_g1, beta_g2, gamma_g2, delta_g1, delta_g2 };
    if !is_power_of_two(domain_size) || num_public >= num_vars {
        return Err(ZkeyError::Inconsistent("header sizes"));
    }
    Ok(Header { num_vars, num_public, domain_size, vk })
}

/// 32 bytes are those of a number exactly when they stand for it.
proof fn lemma_modulus_bytes(s: Seq<u8>, m: int)
    requires
        s.len() == 32,
        0 <= m < limbs::radix(),
    ensures
        s == bytes::le_bytes(m, 32) <==> bytes::le(s) == m,
{
    bytes::lemma_word_sizes();
    bytes::lemma_le_of_bytes(m, 32);
    bytes::lemma_bytes_of_le(s);
}

/// Section 4: a count, then `(matrix, constraint, signal, value)` records of 44 bytes.
fn read_coefficients(data: &[u8], num_vars: usize, domain_size: usize) -> (r: Result<
    Vec<Coefficient>,
    ZkeyError,
>)
    ensures
        match r {
            Ok(v) => {
                &&& coefficient_section_error(data@, num_vars as int, domain_size as int) is None
                &&& v@ == Seq::new(word(data@, 0) as nat, |i: int| coefficient_at(data@, i))
            },
            Err(e) => coefficient_section_error(data@, num_vars as int, domain_size as int)
                == Some(e),
        },
{
    if data.len() < 4 {
        return Err(ZkeyError::Truncated { at: 0 });
    }
    let len = data.len();
    let count = u32_at(data, 0);
    if data.len() as u64 != 4 + (count as u64) * 44 {
        return Err(ZkeyError::SectionSize { section: 4 });
    }
    // The element R⁻¹, whose Montgomery limbs are 1: multiplying by it turns a raw v·R² (read
    // as Montgomery limbs, the element v·R) into the element v.
    let r_inv = Fr::from_montgomery_limbs([1, 0, 0, 0]);
    let modulus = consts::FR_MODULUS;
    proof {
        field::lemma_fr_modulus();
        Fr::lemma_raw(r_inv);
    }
    let mut out: Vec<Coefficient> = Vec::with_capacity(count as usize);
    let mut i: usize = 0;
    while i < count as usize
        invariant
            i <= count,
            count == word(data@, 0),
            data@.len() == 4 + 44 * count,
            data@.len() == len,
            r_inv == Fr::of_raw(1),
            limbs::value(modulus) == certificates::r(),
            out@.len() == i,
            coefficients_error(data@, i as int, num_vars as int, domain_size as int) is None,
            forall|j: int| 0 <= j < i ==> #[trigger] out@[j] == coefficient_at(data@, j),
        decreases count - i,
    {
        let off: usize = 4 + i * 44;
        let matrix = u32_at(data, off);
        let constraint = u32_at(data, off + 4);
        let signal = u32_at(data, off + 8);
        let raw = limbs_at(data, off + 12);
        proof {
            if coefficients_error(data@, i + 1, num_vars as int, domain_size as int) is Some {
                lemma_coefficient_error_stays(
                    data@,
                    i + 1,
                    count as int,
                    num_vars as int,
                    domain_size as int,
                );
            }
        }
        if limbs::geq(&raw, &modulus) {
            return Err(ZkeyError::CoefficientValue(i));
        }
        let element = Fr::from_montgomery_limbs(raw);
        proof {
            Fr::lemma_raw(element);
        }
        let value = element.mul(&r_inv);
        if matrix > 1 || constraint as usize >= domain_size || signal as usize >= num_vars {
            return Err(ZkeyError::Inconsistent("coefficient indices"));
        }
        if i > 0 && constraint < u32_at(data, off - 40) {
            return Err(ZkeyError::Inconsistent("coefficient order"));
        }
        out.push(Coefficient { matrix, constraint, signal, value });
        i = i + 1;
    }
    proof {
        assert(out@ =~= Seq::new(word(data@, 0) as nat, |i: int| coefficient_at(data@, i)));
    }
    Ok(out)
}

proof fn lemma_coefficient_error_stays(s: Seq<u8>, k: int, n: int, vars: int, domain: int)
    requires
        k <= n,
        coefficients_error(s, k, vars, domain) is Some,
    ensures
        coefficients_error(s, n, vars, domain) == coefficients_error(s, k, vars, domain),
    decreases n - k,
{
    if k < n {
        lemma_coefficient_error_stays(s, k, n - 1, vars, domain);
    }
}

proof fn lemma_frame_error_stays(s: Seq<u8>, k: int, n: int)
    requires
        k <= n,
        frames_error(s, k) is Some,
    ensures
        frames_error(s, n) == frames_error(s, k),
    decreases n - k,
{
    if k < n {
        lemma_frame_error_stays(s, k, n - 1);
    }
}

/// The ten sections of a file.
fn split_sections(data: &[u8]) -> (r: Result<Vec<&[u8]>, ZkeyError>)
    ensures
        match r {
            Ok(v) => {
                &&& preamble_error(data@) is None
                &&& frames_error(data@, 10) is None
                &&& v@.len() == 10
                &&& forall|j: int| 0 <= j < 10 ==> (#[trigger] v@[j])@ == section(data@, j + 1)
            },
            Err(e) => first(preamble_error(data@), frames_error(data@, 10)) == Some(e),
        },
{
    let magic: [u8; 4] = [0x7a, 0x6b, 0x65, 0x79];
    let len = data.len();
    let mut r = Reader { bytes: data, pos: 0 };
    let head = r.take(4)?;
    proof {
        assert(magic@ =~= zkey_magic());
    }
    if !same_bytes(head, &magic) {
        return Err(ZkeyError::Magic);
    }
    let _version = r.u32()?;
    let num_sections = r.u32()?;
    if num_sections != 10 {
        return Err(ZkeyError::SectionCount(num_sections));
    }
    let mut sections: Vec<&[u8]> = Vec::with_capacity(10);
    let mut expected: u32 = 1;
    while expected <= 10
        invariant
            1 <= expected <= 11,
            r.bytes == data,
            data@.len() == len,
            r.pos <= data@.len(),
            r.pos == section_start(data@, expected as int) - 12,
            preamble_error(data@) is None,
            frames_error(data@, expected - 1) is None,
            sections@.len() == expected - 1,
            forall|j: int|
                0 <= j < expected - 1 ==> (#[trigger] sections@[j])@ == section(data@, j + 1),
        decreases 11 - expected,
    {
        proof {
            if frames_error(data@, expected as int) is Some {
                lemma_frame_error_stays(data@, expected as int, 10);
            }
        }
        let id = r.u32()?;
        if id != expected {
            return Err(ZkeyError::SectionOrder { expected, found: id });
        }
        let size = r.u64()?;
        if size > usize::MAX as u64 {
            return Err(ZkeyError::Truncated { at: r.pos });
        }
        let payload = r.take(size as usize)?;
        sections.push(payload);
        expected = expected + 1;
    }
    Ok(sections)
}

/// The query points.
struct Queries {
    a: Vec<G1Affine>,
    b1: Vec<G1Affine>,
    b2: Vec<G2Affine>,
    c: Vec<G1Affine>,
    h: Vec<G1Affine>,
}

/// Sections 5 to 9: query points.
fn read_queries(sections: &Vec<&[u8]>) -> (r: Result<Queries, ZkeyError>)
    requires
        sections@.len() == 10,
    ensures
        match r {
            Ok(v) => {
                &&& query_points_error(
                    sections@[4]@,
                    sections@[5]@,
                    sections@[6]@,
                    sections@[7]@,
                    sections@[8]@,
                ) is None
                &&& v.a@ == g1_points(sections@[4]@)
                &&& v.b1@ == g1_points(sections@[5]@)
                &&& v.b2@ == g2_points(sections@[6]@)
                &&& v.c@ == g1_points(sections@[7]@)
                &&& v.h@ == g1_points(sections@[8]@)
            },
            Err(e) => query_points_error(
                sections@[4]@,
                sections@[5]@,
                sections@[6]@,
                sections@[7]@,
                sections@[8]@,
            ) == Some(e),
        },
{
    let a = read_g1_points(5, sections[4])?;
    let b1 = read_g1_points(6, sections[5])?;
    let b2 = read_g2_points(7, sections[6])?;
    let c = read_g1_points(8, sections[7])?;
    let h = read_g1_points(9, sections[8])?;
    Ok(Queries { a, b1, b2, c, h })
}

/// Section 1: the protocol id.
fn read_protocol(data: &[u8]) -> (r: Result<(), ZkeyError>)
    ensures
        match r {
            Ok(_) => protocol_error(data@) is None,
            Err(e) => protocol_error(data@) == Some(e),
        },
{
    let mut s1 = Reader { bytes: data, pos: 0 };
    let protocol = s1.u32()?;
    if protocol != 1 {
        return Err(ZkeyError::Protocol(protocol));
    }
    Ok(())
}

impl Zkey {
    /// Parse a zkey from its bytes, validating structure, curve membership of
    /// every point and the reducedness of its coordinates, the order of the
    /// coefficients, and the consistency of the section sizes with the header.
    pub fn parse(data: &[u8]) -> (r: Result<Self, ZkeyError>)
        ensures
            match r {
                Ok(z) => {
                    &&& zkey_error(data@) is None
                    &&& z.holds(data@)
                    &&& z.consistent()
                    &&& z.reduced()
                    &&& prover::ascends(z.coefficients@)
                },
                Err(e) => zkey_error(data@) == Some(e),
            },
    {
        let sections = split_sections(data)?;
        // 1: header, the protocol id.
        read_protocol(sections[0])?;
        // 2: groth16 header.
        let header = read_header(sections[1])?;
        let num_vars = header.num_vars;
        let num_public = header.num_public;
        let domain_size = header.domain_size;
        // 3: IC.
        let ic = read_g1_points(3, sections[2])?;
        if ic.len() as u64 != num_public as u64 + 1 {
            return Err(ZkeyError::Inconsistent("IC count"));
        }
        // 4: coefficients.
        let coefficients = read_coefficients(sections[3], num_vars, domain_size)?;
        // 5..9: query points.
        let q = read_queries(&sections)?;
        if q.a.len() != num_vars || q.b1.len() != num_vars || q.b2.len() != num_vars {
            return Err(ZkeyError::Inconsistent("A/B query counts"));
        }
        if q.c.len() != num_vars - num_public - 1 {
            return Err(ZkeyError::Inconsistent("C query count"));
        }
        if q.h.len() != domain_size {
            return Err(ZkeyError::Inconsistent("H query count"));
        }
        let z = Zkey {
            num_vars,
            num_public,
            domain_size,
            vk: header.vk,
            ic,
            coefficients,
            a: q.a,
            b1: q.b1,
            b2: q.b2,
            c: q.c,
            h: q.h,
        };
        proof {
            lemma_dimensions(section(data@, 2), section(data@, 4));
            assert forall|i: int| 0 <= i < z.coefficients@.len() implies (
            #[trigger] z.coefficients@[i]).matrix <= 1 && z.coefficients@[i].constraint
                < z.domain_size && z.coefficients@[i].signal < z.num_vars by {
                lemma_coefficient_fine(
                    section(data@, 4),
                    i,
                    word(section(data@, 4), 0),
                    num_vars as int,
                    domain_size as int,
                );
            }
            lemma_key_reduced(z, data@);
            lemma_ascends(section(data@, 4), word(section(data@, 4), 0), num_vars as int, domain_size as int);
        }
        Ok(z)
    }
}

/// Words are 32-bit.
proof fn lemma_dimensions(header: Seq<u8>, coefficients: Seq<u8>)
    requires
        header.len() >= 84,
        coefficients.len() >= 4,
    ensures
        0 <= word(header, 72) <= u32::MAX,
        0 <= word(header, 80) <= u32::MAX,
        0 <= word(coefficients, 0) <= u32::MAX,
{
    bytes::lemma_word_sizes();
    bytes::lemma_le_bound(header.subrange(72, 76));
    bytes::lemma_le_bound(header.subrange(80, 84));
    bytes::lemma_le_bound(coefficients.subrange(0, 4));
}

/// A section without errors has none at any index.
pub(crate) proof fn lemma_coefficient_fine(s: Seq<u8>, i: int, n: int, vars: int, domain: int)
    requires
        0 <= i < n,
        s.len() >= 4 + 44 * n,
        coefficients_error(s, n, vars, domain) is None,
    ensures
        coefficient_error(s, i, vars, domain) is None,
        coefficient_at(s, i).matrix <= 1,
        coefficient_at(s, i).constraint < domain,
        coefficient_at(s, i).signal < vars,
    decreases n,
{
    let off = 4 + 44 * i;
    if s.len() >= off + 44 {
        bytes::lemma_word_sizes();
        bytes::lemma_le_bound(s.subrange(off, off + 4));
        bytes::lemma_le_bound(s.subrange(off + 4, off + 8));
        bytes::lemma_le_bound(s.subrange(off + 8, off + 12));
    }
    if i < n - 1 {
        lemma_coefficient_fine(s, i, n - 1, vars, domain);
    }
}

/// The points of a section without errors.
pub(crate) proof fn lemma_g1_fine(s: Seq<u8>, id: u32, n: int, i: int)
    requires
        0 <= i < n,
        g1_points_error(s, id, n) is None,
    ensures
        lies(g1_at(s, 64 * i), ec::g1_b_spec()),
    decreases n,
{
    if i < n - 1 {
        lemma_g1_fine(s, id, n - 1, i);
    }
}

/// The points of a section without errors.
pub(crate) proof fn lemma_g2_fine(s: Seq<u8>, id: u32, n: int, i: int)
    requires
        0 <= i < n,
        g2_points_error(s, id, n) is None,
    ensures
        lies(g2_at(s, 128 * i), ec::g2_b_spec()),
    decreases n,
{
    if i < n - 1 {
        lemma_g2_fine(s, id, n - 1, i);
    }
}

/// A section of G1 points without errors.
proof fn lemma_g1_section(s: Seq<u8>, id: u32)
    requires
        g1_section_error(s, id) is None,
    ensures
        msm::on_curve(g1_points(s), ec::g1_b_spec()),
{
    ec::lemma_g1_smooth();
    let points = g1_points(s);
    assert forall|i: int| 0 <= i < points.len() implies (#[trigger] points[i]).wf()
        && points[i].pt().on(ec::g1_b_spec()) by {
        lemma_g1_fine(s, id, s.len() as int / 64, i);
    }
}

/// A section of G2 points without errors.
proof fn lemma_g2_section(s: Seq<u8>, id: u32)
    requires
        g2_section_error(s, id) is None,
    ensures
        msm::on_curve(g2_points(s), ec::g2_b_spec()),
{
    ec::lemma_g2_smooth();
    let points = g2_points(s);
    assert forall|i: int| 0 <= i < points.len() implies (#[trigger] points[i]).wf()
        && points[i].pt().on(ec::g2_b_spec()) by {
        lemma_g2_fine(s, id, s.len() as int / 128, i);
    }
}

/// What a file without errors holds is reduced.
proof fn lemma_key_reduced(z: Zkey, s: Seq<u8>)
    requires
        zkey_error(s) is None,
        z.holds(s),
    ensures
        z.reduced(),
{
    broadcast use ring::group_wf;

    lemma_g1_section(section(s, 3), 3);
    lemma_g1_section(section(s, 5), 5);
    lemma_g1_section(section(s, 6), 6);
    lemma_g2_section(section(s, 7), 7);
    lemma_g1_section(section(s, 8), 8);
    lemma_g1_section(section(s, 9), 9);
    let header = section(s, 2);
    let (vars, domain) = (word(header, 72), word(header, 80));
    let t = section(s, 4);
    field::lemma_fr_modulus();
    assert forall|i: int| 0 <= i < z.coefficients@.len() implies (
    #[trigger] z.coefficients@[i]).value.wf() by {
        lemma_coefficient_fine(t, i, word(t, 0), vars, domain);
        let off = 4 + 44 * i + 12;
        bytes::lemma_le_bound(t.subrange(off, off + 32));
        bytes::lemma_word_sizes();
        Fr::lemma_of_raw(stored_value(t, off));
        Fr::lemma_of_raw(1);
    }
}

/// The coefficients of a section without errors ascend.
pub(crate) proof fn lemma_ascends(s: Seq<u8>, n: int, vars: int, domain: int)
    requires
        0 <= n,
        s.len() >= 4 + 44 * n,
        coefficients_error(s, n, vars, domain) is None,
    ensures
        prover::ascends(Seq::new(n as nat, |i: int| coefficient_at(s, i))),
    decreases n,
{
    let list = Seq::new(n as nat, |i: int| coefficient_at(s, i));
    if n > 0 {
        lemma_ascends(s, n - 1, vars, domain);
        let front = Seq::new((n - 1) as nat, |i: int| coefficient_at(s, i));
        assert forall|i: int, j: int| 0 <= i <= j < n implies (#[trigger] list[i]).constraint <= (
        #[trigger] list[j]).constraint by {
            if j < n - 1 {
                assert(front[i].constraint <= front[j].constraint);
            } else if i < j {
                assert(front[i].constraint <= front[n - 2].constraint);
                bytes::lemma_word_sizes();
                let off = 4 + 44 * j;
                bytes::lemma_le_bound(s.subrange(off + 4, off + 8));
                bytes::lemma_le_bound(s.subrange(off - 40, off - 36));
            }
        }
    }
}

// ---- witnesses -----------------------------------------------------------------------------

/// Why a witness file could not be parsed.
#[derive(Clone, Debug, PartialEq, Eq)]
pub enum WtnsError {
    /// The file does not start with `wtns`.
    Magic,
    /// The file ends before a declared structure.
    Truncated,
    /// The header is not for BN254's scalar field with 32-byte elements.
    Field,
    /// A value is not below the scalar modulus.
    Value(usize),
    /// The declared count and the data section disagree.
    Count,
}

impl WtnsError {
    /// The message for a reader.
    pub open spec fn text(self) -> Seq<char> {
        match self {
            WtnsError::Magic => "not a wtns file (bad magic)"@,
            WtnsError::Truncated => "wtns truncated"@,
            WtnsError::Field => "wtns is not over BN254's scalar field"@,
            WtnsError::Value(i) => "wtns value "@ + text::decimal_of(i as nat)
                + " is not a field element"@,
            WtnsError::Count => "wtns count does not match its data section"@,
        }
    }

    /// The message for a reader.
    pub fn message(&self) -> (r: String)
        ensures
            r@ == self.text(),
    {
        match self {
            WtnsError::Magic => text::owned("not a wtns file (bad magic)"),
            WtnsError::Truncated => text::owned("wtns truncated"),
            WtnsError::Field => text::owned("wtns is not over BN254's scalar field"),
            WtnsError::Value(i) => {
                let mut r = text::owned("wtns value ");
                text::push_u64(&mut r, *i as u64);
                text::push(&mut r, " is not a field element");
                r
            },
            WtnsError::Count => text::owned("wtns count does not match its data section"),
        }
    }
}

/// The four bytes `wtns`.
pub open spec fn wtns_magic() -> Seq<u8> {
    seq![0x77u8, 0x74, 0x6e, 0x73]
}

/// The integer stored as value `i`.
pub open spec fn witness_value(s: Seq<u8>, i: int) -> int {
    bytes::le(s.subrange(32 * i, 32 * i + 32))
}

/// The index of the first value, among the first `n`, that is not below the scalar modulus.
pub open spec fn bad_value(s: Seq<u8>, n: int) -> Option<usize>
    decreases n,
{
    if n <= 0 {
        None
    } else {
        first(
            bad_value(s, n - 1),
            if witness_value(s, n - 1) < certificates::r() {
                None
            } else {
                Some((n - 1) as usize)
            },
        )
    }
}

/// The witness in consecutive 32-byte values.
pub open spec fn witness_of(s: Seq<u8>) -> Seq<Fr> {
    Seq::new(s.len() / 32, |i: int| Fr::of(witness_value(s, i)))
}

/// The header section of a witness file.
pub open spec fn wtns_header(s: Seq<u8>) -> Seq<u8> {
    s.subrange(24, 24 + long(s, 16))
}

/// Where the data section's frame begins.
pub open spec fn wtns_second(s: Seq<u8>) -> int {
    24 + long(s, 16)
}

/// The values of a witness file.
pub open spec fn wtns_data(s: Seq<u8>) -> Seq<u8> {
    let at = wtns_second(s);
    s.subrange(at + 12, at + 12 + long(s, at + 4))
}

/// The first error of a witness file.
pub open spec fn wtns_error(s: Seq<u8>) -> Option<WtnsError> {
    let header = wtns_header(s);
    let n = word(header, 0);
    let at = wtns_second(s);
    if s.len() < 4 {
        Some(WtnsError::Truncated)
    } else if s.subrange(0, 4) != wtns_magic() {
        Some(WtnsError::Magic)
    } else if s.len() < 12 {
        Some(WtnsError::Truncated)
    } else if word(s, 8) != 2 {
        Some(WtnsError::Count)
    } else if s.len() < 24 || s.len() < at || header.len() < 4 || header.len() < 4 + n {
        Some(WtnsError::Truncated)
    } else if n != 32 || bytes::le(header.subrange(4, 36)) != certificates::r() {
        Some(WtnsError::Field)
    } else if header.len() < 40 || s.len() < at + 12 || s.len() < at + 12 + long(s, at + 4) {
        Some(WtnsError::Truncated)
    } else if wtns_data(s).len() != 32 * word(header, 36) {
        Some(WtnsError::Count)
    } else {
        match bad_value(wtns_data(s), wtns_data(s).len() as int / 32) {
            Some(i) => Some(WtnsError::Value(i)),
            None => None,
        }
    }
}

/// A truncated structure.
fn cut<T>(r: Result<T, ZkeyError>) -> (t: Result<T, WtnsError>)
    ensures
        match r {
            Ok(x) => t == Ok::<T, WtnsError>(x),
            Err(_) => t == Err::<T, WtnsError>(WtnsError::Truncated),
        },
{
    match r {
        Ok(x) => Ok(x),
        Err(_) => Err(WtnsError::Truncated),
    }
}

/// Take a section of a declared size.
fn take_sized<'a>(r: &mut Reader<'a>, size: u64) -> (t: Result<&'a [u8], WtnsError>)
    requires
        old(r).pos <= old(r).bytes@.len(),
    ensures
        final(r).bytes == old(r).bytes,
        match t {
            Ok(s) => {
                &&& old(r).pos + size <= old(r).bytes@.len()
                &&& final(r).pos == old(r).pos + size
                &&& s@ == old(r).bytes@.subrange(old(r).pos as int, old(r).pos + size)
            },
            Err(e) => old(r).pos + size > old(r).bytes@.len() && e == WtnsError::Truncated,
        },
{
    let len = r.bytes.len();
    if size > usize::MAX as u64 {
        return Err(WtnsError::Truncated);
    }
    cut(r.take(size as usize))
}

/// Parse a snarkjs `wtns` file into canonical witness values.
pub fn parse_wtns(data: &[u8]) -> (r: Result<Vec<Fr>, WtnsError>)
    ensures
        match r {
            Ok(w) => wtns_error(data@) is None && w@ == witness_of(wtns_data(data@))
                && dft::all_wf(w@),
            Err(e) => wtns_error(data@) == Some(e),
        },
{
    let magic: [u8; 4] = [0x77, 0x74, 0x6e, 0x73];
    let mut r = Reader { bytes: data, pos: 0 };
    let head = cut(r.take(4))?;
    proof {
        assert(magic@ =~= wtns_magic());
    }
    if !same_bytes(head, &magic) {
        return Err(WtnsError::Magic);
    }
    let _version = cut(r.u32())?;
    let num_sections = cut(r.u32())?;
    if num_sections != 2 {
        return Err(WtnsError::Count);
    }
    let _id1 = cut(r.u32())?;
    let size1 = cut(r.u64())?;
    let header = take_sized(&mut r, size1)?;
    let mut s1 = Reader { bytes: header, pos: 0 };
    let n8 = cut(s1.u32())?;
    let modulus = take_sized(&mut s1, n8 as u64)?;
    let fr_modulus = consts::FR_MODULUS;
    let r_bytes = limbs_bytes(&fr_modulus);
    proof {
        field::lemma_fr_modulus();
        if n8 == 32 {
            lemma_modulus_bytes(header@.subrange(4, 36), certificates::r());
        }
    }
    if n8 != 32 || !same_bytes(modulus, &r_bytes) {
        return Err(WtnsError::Field);
    }
    let count = cut(s1.u32())?;
    let _id2 = cut(r.u32())?;
    let size2 = cut(r.u64())?;
    let values = take_sized(&mut r, size2)?;
    if values.len() as u64 != count as u64 * 32 {
        return Err(WtnsError::Count);
    }
    match parse_witness_values(values) {
        Ok(w) => {
            proof {
                lemma_witness_wf(values@);
            }
            Ok(w)
        },
        Err(i) => Err(WtnsError::Value(i)),
    }
}

/// Decode `n` consecutive canonical little-endian 32-byte witness values; the
/// error is the index of the first value that is not below the scalar modulus.
pub fn parse_witness_values(data: &[u8]) -> (r: Result<Vec<Fr>, usize>)
    ensures
        match r {
            Ok(w) => bad_value(data@, data@.len() as int / 32) is None && w@ == witness_of(data@),
            Err(i) => bad_value(data@, data@.len() as int / 32) == Some(i),
        },
{
    let len = data.len();
    let n = len / 32;
    let modulus = consts::FR_MODULUS;
    proof {
        field::lemma_fr_modulus();
    }
    let mut out: Vec<Fr> = Vec::with_capacity(n);
    let mut i: usize = 0;
    while i < n
        invariant
            i <= n,
            n * 32 <= data@.len(),
            data@.len() == len,
            n == len / 32,
            limbs::value(modulus) == certificates::r(),
            out@.len() == i,
            bad_value(data@, i as int) is None,
            forall|j: int| 0 <= j < i ==> #[trigger] out@[j] == Fr::of(witness_value(data@, j)),
        decreases n - i,
    {
        let x = limbs_at(data, i * 32);
        if limbs::geq(&x, &modulus) {
            proof {
                lemma_bad_value_stays(data@, i + 1, n as int);
            }
            return Err(i);
        }
        out.push(Fr::from_canonical(x));
        i = i + 1;
    }
    proof {
        assert(out@ =~= witness_of(data@));
    }
    Ok(out)
}

proof fn lemma_bad_value_stays(s: Seq<u8>, k: int, n: int)
    requires
        k <= n,
        bad_value(s, k) is Some,
    ensures
        bad_value(s, n) == bad_value(s, k),
    decreases n - k,
{
    if k < n {
        lemma_bad_value_stays(s, k, n - 1);
    }
}

/// The values of a witness are reduced.
pub proof fn lemma_witness_wf(data: Seq<u8>)
    requires
        bad_value(data, data.len() as int / 32) is None,
    ensures
        dft::all_wf(witness_of(data)),
{
    let w = witness_of(data);
    assert forall|i: int| 0 <= i < w.len() implies (#[trigger] w[i]).wf() by {
        lemma_good_value(data, data.len() as int / 32, i);
        field::lemma_fr_modulus();
        Fr::lemma_of(witness_value(data, i));
    }
}

/// Where no value is bad, each is a field element.
pub proof fn lemma_good_value(s: Seq<u8>, n: int, i: int)
    requires
        bad_value(s, n) is None,
        0 <= i < n,
    ensures
        0 <= witness_value(s, i) < certificates::r(),
    decreases n,
{
    bytes::lemma_le_bound(s.subrange(32 * i, 32 * i + 32));
    if i < n - 1 {
        lemma_good_value(s, n - 1, i);
    }
}

} // verus!
