//! The two precomputed artifacts that stand beside a zkey,
//! `preprocessed_coeffs.bin` and `fuzzed_msm_results.bin`. Both are derivable
//! from the zkey, so a prover may consume them for speed or rebuild them.

use vstd::arithmetic::div_mod::*;
use vstd::prelude::*;

use crate::bytes;
use crate::bytes::{limbs_at, limbs_bytes, u32_at, u32_bytes, u64_at, u64_bytes};
use crate::coeff::GroupedCoeff;
use crate::consts;
use crate::ec::Jacobian;
use crate::field;
use crate::field::{Field, Fp, Fr};
use crate::fp2::Fp2;
use crate::limbs;
use crate::math::certificates;
use crate::math::ring;
use crate::math::ring::{FieldLaws, Ring};
use crate::prover;
use crate::prover::CoefficientGroups;
use crate::reading;
use crate::text;
use crate::zkey;
use crate::zkey::{Coefficient, Zkey};

verus! {

/// Record size of `preprocessed_coeffs.bin`: `u32 m, c, s`, 4 bytes of
/// padding, then the 32-byte value (`v·R²`, as in the zkey).
pub const PCOEFF_RECORD: usize = 48;

/// Why an artifact could not be parsed.
#[derive(Clone, Debug, PartialEq, Eq)]
pub enum ArtifactError {
    /// The file is shorter than its header or its declared contents.
    Truncated,
    /// The declared counts do not add up to the file size.
    Size {
        /// Expected size in bytes (the largest `usize` when it exceeds that).
        expected: usize,
        /// Actual size.
        found: usize,
    },
    /// A record's matrix id is not 0 or 1, or its indices exceed the zkey's.
    Record(usize),
    /// A value is not a scalar-field element.
    Value(usize),
}

impl ArtifactError {
    /// The message for a reader.
    pub open spec fn text(self) -> Seq<char> {
        match self {
            ArtifactError::Truncated => "artifact truncated"@,
            ArtifactError::Size { expected, found } => "artifact size "@ + text::decimal_of(
                found as nat,
            ) + " does not match its header ("@ + text::decimal_of(expected as nat) + ")"@,
            ArtifactError::Record(i) => "artifact record "@ + text::decimal_of(i as nat)
                + " is malformed"@,
            ArtifactError::Value(i) => "artifact value "@ + text::decimal_of(i as nat)
                + " is not a field element"@,
        }
    }

    /// The message for a reader.
    pub fn message(&self) -> (r: String)
        ensures
            r@ == self.text(),
    {
        match self {
            ArtifactError::Truncated => text::owned("artifact truncated"),
            ArtifactError::Size { expected, found } => {
                let mut r = text::owned("artifact size ");
                text::push_u64(&mut r, *found as u64);
                text::push(&mut r, " does not match its header (");
                text::push_u64(&mut r, *expected as u64);
                text::push(&mut r, ")");
                r
            },
            ArtifactError::Record(i) => {
                let mut r = text::owned("artifact record ");
                text::push_u64(&mut r, *i as u64);
                text::push(&mut r, " is malformed");
                r
            },
            ArtifactError::Value(i) => {
                let mut r = text::owned("artifact value ");
                text::push_u64(&mut r, *i as u64);
                text::push(&mut r, " is not a field element");
                r
            },
        }
    }
}

/// The numbers in the messages, read back word by word: the size that was found and the one that
/// was declared, the index of a record, the index of a value.
#[verifier::rlimit(40)]
pub proof fn lemma_messages_name_numbers(expected: usize, found: usize, i: usize)
    ensures
        ({
            let f = reading::fields(ArtifactError::Size { expected, found }.text(), ' ');
            &&& f.len() == 9
            &&& reading::numerals(f[2]) && reading::number(f[2]) == found
            &&& f[8] == seq!['('] + text::decimal_of(expected as nat) + seq![')']
        }),
        ({
            let f = reading::fields(ArtifactError::Record(i).text(), ' ');
            &&& f.len() == 5
            &&& f[1] == "record"@ && reading::numerals(f[2]) && reading::number(f[2]) == i
        }),
        ({
            let f = reading::fields(ArtifactError::Value(i).text(), ' ');
            &&& f.len() == 8
            &&& f[1] == "value"@ && reading::numerals(f[2]) && reading::number(f[2]) == i
        }),
{
    let (a, b) = (text::decimal_of(found as nat), text::decimal_of(i as nat));
    let e = text::decimal_of(expected as nat);
    let c = seq!['('] + e + seq![')'];
    reading::lemma_decimal(found as nat);
    reading::lemma_decimal(i as nat);
    reading::lemma_decimal(expected as nat);
    reading::lemma_decimal_free(found as nat);
    reading::lemma_decimal_free(i as nat);
    reading::lemma_decimal_free(expected as nat);
    assert(reading::free(c, ' '));
    lemma_words_free();
    reading::lemma_joined(
        seq!["artifact"@, "size"@, a, "does"@, "not"@, "match"@, "its"@, "header"@, c],
        ' ',
    );
    reading::lemma_joined(seq!["artifact"@, "record"@, b, "is"@, "malformed"@], ' ');
    reading::lemma_joined(
        seq!["artifact"@, "value"@, b, "is"@, "not"@, "a"@, "field"@, "element"@],
        ' ',
    );
    lemma_spelled_size(a, e);
    lemma_spelled_index(b);
}

/// The words of the messages have no spaces in them.
proof fn lemma_words_free()
    ensures
        reading::free("artifact"@, ' '),
        reading::free("size"@, ' '),
        reading::free("does"@, ' '),
        reading::free("not"@, ' '),
        reading::free("match"@, ' '),
        reading::free("its"@, ' '),
        reading::free("header"@, ' '),
        reading::free("record"@, ' '),
        reading::free("is"@, ' '),
        reading::free("malformed"@, ' '),
        reading::free("value"@, ' '),
        reading::free("a"@, ' '),
        reading::free("field"@, ' '),
        reading::free("element"@, ' '),
{
    reveal_strlit("artifact");
    reveal_strlit("size");
    reveal_strlit("does");
    reveal_strlit("not");
    reveal_strlit("match");
    reveal_strlit("its");
    reveal_strlit("header");
    reveal_strlit("record");
    reveal_strlit("is");
    reveal_strlit("malformed");
    reveal_strlit("value");
    reveal_strlit("a");
    reveal_strlit("field");
    reveal_strlit("element");
}

/// The message on a size as its words.
#[verifier::rlimit(40)]
proof fn lemma_spelled_size(a: Seq<char>, e: Seq<char>)
    ensures
        "artifact size "@ + a + " does not match its header ("@ + e + ")"@ == reading::joined(
            seq![
                "artifact"@,
                "size"@,
                a,
                "does"@,
                "not"@,
                "match"@,
                "its"@,
                "header"@,
                seq!['('] + e + seq![')'],
            ],
            ' ',
        ),
{
    reveal_strlit("artifact");
    reveal_strlit("size");
    reveal_strlit("does");
    reveal_strlit("not");
    reveal_strlit("match");
    reveal_strlit("its");
    reveal_strlit("header");
    reveal_strlit("artifact size ");
    reveal_strlit(" does not match its header (");
    reveal_strlit(")");
    let c = seq!['('] + e + seq![')'];
    let z = seq!["artifact"@];
    assert(reading::joined(z, ' ') == "artifact"@);
    reading::lemma_joined_push(z, "size"@, ' ');
    let z1 = z.push("size"@);
    reading::lemma_joined_push(z1, a, ' ');
    let z2 = z1.push(a);
    reading::lemma_joined_push(z2, "does"@, ' ');
    let z3 = z2.push("does"@);
    reading::lemma_joined_push(z3, "not"@, ' ');
    let z4 = z3.push("not"@);
    reading::lemma_joined_push(z4, "match"@, ' ');
    let z5 = z4.push("match"@);
    reading::lemma_joined_push(z5, "its"@, ' ');
    let z6 = z5.push("its"@);
    reading::lemma_joined_push(z6, "header"@, ' ');
    let z7 = z6.push("header"@);
    reading::lemma_joined_push(z7, c, ' ');
    assert(reading::joined(z1, ' ').push(' ') =~= "artifact size "@);
    assert(reading::joined(z7, ' ').push(' ') + c =~= reading::joined(z2, ' ')
        + " does not match its header ("@ + e + ")"@);
    assert(z7.push(c) =~= seq![
        "artifact"@,
        "size"@,
        a,
        "does"@,
        "not"@,
        "match"@,
        "its"@,
        "header"@,
        c,
    ]);
}

/// The messages on a record and on a value as their words.
#[verifier::rlimit(40)]
proof fn lemma_spelled_index(b: Seq<char>)
    ensures
        "artifact record "@ + b + " is malformed"@ == reading::joined(
            seq!["artifact"@, "record"@, b, "is"@, "malformed"@],
            ' ',
        ),
        "artifact value "@ + b + " is not a field element"@ == reading::joined(
            seq!["artifact"@, "value"@, b, "is"@, "not"@, "a"@, "field"@, "element"@],
            ' ',
        ),
{
    reveal_strlit("artifact");
    reveal_strlit("record");
    reveal_strlit("is");
    reveal_strlit("malformed");
    reveal_strlit("value");
    reveal_strlit("not");
    reveal_strlit("a");
    reveal_strlit("field");
    reveal_strlit("element");
    reveal_strlit("artifact record ");
    reveal_strlit(" is malformed");
    reveal_strlit("artifact value ");
    reveal_strlit(" is not a field element");
    let z = seq!["artifact"@];
    assert(reading::joined(z, ' ') == "artifact"@);
    reading::lemma_joined_push(z, "record"@, ' ');
    let z1 = z.push("record"@);
    reading::lemma_joined_push(z1, b, ' ');
    let z2 = z1.push(b);
    reading::lemma_joined_push(z2, "is"@, ' ');
    let z3 = z2.push("is"@);
    reading::lemma_joined_push(z3, "malformed"@, ' ');
    assert(reading::joined(z1, ' ').push(' ') =~= "artifact record "@);
    assert(reading::joined(z3, ' ').push(' ') + "malformed"@ =~= reading::joined(z2, ' ')
        + " is malformed"@);
    assert(z3.push("malformed"@) =~= seq!["artifact"@, "record"@, b, "is"@, "malformed"@]);
    reading::lemma_joined_push(z, "value"@, ' ');
    let y1 = z.push("value"@);
    reading::lemma_joined_push(y1, b, ' ');
    let y2 = y1.push(b);
    reading::lemma_joined_push(y2, "is"@, ' ');
    let y3 = y2.push("is"@);
    reading::lemma_joined_push(y3, "not"@, ' ');
    let y4 = y3.push("not"@);
    reading::lemma_joined_push(y4, "a"@, ' ');
    let y5 = y4.push("a"@);
    reading::lemma_joined_push(y5, "field"@, ' ');
    let y6 = y5.push("field"@);
    reading::lemma_joined_push(y6, "element"@, ' ');
    assert(reading::joined(y1, ' ').push(' ') =~= "artifact value "@);
    assert(reading::joined(y6, ' ').push(' ') + "element"@ =~= reading::joined(y2, ' ')
        + " is not a field element"@);
    assert(y6.push("element"@) =~= seq![
        "artifact"@,
        "value"@,
        b,
        "is"@,
        "not"@,
        "a"@,
        "field"@,
        "element"@,
    ]);
}

// ---- what a coefficient file means -----------------------------------------------------------

/// The four counts of the header.
pub open spec fn counts(s: Seq<u8>) -> (int, int, int, int) {
    (zkey::long(s, 0), zkey::long(s, 8), zkey::long(s, 16), zkey::long(s, 24))
}

/// The size that four counts declare.
pub open spec fn declared_size(c: (int, int, int, int)) -> int {
    32 + (c.0 + c.1) * 48 + (c.2 + c.3) * 4
}

/// Record `i` of the list at `base`.
pub open spec fn record_at(s: Seq<u8>, base: int, i: int) -> GroupedCoeff {
    let rec = base + i * 48;
    GroupedCoeff { signal: zkey::word(s, rec + 8) as u32, value: zkey::value_at(s, rec + 16) }
}

/// The constraint of record `i` of the list at `base`.
pub open spec fn constraint_at(s: Seq<u8>, base: int, i: int) -> u32 {
    zkey::word(s, base + i * 48 + 4) as u32
}

/// The error of record `i` of the list at `base`.
pub open spec fn record_error(
    s: Seq<u8>,
    base: int,
    i: int,
    matrix: int,
    vars: int,
    domain: int,
) -> Option<ArtifactError> {
    let rec = base + i * 48;
    if zkey::word(s, rec) != matrix || zkey::word(s, rec + 4) >= domain || zkey::word(s, rec + 8)
        >= vars {
        Some(ArtifactError::Record(i as usize))
    } else if zkey::stored_value(s, rec + 16) >= certificates::r() {
        Some(ArtifactError::Value(i as usize))
    } else {
        None
    }
}

/// The first error among the first `n` records of the list at `base`.
pub open spec fn records_error(
    s: Seq<u8>,
    base: int,
    n: int,
    matrix: int,
    vars: int,
    domain: int,
) -> Option<ArtifactError>
    decreases n,
{
    if n <= 0 {
        None
    } else {
        zkey::first(
            records_error(s, base, n - 1, matrix, vars, domain),
            record_error(s, base, n - 1, matrix, vars, domain),
        )
    }
}

/// The records of a list.
pub open spec fn list_at(s: Seq<u8>, base: int, n: nat) -> Seq<GroupedCoeff> {
    Seq::new(n, |i: int| record_at(s, base, i))
}

/// The constraints of a list.
pub open spec fn constraints_at(s: Seq<u8>, base: int, n: nat) -> Seq<u32> {
    Seq::new(n, |i: int| constraint_at(s, base, i))
}

/// `n` start indices.
pub open spec fn starts_at(s: Seq<u8>, base: int, n: nat) -> Seq<u32> {
    Seq::new(n, |i: int| zkey::word(s, base + i * 4) as u32)
}

/// Group `g` is a nonempty range of records with one constraint.
pub open spec fn uniform(starts: Seq<u32>, constraints: Seq<u32>, g: int) -> bool {
    &&& starts[g] < starts[g + 1] <= constraints.len()
    &&& forall|i: int|
        starts[g] <= i < starts[g + 1] ==> #[trigger] constraints[i] == constraints[starts[g] as int]
}

/// Group `g` comes at a later constraint than the group before it.
pub open spec fn in_order(starts: Seq<u32>, constraints: Seq<u32>, g: int) -> bool {
    g > 0 ==> constraints[starts[g - 1] as int] < constraints[starts[g] as int]
}

/// The first error among the first `n` groups: each has one constraint, and they ascend.
pub open spec fn groups_error(starts: Seq<u32>, constraints: Seq<u32>, n: int) -> Option<
    ArtifactError,
>
    decreases n,
{
    if n <= 0 {
        None
    } else {
        zkey::first(
            groups_error(starts, constraints, n - 1),
            if uniform(starts, constraints, n - 1) && in_order(starts, constraints, n - 1) {
                None
            } else {
                Some(ArtifactError::Record(starts[n - 1] as usize))
            },
        )
    }
}

/// The constraint of each group.
pub open spec fn group_constraints_of(starts: Seq<u32>, constraints: Seq<u32>) -> Seq<u32> {
    Seq::new(group_count(starts), |g: int| constraints[starts[g] as int])
}

/// How many groups start indices cut out.
pub open spec fn group_count(starts: Seq<u32>) -> nat {
    if starts.len() == 0 {
        0
    } else {
        (starts.len() - 1) as nat
    }
}

/// The error of start indices that leave a record out: they begin with the first of `count`
/// records, and end with the sentinel `count`.
pub open spec fn cover_error(starts: Seq<u32>, count: int) -> Option<ArtifactError> {
    if starts.len() == 0 || starts[0] != 0 {
        Some(ArtifactError::Record(0))
    } else if starts.last() != count {
        Some(ArtifactError::Record(starts.last() as usize))
    } else {
        None
    }
}

/// The first error of the start indices of a list.
pub open spec fn starts_error(starts: Seq<u32>, constraints: Seq<u32>) -> Option<ArtifactError> {
    zkey::first(
        groups_error(starts, constraints, group_count(starts) as int),
        cover_error(starts, constraints.len() as int),
    )
}

/// The first error of a coefficient file.
pub open spec fn coeffs_error(s: Seq<u8>, vars: int, domain: int) -> Option<ArtifactError> {
    let c = counts(s);
    let size = declared_size(c);
    let second = 32 + c.0 * 48;
    let index = 32 + (c.0 + c.1) * 48;
    let (sa, sb) = (
        starts_at(s, index, c.2 as nat),
        starts_at(s, index + c.2 * 4, c.3 as nat),
    );
    if s.len() < 32 {
        Some(ArtifactError::Truncated)
    } else if s.len() != size {
        Some(
            ArtifactError::Size {
                expected: if size <= usize::MAX {
                    size as usize
                } else {
                    usize::MAX
                },
                found: s.len() as usize,
            },
        )
    } else {
        zkey::first(
            records_error(s, 32, c.0, 0, vars, domain),
            zkey::first(
                records_error(s, second, c.1, 1, vars, domain),
                zkey::first(
                    starts_error(sa, constraints_at(s, 32, c.0 as nat)),
                    starts_error(sb, constraints_at(s, second, c.1 as nat)),
                ),
            ),
        )
    }
}

/// The groups hold what the file says.
pub open spec fn groups_hold(groups: CoefficientGroups, s: Seq<u8>) -> bool {
    let c = counts(s);
    let second = 32 + c.0 * 48;
    let index = 32 + (c.0 + c.1) * 48;
    &&& groups.a@ == list_at(s, 32, c.0 as nat)
    &&& groups.b@ == list_at(s, second, c.1 as nat)
    &&& groups.a_starts@ == starts_at(s, index, c.2 as nat)
    &&& groups.b_starts@ == starts_at(s, index + c.2 * 4, c.3 as nat)
    &&& groups.a_constraint@ == group_constraints_of(
        groups.a_starts@,
        constraints_at(s, 32, c.0 as nat),
    )
    &&& groups.b_constraint@ == group_constraints_of(
        groups.b_starts@,
        constraints_at(s, second, c.1 as nat),
    )
}

// ---- reading coefficient files ---------------------------------------------------------------

proof fn lemma_records_error_stays(
    s: Seq<u8>,
    base: int,
    k: int,
    n: int,
    matrix: int,
    vars: int,
    domain: int,
)
    requires
        k <= n,
        records_error(s, base, k, matrix, vars, domain) is Some,
    ensures
        records_error(s, base, n, matrix, vars, domain) == records_error(
            s,
            base,
            k,
            matrix,
            vars,
            domain,
        ),
    decreases n - k,
{
    if k < n {
        lemma_records_error_stays(s, base, k, n - 1, matrix, vars, domain);
    }
}

proof fn lemma_groups_error_stays(starts: Seq<u32>, constraints: Seq<u32>, k: int, n: int)
    requires
        k <= n,
        groups_error(starts, constraints, k) is Some,
    ensures
        groups_error(starts, constraints, n) == groups_error(starts, constraints, k),
    decreases n - k,
{
    if k < n {
        lemma_groups_error_stays(starts, constraints, k, n - 1);
    }
}

/// Read one record of a list.
fn read_record(data: &[u8], rec: usize, r_inv: &Fr) -> (c: GroupedCoeff)
    requires
        rec + 48 <= data@.len(),
        *r_inv == Fr::of_raw(1),
    ensures
        c == record_at(data@, rec as int, 0),
{
    let len = data.len();
    let signal = u32_at(data, rec + 8);
    let raw = limbs_at(data, rec + 16);
    let element = Fr::from_montgomery_limbs(raw);
    proof {
        Fr::lemma_raw(element);
    }
    GroupedCoeff { signal, value: element.mul(r_inv) }
}

/// Read the list of `count` records at `offset`.
fn read_list(
    data: &[u8],
    offset: usize,
    count: usize,
    matrix: u32,
    num_vars: usize,
    domain: usize,
) -> (r: Result<(Vec<GroupedCoeff>, Vec<u32>), ArtifactError>)
    requires
        offset + count * 48 <= data@.len(),
    ensures
        match r {
            Ok(v) => {
                &&& records_error(
                    data@,
                    offset as int,
                    count as int,
                    matrix as int,
                    num_vars as int,
                    domain as int,
                ) is None
                &&& v.0@ == list_at(data@, offset as int, count as nat)
                &&& v.1@ == constraints_at(data@, offset as int, count as nat)
            },
            Err(e) => records_error(
                data@,
                offset as int,
                count as int,
                matrix as int,
                num_vars as int,
                domain as int,
            ) == Some(e),
        },
{
    let len = data.len();
    // The element R⁻¹ (its Montgomery limbs are 1).
    let r_inv = Fr::from_montgomery_limbs([1, 0, 0, 0]);
    let modulus = consts::FR_MODULUS;
    proof {
        field::lemma_fr_modulus();
        Fr::lemma_raw(r_inv);
    }
    let mut coeffs: Vec<GroupedCoeff> = Vec::with_capacity(count);
    let mut constraints: Vec<u32> = Vec::with_capacity(count);
    let mut i: usize = 0;
    let ghost (o, m, v, d) = (offset as int, matrix as int, num_vars as int, domain as int);
    while i < count
        invariant
            i <= count,
            offset + count * 48 <= data@.len(),
            data@.len() == len,
            r_inv == Fr::of_raw(1),
            limbs::value(modulus) == certificates::r(),
            (o, m, v, d) == (offset as int, matrix as int, num_vars as int, domain as int),
            records_error(data@, o, i as int, m, v, d) is None,
            coeffs@.len() == i,
            constraints@.len() == i,
            forall|j: int| 0 <= j < i ==> #[trigger] coeffs@[j] == record_at(data@, o, j),
            forall|j: int| 0 <= j < i ==> #[trigger] constraints@[j] == constraint_at(data@, o, j),
        decreases count - i,
    {
        let rec = offset + i * 48;
        let tag = u32_at(data, rec);
        let c = u32_at(data, rec + 4);
        let s = u32_at(data, rec + 8);
        proof {
            if records_error(data@, o, i + 1, m, v, d) is Some {
                lemma_records_error_stays(data@, o, i + 1, count as int, m, v, d);
            }
        }
        if tag != matrix || c as usize >= domain || s as usize >= num_vars {
            return Err(ArtifactError::Record(i));
        }
        let raw = limbs_at(data, rec + 16);
        if limbs::geq(&raw, &modulus) {
            return Err(ArtifactError::Value(i));
        }
        let record = read_record(data, rec, &r_inv);
        proof {
            assert(record == record_at(data@, o, i as int));
        }
        coeffs.push(record);
        constraints.push(c);
        i = i + 1;
    }
    proof {
        assert(coeffs@ =~= list_at(data@, o, count as nat));
        assert(constraints@ =~= constraints_at(data@, o, count as nat));
    }
    Ok((coeffs, constraints))
}

/// Read `count` start indices at `offset`.
fn read_starts(data: &[u8], offset: usize, count: usize) -> (r: Vec<u32>)
    requires
        offset + count * 4 <= data@.len(),
    ensures
        r@ == starts_at(data@, offset as int, count as nat),
{
    let len = data.len();
    let mut r: Vec<u32> = Vec::with_capacity(count);
    let mut i: usize = 0;
    while i < count
        invariant
            i <= count,
            offset + count * 4 <= data@.len(),
            data@.len() == len,
            r@.len() == i,
            forall|j: int|
                0 <= j < i ==> #[trigger] r@[j] == zkey::word(data@, offset + j * 4) as u32,
        decreases count - i,
    {
        r.push(u32_at(data, offset + i * 4));
        i = i + 1;
    }
    proof {
        assert(r@ =~= starts_at(data@, offset as int, count as nat));
    }
    r
}

/// Whether the records `from..to` have one constraint.
fn one_constraint(constraints: &[u32], from: usize, to: usize) -> (r: bool)
    requires
        from < to <= constraints@.len(),
    ensures
        r == (forall|i: int|
            from <= i < to ==> #[trigger] constraints@[i] == constraints@[from as int]),
{
    let c = constraints[from];
    let mut i = from;
    while i < to
        invariant
            from <= i <= to <= constraints@.len(),
            from < to,
            c == constraints@[from as int],
            forall|j: int| from <= j < i ==> #[trigger] constraints@[j] == c,
        decreases to - i,
    {
        if constraints[i] != c {
            return false;
        }
        i = i + 1;
    }
    true
}

/// The constraint of each group, or what is wrong with the groups.
fn group_constraints(starts: &[u32], constraints: &[u32]) -> (r: Result<Vec<u32>, ArtifactError>)
    ensures
        match r {
            Ok(v) => {
                &&& starts_error(starts@, constraints@) is None
                &&& v@ == group_constraints_of(starts@, constraints@)
            },
            Err(e) => starts_error(starts@, constraints@) == Some(e),
        },
{
    let mut out: Vec<u32> = Vec::new();
    let n = if starts.len() == 0 {
        0
    } else {
        starts.len() - 1
    };
    let mut g: usize = 0;
    while g < n
        invariant
            g <= n,
            n == group_count(starts@),
            n < starts@.len() || n == 0,
            groups_error(starts@, constraints@, g as int) is None,
            out@.len() == g,
            forall|j: int|
                0 <= j < g ==> #[trigger] out@[j] == constraints@[starts@[j] as int],
        decreases n - g,
    {
        let from = starts[g] as usize;
        let to = starts[g + 1] as usize;
        proof {
            if groups_error(starts@, constraints@, g + 1) is Some {
                lemma_groups_error_stays(starts@, constraints@, g + 1, n as int);
            }
        }
        if from >= to || to > constraints.len() {
            return Err(ArtifactError::Record(from));
        }
        if !one_constraint(constraints, from, to) {
            return Err(ArtifactError::Record(from));
        }
        if g > 0 && out[g - 1] >= constraints[from] {
            return Err(ArtifactError::Record(from));
        }
        out.push(constraints[from]);
        g = g + 1;
    }
    proof {
        assert(out@ =~= group_constraints_of(starts@, constraints@));
    }
    if starts.len() == 0 || starts[0] != 0 {
        return Err(ArtifactError::Record(0));
    }
    let end = starts[starts.len() - 1] as usize;
    if end != constraints.len() {
        return Err(ArtifactError::Record(end));
    }
    Ok(out)
}

/// Parse `preprocessed_coeffs.bin` into coefficient groups: header of four
/// `u64` (`count_a`, `count_b`, `unique_a`, `unique_b`: the index lists'
/// lengths, sentinel counted), `count_a + count_b` 48-byte records (A list
/// then B list, each grouped by ascending constraint), then
/// `unique_a + unique_b` `u32` start indices, each list from zero to its
/// sentinel, the number of its records.
pub fn parse_preprocessed_coeffs(
    data: &[u8],
    zkey_num_vars: usize,
    zkey_domain: usize,
) -> (r: Result<CoefficientGroups, ArtifactError>)
    ensures
        match r {
            Ok(groups) => {
                &&& coeffs_error(data@, zkey_num_vars as int, zkey_domain as int) is None
                &&& groups_hold(groups, data@)
                &&& valid_list(
                    groups.a@,
                    groups.a_starts@,
                    groups.a_constraint@,
                    zkey_num_vars as int,
                    zkey_domain as int,
                )
                &&& valid_list(
                    groups.b@,
                    groups.b_starts@,
                    groups.b_constraint@,
                    zkey_num_vars as int,
                    zkey_domain as int,
                )
            },
            Err(e) => coeffs_error(data@, zkey_num_vars as int, zkey_domain as int) == Some(e),
        },
{
    let len = data.len();
    if len < 32 {
        return Err(ArtifactError::Truncated);
    }
    let count_a = u64_at(data, 0);
    let count_b = u64_at(data, 8);
    let unique_a = u64_at(data, 16);
    let unique_b = u64_at(data, 24);
    let expected: u128 = 32 + (count_a as u128 + count_b as u128) * 48 + (unique_a as u128
        + unique_b as u128) * 4;
    if len as u128 != expected {
        let expected = if expected <= usize::MAX as u128 {
            expected as usize
        } else {
            usize::MAX
        };
        return Err(ArtifactError::Size { expected, found: len });
    }
    let (count_a, count_b) = (count_a as usize, count_b as usize);
    let (unique_a, unique_b) = (unique_a as usize, unique_b as usize);
    let (a, a_cons) = read_list(data, 32, count_a, 0, zkey_num_vars, zkey_domain)?;
    let second = 32 + count_a * 48;
    let (b, b_cons) = read_list(data, second, count_b, 1, zkey_num_vars, zkey_domain)?;
    let index = 32 + (count_a + count_b) * 48;
    let a_starts = read_starts(data, index, unique_a);
    let b_starts = read_starts(data, index + unique_a * 4, unique_b);
    let a_constraint = group_constraints(&a_starts, &a_cons)?;
    let b_constraint = group_constraints(&b_starts, &b_cons)?;
    proof {
        let (v, d) = (zkey_num_vars as int, zkey_domain as int);
        lemma_list_valid(data@, 32, count_a as nat, a_starts@, 0, v, d);
        lemma_list_valid(data@, second as int, count_b as nat, b_starts@, 1, v, d);
    }
    Ok(CoefficientGroups { a, a_starts, a_constraint, b, b_starts, b_constraint })
}

// ---- writing coefficient files ---------------------------------------------------------------

/// One record of a file: its constraint and its coefficient.
pub struct Row {
    /// Constraint index.
    pub constraint: u32,
    /// The coefficient.
    pub coeff: GroupedCoeff,
}

/// The 48 bytes of a record; the value is stored as `v·R²`, the element `v·R` in Montgomery limbs.
pub open spec fn row_bytes(row: Row, matrix: int) -> Seq<u8> {
    bytes::le_bytes(matrix, 4) + bytes::le_bytes(row.constraint as int, 4) + bytes::le_bytes(
        row.coeff.signal as int,
        4,
    ) + bytes::le_bytes(0, 4) + bytes::le_bytes((row.coeff.value * element_r()).raw(), 32)
}

/// The element `R`, whose Montgomery limbs are `R²`.
pub open spec fn element_r() -> Fr {
    Fr::of_raw(limbs::value(consts::FR_R2))
}

/// The bytes of consecutive records.
pub open spec fn rows_bytes(rows: Seq<Row>, matrix: int) -> Seq<u8>
    decreases rows.len(),
{
    if rows.len() == 0 {
        Seq::empty()
    } else {
        rows_bytes(rows.drop_last(), matrix) + row_bytes(rows.last(), matrix)
    }
}

/// The bytes of consecutive start indices.
pub open spec fn starts_bytes(starts: Seq<u32>) -> Seq<u8>
    decreases starts.len(),
{
    if starts.len() == 0 {
        Seq::empty()
    } else {
        starts_bytes(starts.drop_last()) + bytes::le_bytes(starts.last() as int, 4)
    }
}

/// The records of group `g`.
pub open spec fn group_rows(
    coeffs: Seq<GroupedCoeff>,
    starts: Seq<u32>,
    constraints: Seq<u32>,
    g: int,
) -> Seq<Row> {
    Seq::new(
        (starts[g + 1] - starts[g]) as nat,
        |j: int| Row { constraint: constraints[g], coeff: coeffs[starts[g] + j] },
    )
}

/// The records of the first `n` groups.
pub open spec fn rows_of(
    coeffs: Seq<GroupedCoeff>,
    starts: Seq<u32>,
    constraints: Seq<u32>,
    n: int,
) -> Seq<Row>
    decreases n,
{
    if n <= 0 {
        Seq::empty()
    } else {
        rows_of(coeffs, starts, constraints, n - 1) + group_rows(coeffs, starts, constraints, n - 1)
    }
}

/// Every group is a range of the coefficients and has a constraint.
pub open spec fn writable(
    coeffs: Seq<GroupedCoeff>,
    starts: Seq<u32>,
    constraints: Seq<u32>,
) -> bool {
    &&& starts.len() <= constraints.len() + 1
    &&& forall|g: int, h: int|
        0 <= g <= h < starts.len() ==> #[trigger] starts[g] <= #[trigger] starts[h]
    &&& forall|g: int| 0 < g < starts.len() ==> #[trigger] starts[g] <= coeffs.len()
}

/// The header with its four counts.
pub open spec fn head_bytes(c: (int, int, int, int)) -> Seq<u8> {
    bytes::le_bytes(c.0, 8) + bytes::le_bytes(c.1, 8) + bytes::le_bytes(c.2, 8)
        + bytes::le_bytes(c.3, 8)
}

/// The counts of coefficient groups.
pub open spec fn counts_of(groups: CoefficientGroups) -> (int, int, int, int) {
    (
        groups.a@.len() as int,
        groups.b@.len() as int,
        groups.a_starts@.len() as int,
        groups.b_starts@.len() as int,
    )
}

/// The bytes of a list of groups.
pub open spec fn list_bytes(
    coeffs: Seq<GroupedCoeff>,
    starts: Seq<u32>,
    constraints: Seq<u32>,
    matrix: int,
) -> Seq<u8> {
    rows_bytes(rows_of(coeffs, starts, constraints, group_count(starts) as int), matrix)
}

/// The file that holds coefficient groups.
pub open spec fn coeffs_file(groups: CoefficientGroups) -> Seq<u8> {
    head_bytes(counts_of(groups)) + list_bytes(
        groups.a@,
        groups.a_starts@,
        groups.a_constraint@,
        0,
    ) + list_bytes(groups.b@, groups.b_starts@, groups.b_constraint@, 1) + starts_bytes(
        groups.a_starts@,
    ) + starts_bytes(groups.b_starts@)
}

/// Append bytes.
fn append(out: &mut Vec<u8>, s: &[u8])
    ensures
        final(out)@ == old(out)@ + s@,
{
    let ghost before = out@;
    let mut i: usize = 0;
    while i < s.len()
        invariant
            i <= s@.len(),
            out@ == before + s@.take(i as int),
        decreases s@.len() - i,
    {
        out.push(s[i]);
        i = i + 1;
        proof {
            assert(out@ =~= before + s@.take(i as int));
        }
    }
    proof {
        assert(s@.take(i as int) =~= s@);
    }
}

/// Append one record.
fn write_row(out: &mut Vec<u8>, c: &GroupedCoeff, constraint: u32, matrix: u32, r2: &Fr)
    requires
        *r2 == element_r(),
    ensures
        final(out)@ == old(out)@ + row_bytes(Row { constraint, coeff: *c }, matrix as int),
{
    let ghost before = out@;
    append(out, &u32_bytes(matrix));
    append(out, &u32_bytes(constraint));
    append(out, &u32_bytes(c.signal));
    append(out, &u32_bytes(0));
    // stored as v·R²: the element v·R in Montgomery limbs
    let raw = c.value.mul(r2).montgomery_limbs();
    append(out, &limbs_bytes(&raw));
    proof {
        assert(out@ =~= before + row_bytes(Row { constraint, coeff: *c }, matrix as int));
    }
}

/// Append the records of all groups.
fn write_list(
    out: &mut Vec<u8>,
    coeffs: &[GroupedCoeff],
    starts: &[u32],
    constraints: &[u32],
    matrix: u32,
    r2: &Fr,
)
    requires
        writable(coeffs@, starts@, constraints@),
        *r2 == element_r(),
    ensures
        final(out)@ == old(out)@ + rows_bytes(
            rows_of(coeffs@, starts@, constraints@, group_count(starts@) as int),
            matrix as int,
        ),
{
    let ghost before = out@;
    let n = if starts.len() == 0 {
        0
    } else {
        starts.len() - 1
    };
    let mut g: usize = 0;
    proof {
        assert(out@ =~= before + rows_bytes(
            rows_of(coeffs@, starts@, constraints@, 0),
            matrix as int,
        ));
    }
    while g < n
        invariant
            g <= n,
            n == group_count(starts@),
            n < starts@.len() || n == 0,
            writable(coeffs@, starts@, constraints@),
            *r2 == element_r(),
            out@ == before + rows_bytes(
                rows_of(coeffs@, starts@, constraints@, g as int),
                matrix as int,
            ),
        decreases n - g,
    {
        assert(starts@[g as int] <= starts@[g + 1]);
        let from = starts[g] as usize;
        let to = starts[g + 1] as usize;
        let ghost done = rows_of(coeffs@, starts@, constraints@, g as int);
        let ghost group = group_rows(coeffs@, starts@, constraints@, g as int);
        let mut i = from;
        proof {
            assert(done + group.take(0) =~= done);
        }
        while i < to
            invariant
                from <= i <= to <= coeffs@.len(),
                g < constraints@.len(),
                *r2 == element_r(),
                group == group_rows(coeffs@, starts@, constraints@, g as int),
                from == starts@[g as int],
                to == starts@[g + 1],
                out@ == before + rows_bytes(done + group.take(i - from), matrix as int),
            decreases to - i,
        {
            write_row(out, &coeffs[i], constraints[g], matrix, r2);
            proof {
                let rows = done + group.take(i + 1 - from);
                assert(rows.drop_last() =~= done + group.take(i - from));
                assert(rows.last() == group[i - from]);
                assert(out@ =~= before + rows_bytes(rows, matrix as int));
            }
            i = i + 1;
        }
        proof {
            assert(group.take(to - from) =~= group);
        }
        g = g + 1;
    }
}

/// Append start indices.
fn write_starts(out: &mut Vec<u8>, starts: &[u32])
    ensures
        final(out)@ == old(out)@ + starts_bytes(starts@),
{
    let ghost before = out@;
    let mut i: usize = 0;
    proof {
        assert(out@ =~= before + starts_bytes(starts@.take(0)));
    }
    while i < starts.len()
        invariant
            i <= starts@.len(),
            out@ == before + starts_bytes(starts@.take(i as int)),
        decreases starts@.len() - i,
    {
        append(out, &u32_bytes(starts[i]));
        proof {
            assert(starts@.take(i + 1).drop_last() =~= starts@.take(i as int));
            assert(out@ =~= before + starts_bytes(starts@.take(i + 1)));
        }
        i = i + 1;
    }
    proof {
        assert(starts@.take(i as int) =~= starts@);
    }
}

/// Write coefficient groups in the `preprocessed_coeffs.bin` layout, so the
/// artifact can be produced for a new circuit.
pub fn write_preprocessed_coeffs(groups: &CoefficientGroups) -> (out: Vec<u8>)
    requires
        writable(groups.a@, groups.a_starts@, groups.a_constraint@),
        writable(groups.b@, groups.b_starts@, groups.b_constraint@),
    ensures
        out@ == coeffs_file(*groups),
{
    let r2 = Fr::from_montgomery_limbs(consts::FR_R2);  // element R
    proof {
        Fr::lemma_raw(r2);
    }
    let mut out: Vec<u8> = Vec::new();
    append(&mut out, &u64_bytes(groups.a.len() as u64));
    append(&mut out, &u64_bytes(groups.b.len() as u64));
    append(&mut out, &u64_bytes(groups.a_starts.len() as u64));
    append(&mut out, &u64_bytes(groups.b_starts.len() as u64));
    write_list(&mut out, &groups.a, &groups.a_starts, &groups.a_constraint, 0, &r2);
    write_list(&mut out, &groups.b, &groups.b_starts, &groups.b_constraint, 1, &r2);
    write_starts(&mut out, &groups.a_starts);
    write_starts(&mut out, &groups.b_starts);
    proof {
        assert(out@ =~= coeffs_file(*groups));
    }
    out
}

/// The first record of a list that is not one is what the list is refused for: of the other
/// matrix, at a constraint or a signal that the key does not have, or with a value that is not
/// below the scalar modulus. A list without such a record is accepted.
pub proof fn lemma_bad_record_is_first(
    s: Seq<u8>,
    base: int,
    n: int,
    matrix: int,
    vars: int,
    domain: int,
)
    requires
        0 <= n <= usize::MAX,
    ensures
        match records_error(s, base, n, matrix, vars, domain) {
            None => forall|i: int|
                0 <= i < n ==> sized(s, #[trigger] (base + 48 * i), matrix, vars, domain)
                    && bytes::le(s.subrange(base + 48 * i + 16, base + 48 * i + 48))
                    < certificates::r(),
            Some(e) => exists|i: int|
                {
                    &&& 0 <= i < n
                    &&& forall|j: int|
                        0 <= j < i ==> sized(s, #[trigger] (base + 48 * j), matrix, vars, domain)
                            && bytes::le(s.subrange(base + 48 * j + 16, base + 48 * j + 48))
                            < certificates::r()
                    &&& if sized(s, #[trigger] (base + 48 * i), matrix, vars, domain) {
                        e == ArtifactError::Value(i as usize) && bytes::le(
                            s.subrange(base + 48 * i + 16, base + 48 * i + 48),
                        ) >= certificates::r()
                    } else {
                        e == ArtifactError::Record(i as usize)
                    }
                },
        },
    decreases n,
{
    if n > 0 {
        lemma_bad_record_is_first(s, base, n - 1, matrix, vars, domain);
        assert(base + (n - 1) * 48 == base + 48 * (n - 1));
        let last = base + 48 * (n - 1);
        if records_error(s, base, n - 1, matrix, vars, domain) is None {
            assert(sized(s, last, matrix, vars, domain) || !sized(s, last, matrix, vars, domain));
        }
    }
}

/// The three numbers that a record begins with: its matrix, a constraint of the domain, and a
/// signal.
pub open spec fn sized(s: Seq<u8>, off: int, matrix: int, vars: int, domain: int) -> bool {
    &&& bytes::le(s.subrange(off, off + 4)) == matrix
    &&& bytes::le(s.subrange(off + 4, off + 8)) < domain
    &&& bytes::le(s.subrange(off + 8, off + 12)) < vars
}

/// A coefficient file is refused for its size before anything else: a file without a whole
/// header is truncated, and one whose size is not what its four counts come to is named with
/// both sizes.
pub proof fn lemma_coeffs_size_decides(s: Seq<u8>, vars: int, domain: int)
    requires
        s.len() <= usize::MAX,
    ensures
        coeffs_error(s, vars, domain) == Some(ArtifactError::Truncated) <==> s.len() < 32,
        s.len() >= 32 ==> {
            let size = 32 + 48 * bytes::le(s.subrange(0, 8)) + 48 * bytes::le(s.subrange(8, 16))
                + 4 * bytes::le(s.subrange(16, 24)) + 4 * bytes::le(s.subrange(24, 32));
            &&& (coeffs_error(s, vars, domain) is Some && coeffs_error(s, vars, domain)->0 is Size)
                <==> s.len() != size
            &&& s.len() != size && size <= usize::MAX ==> coeffs_error(s, vars, domain) == Some(
                ArtifactError::Size { expected: size as usize, found: s.len() as usize },
            )
        },
{
    let c = counts(s);
    lemma_records_name_records(s, 32, c.0, 0, vars, domain);
    lemma_records_name_records(s, 32 + c.0 * 48, c.1, 1, vars, domain);
    let index = 32 + (c.0 + c.1) * 48;
    let (sa, sb) = (starts_at(s, index, c.2 as nat), starts_at(s, index + c.2 * 4, c.3 as nat));
    lemma_groups_name_records(sa, constraints_at(s, 32, c.0 as nat), group_count(sa) as int);
    lemma_groups_name_records(
        sb,
        constraints_at(s, 32 + c.0 * 48, c.1 as nat),
        group_count(sb) as int,
    );
}

proof fn lemma_records_name_records(
    s: Seq<u8>,
    base: int,
    n: int,
    matrix: int,
    vars: int,
    domain: int,
)
    ensures
        records_error(s, base, n, matrix, vars, domain) matches Some(e) ==> e is Record || e is Value,
    decreases n,
{
    if n > 0 {
        lemma_records_name_records(s, base, n - 1, matrix, vars, domain);
    }
}

proof fn lemma_groups_name_records(starts: Seq<u32>, constraints: Seq<u32>, n: int)
    ensures
        groups_error(starts, constraints, n) matches Some(e) ==> e is Record,
    decreases n,
{
    if n > 0 {
        lemma_groups_name_records(starts, constraints, n - 1);
    }
}

// ---- reading gives back what was written -------------------------------------------------------

/// Coefficients cut into nonempty groups from the first to the last, at ascending constraints,
/// with indices below the given bounds and reduced values.
pub open spec fn valid_list(
    coeffs: Seq<GroupedCoeff>,
    starts: Seq<u32>,
    constraints: Seq<u32>,
    vars: int,
    domain: int,
) -> bool {
    &&& starts.len() == constraints.len() + 1
    &&& starts[0] == 0
    &&& starts.last() == coeffs.len()
    &&& forall|g: int, h: int|
        0 <= g < h < starts.len() ==> #[trigger] starts[g] < #[trigger] starts[h]
    &&& forall|g: int| 0 <= g < constraints.len() ==> #[trigger] constraints[g] < domain
    &&& forall|g: int, h: int|
        0 <= g < h < constraints.len() ==> #[trigger] constraints[g] < #[trigger] constraints[h]
    &&& forall|i: int|
        0 <= i < coeffs.len() ==> (#[trigger] coeffs[i]).signal < vars && coeffs[i].value.wf()
}

/// A list without errors has none at any record.
proof fn lemma_record_fine(
    s: Seq<u8>,
    base: int,
    n: int,
    i: int,
    matrix: int,
    vars: int,
    domain: int,
)
    requires
        0 <= i < n,
        0 <= base,
        base + n * 48 <= s.len(),
        records_error(s, base, n, matrix, vars, domain) is None,
    ensures
        record_at(s, base, i).signal < vars,
        record_at(s, base, i).value.wf(),
        constraint_at(s, base, i) < domain,
    decreases n,
{
    broadcast use ring::group_wf;

    if i < n - 1 {
        lemma_record_fine(s, base, n - 1, i, matrix, vars, domain);
    } else {
        let rec = base + i * 48;
        bytes::lemma_word_sizes();
        field::lemma_fr_modulus();
        bytes::lemma_le_bound(s.subrange(rec + 4, rec + 8));
        bytes::lemma_le_bound(s.subrange(rec + 8, rec + 12));
        bytes::lemma_le_bound(s.subrange(rec + 16, rec + 48));
        Fr::lemma_of_raw(zkey::stored_value(s, rec + 16));
        Fr::lemma_of_raw(1);
    }
}

/// Groups without errors have none at any group.
pub(crate) proof fn lemma_group_fine(starts: Seq<u32>, constraints: Seq<u32>, n: int, g: int)
    requires
        0 <= g < n,
        groups_error(starts, constraints, n) is None,
    ensures
        uniform(starts, constraints, g),
        in_order(starts, constraints, g),
    decreases n,
{
    if g < n - 1 {
        lemma_group_fine(starts, constraints, n - 1, g);
    }
}

/// Groups without errors start one after another, and at ascending constraints.
proof fn lemma_groups_ascend(starts: Seq<u32>, constraints: Seq<u32>, n: int, g: int, h: int)
    requires
        0 <= g < h <= n,
        groups_error(starts, constraints, n) is None,
    ensures
        starts[g] < starts[h] <= constraints.len(),
        h < n ==> constraints[starts[g] as int] < constraints[starts[h] as int],
    decreases h - g,
{
    lemma_group_fine(starts, constraints, n, h - 1);
    if h < n {
        lemma_group_fine(starts, constraints, n, h);
    }
    if g < h - 1 {
        lemma_groups_ascend(starts, constraints, n, g, h - 1);
    }
}

/// What a list without errors holds is valid.
pub(crate) proof fn lemma_list_valid(
    s: Seq<u8>,
    base: int,
    n: nat,
    starts: Seq<u32>,
    matrix: int,
    vars: int,
    domain: int,
)
    requires
        0 <= base,
        base + n * 48 <= s.len(),
        records_error(s, base, n as int, matrix, vars, domain) is None,
        starts_error(starts, constraints_at(s, base, n)) is None,
    ensures
        valid_list(
            list_at(s, base, n),
            starts,
            group_constraints_of(starts, constraints_at(s, base, n)),
            vars,
            domain,
        ),
{
    let cons = constraints_at(s, base, n);
    let (coeffs, constraints) = (list_at(s, base, n), group_constraints_of(starts, cons));
    let count = group_count(starts) as int;
    assert forall|g: int, h: int| 0 <= g < h < starts.len() implies #[trigger] starts[g]
        < #[trigger] starts[h] by {
        lemma_groups_ascend(starts, cons, count, g, h);
    }
    assert forall|g: int| 0 <= g < constraints.len() implies #[trigger] constraints[g]
        < domain by {
        lemma_group_fine(starts, cons, count, g);
        lemma_record_fine(s, base, n as int, starts[g] as int, matrix, vars, domain);
    }
    assert forall|g: int, h: int| 0 <= g < h < constraints.len() implies #[trigger] constraints[g]
        < #[trigger] constraints[h] by {
        lemma_groups_ascend(starts, cons, count, g, h);
    }
    assert forall|i: int| 0 <= i < coeffs.len() implies (#[trigger] coeffs[i]).signal < vars
        && coeffs[i].value.wf() by {
        lemma_record_fine(s, base, n as int, i, matrix, vars, domain);
    }
}

/// A part of the middle of three strings.
proof fn lemma_middle(pre: Seq<u8>, mid: Seq<u8>, post: Seq<u8>, a: int, b: int)
    requires
        0 <= a <= b <= mid.len(),
    ensures
        (pre + mid + post).subrange(pre.len() + a, pre.len() + b) == mid.subrange(a, b),
{
    assert((pre + mid + post).subrange(pre.len() + a, pre.len() + b) =~= mid.subrange(a, b));
}

/// Where the records of a list stand in its bytes.
proof fn lemma_rows_bytes(rows: Seq<Row>, matrix: int, i: int)
    requires
        0 <= i <= rows.len(),
    ensures
        rows_bytes(rows, matrix).len() == 48 * rows.len(),
        i < rows.len() ==> rows_bytes(rows, matrix).subrange(48 * i, 48 * i + 48) == row_bytes(
            rows[i],
            matrix,
        ),
    decreases rows.len(),
{
    if rows.len() > 0 {
        let front = rows.drop_last();
        let n = front.len() as int;
        let (x, y) = (rows_bytes(front, matrix), row_bytes(rows.last(), matrix));
        if i < n {
            lemma_rows_bytes(front, matrix, i);
            assert((x + y).subrange(48 * i, 48 * i + 48) =~= x.subrange(48 * i, 48 * i + 48));
        } else {
            lemma_rows_bytes(front, matrix, n);
            assert((x + y).subrange(48 * n, 48 * n + 48) =~= y);
        }
    }
}

/// Where the start indices stand in their bytes.
proof fn lemma_starts_bytes(starts: Seq<u32>, i: int)
    requires
        0 <= i <= starts.len(),
    ensures
        starts_bytes(starts).len() == 4 * starts.len(),
        i < starts.len() ==> starts_bytes(starts).subrange(4 * i, 4 * i + 4) == bytes::le_bytes(
            starts[i] as int,
            4,
        ),
    decreases starts.len(),
{
    if starts.len() > 0 {
        let front = starts.drop_last();
        let n = front.len() as int;
        let (x, y) = (starts_bytes(front), bytes::le_bytes(starts.last() as int, 4));
        if i < n {
            lemma_starts_bytes(front, i);
            assert((x + y).subrange(4 * i, 4 * i + 4) =~= x.subrange(4 * i, 4 * i + 4));
        } else {
            lemma_starts_bytes(front, n);
            assert((x + y).subrange(4 * n, 4 * n + 4) =~= y);
        }
    }
}

/// The records of valid groups, in order.
proof fn lemma_rows_of(
    coeffs: Seq<GroupedCoeff>,
    starts: Seq<u32>,
    constraints: Seq<u32>,
    vars: int,
    domain: int,
    n: int,
)
    requires
        valid_list(coeffs, starts, constraints, vars, domain),
        0 <= n <= group_count(starts),
    ensures
        rows_of(coeffs, starts, constraints, n).len() == (if n == 0 {
            0
        } else {
            starts[n] as int
        }),
        forall|g: int, i: int|
            0 <= g < n && starts[g] <= i < starts[g + 1] ==> (#[trigger] rows_of(
                coeffs,
                starts,
                constraints,
                n,
            )[i]) == (Row { constraint: #[trigger] constraints[g], coeff: coeffs[i] }),
    decreases n,
{
    if n > 0 {
        lemma_rows_of(coeffs, starts, constraints, vars, domain, n - 1);
        let front = rows_of(coeffs, starts, constraints, n - 1);
        let group = group_rows(coeffs, starts, constraints, n - 1);
        let rows = rows_of(coeffs, starts, constraints, n);
        assert(starts[n - 1] < starts[n]);
        assert forall|g: int, i: int|
            0 <= g < n && starts[g] <= i < starts[g + 1] implies (#[trigger] rows[i]) == (Row {
            constraint: #[trigger] constraints[g],
            coeff: coeffs[i],
        }) by {
            if g < n - 1 {
                lemma_starts_ascend(coeffs, starts, constraints, vars, domain, g + 1, n - 1);
                assert(front[i] == (Row { constraint: constraints[g], coeff: coeffs[i] }));
            } else {
                assert(rows[i] == group[i - starts[n - 1]]);
            }
        }
    }
}

/// Starts of valid groups ascend.
proof fn lemma_starts_ascend(
    coeffs: Seq<GroupedCoeff>,
    starts: Seq<u32>,
    constraints: Seq<u32>,
    vars: int,
    domain: int,
    g: int,
    h: int,
)
    requires
        valid_list(coeffs, starts, constraints, vars, domain),
        0 <= g <= h < starts.len(),
    ensures
        starts[g] <= starts[h],
    decreases h - g,
{
    if g < h {
        lemma_starts_ascend(coeffs, starts, constraints, vars, domain, g, h - 1);
        assert(starts[h - 1] < starts[h - 1 + 1]);
    }
}

/// Every record belongs to a group.
proof fn lemma_group_exists(
    coeffs: Seq<GroupedCoeff>,
    starts: Seq<u32>,
    constraints: Seq<u32>,
    vars: int,
    domain: int,
    i: int,
    n: int,
) -> (g: int)
    requires
        valid_list(coeffs, starts, constraints, vars, domain),
        0 < n < starts.len(),
        0 <= i < starts[n],
    ensures
        0 <= g < n,
        starts[g] <= i < starts[g + 1],
    decreases n,
{
    assert(starts[n - 1] < starts[n - 1 + 1]);
    if starts[n - 1] <= i {
        n - 1
    } else {
        assert(n - 1 > 0);
        lemma_group_exists(coeffs, starts, constraints, vars, domain, i, n - 1)
    }
}

/// The elements `R` and `R⁻¹` cancel, so a value that was stored reads back.
proof fn lemma_value_round_trip(v: Fr)
    requires
        v.wf(),
    ensures
        (v * element_r()).wf(),
        0 <= (v * element_r()).raw() < certificates::r(),
        Fr::of_raw((v * element_r()).raw()) * Fr::of_raw(1) == v,
{
    let p = field::fr_modulus();
    field::lemma_fr_modulus();
    let r2 = limbs::value(consts::FR_R2);
    limbs::lemma_value(consts::FR_R2);
    lemma_mod_bound(limbs::radix() * limbs::radix(), p.m);
    let (x, y) = (element_r(), Fr::of_raw(1));
    Fr::lemma_of_raw(r2);
    Fr::lemma_of_raw(1);
    Fr::lemma_ops(x, y);
    Fr::lemma_ops(v, x);
    Fr::lemma_raw(v * x);
    Fr::lemma_constants();
    // (R²·R⁻¹)·R⁻¹ ≡ 1
    assert((x * y).val() == 1) by {
        let (b, i) = (limbs::radix(), p.rinv);
        assert(x.val() == (r2 * i) % p.m);
        assert(y.val() == (1 * i) % p.m);
        lemma_mul_mod_noop(r2 * i, 1 * i, p.m);
        assert((x.val() * y.val()) % p.m == ((r2 * i) * (1 * i)) % p.m);
        lemma_mul_mod_noop_left(b * b, i * i, p.m);
        assert((r2 * i) * (1 * i) == r2 * (i * i)) by (nonlinear_arith);
        assert((b * b) * (i * i) == (b * i) * (b * i)) by (nonlinear_arith);
        assert((r2 * (i * i)) % p.m == ((b * i) * (b * i)) % p.m);
        lemma_mul_mod_noop(b * i, b * i, p.m);
        assert((b * i) % p.m == 1);
        lemma_small_mod(1, p.m as nat);
        assert(1int * 1int == 1);
    }
    Fr::lemma_val(x * y);
    assert(x * y == Fr::one_spec());
    Fr::multiplicative(v, x, y);
    Fr::multiplicative(v, x, y);
}

/// A record reads back.
proof fn lemma_row_reads(row: Row, matrix: int)
    requires
        0 <= matrix <= 1,
        row.coeff.value.wf(),
    ensures
        ({
            let s = row_bytes(row, matrix);
            &&& s.len() == 48
            &&& zkey::word(s, 0) == matrix
            &&& zkey::word(s, 4) == row.constraint
            &&& zkey::word(s, 8) == row.coeff.signal
            &&& zkey::stored_value(s, 16) < certificates::r()
            &&& zkey::value_at(s, 16) == row.coeff.value
        }),
{
    let s = row_bytes(row, matrix);
    let raw = (row.coeff.value * element_r()).raw();
    lemma_value_round_trip(row.coeff.value);
    bytes::lemma_word_sizes();
    bytes::lemma_le_of_bytes(matrix, 4);
    bytes::lemma_le_of_bytes(row.constraint as int, 4);
    bytes::lemma_le_of_bytes(row.coeff.signal as int, 4);
    bytes::lemma_le_of_bytes(raw, 32);
    assert(s.subrange(0, 4) =~= bytes::le_bytes(matrix, 4));
    assert(s.subrange(4, 8) =~= bytes::le_bytes(row.constraint as int, 4));
    assert(s.subrange(8, 12) =~= bytes::le_bytes(row.coeff.signal as int, 4));
    assert(s.subrange(16, 48) =~= bytes::le_bytes(raw, 32));
}

/// A list reads back from the middle of a file.
proof fn lemma_list_reads(
    pre: Seq<u8>,
    post: Seq<u8>,
    coeffs: Seq<GroupedCoeff>,
    starts: Seq<u32>,
    constraints: Seq<u32>,
    matrix: int,
    vars: int,
    domain: int,
)
    requires
        valid_list(coeffs, starts, constraints, vars, domain),
        0 <= matrix <= 1,
    ensures
        list_bytes(coeffs, starts, constraints, matrix).len() == 48 * coeffs.len(),
        list_reads(
            pre + list_bytes(coeffs, starts, constraints, matrix) + post,
            pre.len() as int,
            coeffs,
            starts,
            constraints,
            matrix,
            vars,
            domain,
        ),
{
    let count = group_count(starts) as int;
    let rows = rows_of(coeffs, starts, constraints, count);
    let mid = rows_bytes(rows, matrix);
    let s = pre + mid + post;
    let base = pre.len() as int;
    let n = coeffs.len();
    let cons = constraints_at(s, base, n);
    lemma_rows_of(coeffs, starts, constraints, vars, domain, count);
    lemma_rows_bytes(rows, matrix, 0);
    assert forall|g: int, i: int| 0 <= g < count && starts[g] <= i < starts[g + 1] implies (
    #[trigger] cons[i]) == #[trigger] constraints[g] && i < n && record_error(
        s,
        base,
        i,
        matrix,
        vars,
        domain,
    ) is None && record_at(s, base, i) == coeffs[i] by {
        lemma_starts_ascend(coeffs, starts, constraints, vars, domain, g + 1, count);
        assert(rows[i] == (Row { constraint: constraints[g], coeff: coeffs[i] }));
        lemma_row_in_file(pre, post, rows, matrix, i);
        assert(coeffs[i].signal < vars);
    }
    assert forall|i: int| 0 <= i < n implies #[trigger] list_at(s, base, n)[i] == coeffs[i] by {
        let g = lemma_group_exists(coeffs, starts, constraints, vars, domain, i, count);
        assert(cons[i] == constraints[g]);
    }
    assert forall|i: int| 0 <= i < n implies #[trigger] record_error(
        s,
        base,
        i,
        matrix,
        vars,
        domain,
    ) is None by {
        let g = lemma_group_exists(coeffs, starts, constraints, vars, domain, i, count);
        assert(cons[i] == constraints[g]);
    }
    assert(list_at(s, base, n) =~= coeffs);
    lemma_no_record_error(s, base, n as int, matrix, vars, domain);
    assert forall|g: int| 0 <= g < count implies #[trigger] uniform(starts, cons, g) && in_order(
        starts,
        cons,
        g,
    ) by {
        assert(starts[g] < starts[g + 1] <= coeffs.len());
        if g > 0 {
            assert(starts[g - 1] < starts[g - 1 + 1] <= coeffs.len());
            assert(cons[starts[g - 1] as int] == constraints[g - 1]);
            assert(constraints[g - 1] < constraints[g]);
        }
        assert(cons[starts[g] as int] == constraints[g]);
        assert forall|i: int| starts[g] <= i < starts[g + 1] implies #[trigger] cons[i]
            == cons[starts[g] as int] by {
            assert(cons[i] == constraints[g]);
        }
    }
    lemma_no_group_error(starts, cons, count);
    assert forall|g: int| 0 <= g < count implies #[trigger] group_constraints_of(starts, cons)[g]
        == constraints[g] by {
        assert(starts[g] < starts[g + 1] <= coeffs.len());
        assert(cons[starts[g] as int] == constraints[g]);
    }
    assert(group_constraints_of(starts, cons) =~= constraints);
}

/// One record inside a file.
proof fn lemma_row_in_file(pre: Seq<u8>, post: Seq<u8>, rows: Seq<Row>, matrix: int, i: int)
    requires
        0 <= i < rows.len(),
        0 <= matrix <= 1,
        rows[i].coeff.value.wf(),
    ensures
        ({
            let s = pre + rows_bytes(rows, matrix) + post;
            let base = pre.len() as int;
            let rec = base + i * 48;
            &&& zkey::word(s, rec) == matrix
            &&& zkey::word(s, rec + 4) == rows[i].constraint
            &&& zkey::word(s, rec + 8) == rows[i].coeff.signal
            &&& zkey::stored_value(s, rec + 16) < certificates::r()
            &&& record_at(s, base, i) == rows[i].coeff
            &&& constraint_at(s, base, i) == rows[i].constraint
        }),
{
    let mid = rows_bytes(rows, matrix);
    let row = row_bytes(rows[i], matrix);
    let k = 48 * i;
    lemma_rows_bytes(rows, matrix, i);
    lemma_row_reads(rows[i], matrix);
    lemma_middle(pre, mid, post, k, k + 4);
    lemma_middle(pre, mid, post, k + 4, k + 8);
    lemma_middle(pre, mid, post, k + 8, k + 12);
    lemma_middle(pre, mid, post, k + 16, k + 48);
    assert(mid.subrange(k, k + 4) =~= row.subrange(0, 4));
    assert(mid.subrange(k + 4, k + 8) =~= row.subrange(4, 8));
    assert(mid.subrange(k + 8, k + 12) =~= row.subrange(8, 12));
    assert(mid.subrange(k + 16, k + 48) =~= row.subrange(16, 48));
}

proof fn lemma_no_record_error(
    s: Seq<u8>,
    base: int,
    n: int,
    matrix: int,
    vars: int,
    domain: int,
)
    requires
        forall|i: int|
            0 <= i < n ==> #[trigger] record_error(s, base, i, matrix, vars, domain) is None,
    ensures
        records_error(s, base, n, matrix, vars, domain) is None,
    decreases n,
{
    if n > 0 {
        lemma_no_record_error(s, base, n - 1, matrix, vars, domain);
        assert(record_error(s, base, n - 1, matrix, vars, domain) is None);
    }
}

proof fn lemma_no_group_error(starts: Seq<u32>, constraints: Seq<u32>, n: int)
    requires
        forall|g: int|
            0 <= g < n ==> #[trigger] uniform(starts, constraints, g) && in_order(
                starts,
                constraints,
                g,
            ),
    ensures
        groups_error(starts, constraints, n) is None,
    decreases n,
{
    if n > 0 {
        lemma_no_group_error(starts, constraints, n - 1);
        assert(uniform(starts, constraints, n - 1));
    }
}

/// Start indices read back from the middle of a file.
proof fn lemma_starts_read(pre: Seq<u8>, post: Seq<u8>, starts: Seq<u32>)
    ensures
        starts_at(pre + starts_bytes(starts) + post, pre.len() as int, starts.len()) == starts,
        starts_bytes(starts).len() == 4 * starts.len(),
{
    let mid = starts_bytes(starts);
    let s = pre + mid + post;
    bytes::lemma_word_sizes();
    lemma_starts_bytes(starts, 0);
    assert forall|i: int| 0 <= i < starts.len() implies #[trigger] starts_at(
        s,
        pre.len() as int,
        starts.len(),
    )[i] == starts[i] by {
        lemma_starts_bytes(starts, i);
        lemma_middle(pre, mid, post, 4 * i, 4 * i + 4);
        bytes::lemma_le_of_bytes(starts[i] as int, 4);
    }
    assert(starts_at(s, pre.len() as int, starts.len()) =~= starts);
}

/// The four counts read back from the head of a file.
proof fn lemma_counts_read(c: (int, int, int, int), tail: Seq<u8>)
    requires
        0 <= c.0 <= u64::MAX,
        0 <= c.1 <= u64::MAX,
        0 <= c.2 <= u64::MAX,
        0 <= c.3 <= u64::MAX,
    ensures
        counts(head_bytes(c) + tail) == c,
        head_bytes(c).len() == 32,
{
    let s = head_bytes(c) + tail;
    bytes::lemma_word_sizes();
    bytes::lemma_le_of_bytes(c.0, 8);
    bytes::lemma_le_of_bytes(c.1, 8);
    bytes::lemma_le_of_bytes(c.2, 8);
    bytes::lemma_le_of_bytes(c.3, 8);
    assert(s.subrange(0, 8) =~= bytes::le_bytes(c.0, 8));
    assert(s.subrange(8, 16) =~= bytes::le_bytes(c.1, 8));
    assert(s.subrange(16, 24) =~= bytes::le_bytes(c.2, 8));
    assert(s.subrange(24, 32) =~= bytes::le_bytes(c.3, 8));
}

/// The order in which five strings are joined does not matter.
proof fn lemma_joined(h: Seq<u8>, a: Seq<u8>, b: Seq<u8>, c: Seq<u8>, d: Seq<u8>)
    ensures
        h + a + b + c + d == h + (a + b + c + d),
        h + a + b + c + d == h + a + (b + c + d),
        h + a + b + c + d == (h + a) + b + (c + d),
        h + a + b + c + d == (h + a + b) + c + d,
        h + a + b + c + d == (h + a + b + c) + d + Seq::empty(),
{
    assert(h + a + b + c + d =~= h + (a + b + c + d));
    assert(h + a + b + c + d =~= h + a + (b + c + d));
    assert(h + a + b + c + d =~= (h + a) + b + (c + d));
    assert(h + a + b + c + d =~= (h + a + b + c) + d + Seq::empty());
}

/// What [`lemma_list_reads`] says of a list at `base`.
spec fn list_reads(
    s: Seq<u8>,
    base: int,
    coeffs: Seq<GroupedCoeff>,
    starts: Seq<u32>,
    constraints: Seq<u32>,
    matrix: int,
    vars: int,
    domain: int,
) -> bool {
    let n = coeffs.len();
    let cons = constraints_at(s, base, n);
    &&& records_error(s, base, n as int, matrix, vars, domain) is None
    &&& list_at(s, base, n) == coeffs
    &&& starts_error(starts, cons) is None
    &&& group_constraints_of(starts, cons) == constraints
}

/// The parts of five joined strings read back.
proof fn lemma_parts_read(
    c: (int, int, int, int),
    a: (Seq<GroupedCoeff>, Seq<u32>, Seq<u32>),
    b: (Seq<GroupedCoeff>, Seq<u32>, Seq<u32>),
    s: Seq<u8>,
    vars: int,
    domain: int,
)
    requires
        valid_list(a.0, a.1, a.2, vars, domain),
        valid_list(b.0, b.1, b.2, vars, domain),
        c == (a.0.len() as int, b.0.len() as int, a.1.len() as int, b.1.len() as int),
        c.0 <= u64::MAX && c.1 <= u64::MAX && c.2 <= u64::MAX && c.3 <= u64::MAX,
        s == head_bytes(c) + list_bytes(a.0, a.1, a.2, 0) + list_bytes(b.0, b.1, b.2, 1)
            + starts_bytes(a.1) + starts_bytes(b.1),
    ensures
        counts(s) == c,
        s.len() == declared_size(c),
        list_reads(s, 32, a.0, a.1, a.2, 0, vars, domain),
        list_reads(s, 32 + c.0 * 48, b.0, b.1, b.2, 1, vars, domain),
        starts_at(s, 32 + (c.0 + c.1) * 48, a.1.len()) == a.1,
        starts_at(s, 32 + (c.0 + c.1) * 48 + c.2 * 4, b.1.len()) == b.1,
{
    let h = head_bytes(c);
    let ra = list_bytes(a.0, a.1, a.2, 0);
    let rb = list_bytes(b.0, b.1, b.2, 1);
    let (sa, sb) = (starts_bytes(a.1), starts_bytes(b.1));
    lemma_joined(h, ra, rb, sa, sb);
    lemma_counts_read(c, ra + rb + sa + sb);
    lemma_list_reads(h, rb + sa + sb, a.0, a.1, a.2, 0, vars, domain);
    lemma_list_reads(h + ra, sa + sb, b.0, b.1, b.2, 1, vars, domain);
    lemma_starts_read(h + ra + rb, sb, a.1);
    lemma_starts_read(h + ra + rb + sa, Seq::empty(), b.1);
}

/// Reading a written file gives back the groups that were written, without an error.
pub proof fn lemma_coeffs_round_trip(
    groups: CoefficientGroups,
    read: CoefficientGroups,
    vars: int,
    domain: int,
)
    requires
        valid_list(groups.a@, groups.a_starts@, groups.a_constraint@, vars, domain),
        valid_list(groups.b@, groups.b_starts@, groups.b_constraint@, vars, domain),
        groups.a@.len() <= u64::MAX,
        groups.b@.len() <= u64::MAX,
        groups.a_starts@.len() <= u64::MAX,
        groups.b_starts@.len() <= u64::MAX,
    ensures
        coeffs_error(coeffs_file(groups), vars, domain) is None,
        groups_hold(read, coeffs_file(groups)) ==> {
            &&& read.a@ == groups.a@
            &&& read.a_starts@ == groups.a_starts@
            &&& read.a_constraint@ == groups.a_constraint@
            &&& read.b@ == groups.b@
            &&& read.b_starts@ == groups.b_starts@
            &&& read.b_constraint@ == groups.b_constraint@
        },
{
    let s = coeffs_file(groups);
    let c = counts_of(groups);
    lemma_parts_read(
        c,
        (groups.a@, groups.a_starts@, groups.a_constraint@),
        (groups.b@, groups.b_starts@, groups.b_constraint@),
        s,
        vars,
        domain,
    );
}

// ---- fuzzed sums -----------------------------------------------------------------------------

/// `fuzzed_msm_results.bin`: five Jacobian points
/// (`X, Y, Z` Montgomery limbs): `a`, `b_g1`, `c`, `h` in G1 (96 bytes
/// each), then `b_g2` in G2 (192 bytes); 576 bytes. They hold the negated
/// sums of deterministic "fuzz" scalars that a prover may add to the
/// witness; a prover that does not use the fuzz trick does not need them.
#[derive(Clone, Debug, PartialEq, Eq)]
pub struct FuzzedMsmResults {
    /// −MSM(fuzz, A).
    pub a: Jacobian<Fp>,
    /// −MSM(fuzz, B1).
    pub b_g1: Jacobian<Fp>,
    /// −MSM(fuzz, C).
    pub c: Jacobian<Fp>,
    /// Unused (never computed at setup).
    pub h: Jacobian<Fp>,
    /// −MSM(fuzz, B2).
    pub b_g2: Jacobian<Fp2>,
}

/// Size of `fuzzed_msm_results.bin`.
pub const FRES_SIZE: usize = 576;

/// The G1 point in Jacobian coordinates at `off`.
pub open spec fn jacobian_g1_at(s: Seq<u8>, off: int) -> Jacobian<Fp> {
    Jacobian {
        x: zkey::fp_raw(s, off),
        y: zkey::fp_raw(s, off + 32),
        z: zkey::fp_raw(s, off + 64),
    }
}

/// The pair of base-field elements at `off`.
pub open spec fn fp2_raw(s: Seq<u8>, off: int) -> Fp2 {
    Fp2 { c0: zkey::fp_raw(s, off), c1: zkey::fp_raw(s, off + 32) }
}

/// What a file of fuzzed sums holds.
pub open spec fn fuzzed_of(s: Seq<u8>) -> FuzzedMsmResults {
    FuzzedMsmResults {
        a: jacobian_g1_at(s, 0),
        b_g1: jacobian_g1_at(s, 96),
        c: jacobian_g1_at(s, 192),
        h: jacobian_g1_at(s, 288),
        b_g2: Jacobian { x: fp2_raw(s, 384), y: fp2_raw(s, 448), z: fp2_raw(s, 512) },
    }
}

fn read_fp(data: &[u8], off: usize) -> (r: Fp)
    requires
        off + 32 <= data@.len(),
    ensures
        r == zkey::fp_raw(data@, off as int),
{
    let r = Fp::from_montgomery_limbs(limbs_at(data, off));
    proof {
        Fp::lemma_raw(r);
    }
    r
}

fn read_fp2(data: &[u8], off: usize) -> (r: Fp2)
    requires
        off + 64 <= data@.len(),
    ensures
        r == fp2_raw(data@, off as int),
{
    let len = data.len();
    Fp2::new(read_fp(data, off), read_fp(data, off + 32))
}

fn read_jacobian_g1(data: &[u8], off: usize) -> (r: Jacobian<Fp>)
    requires
        off + 96 <= data@.len(),
    ensures
        r == jacobian_g1_at(data@, off as int),
{
    let len = data.len();
    Jacobian {
        x: read_fp(data, off),
        y: read_fp(data, off + 32),
        z: read_fp(data, off + 64),
    }
}

/// Parse `fuzzed_msm_results.bin`.
pub fn parse_fuzzed_msm_results(data: &[u8]) -> (r: Result<FuzzedMsmResults, ArtifactError>)
    ensures
        match r {
            Ok(f) => data@.len() == FRES_SIZE && f == fuzzed_of(data@),
            Err(e) => data@.len() != FRES_SIZE && e == (ArtifactError::Size {
                expected: FRES_SIZE,
                found: data@.len() as usize,
            }),
        },
{
    if data.len() != FRES_SIZE {
        return Err(ArtifactError::Size { expected: FRES_SIZE, found: data.len() });
    }
    Ok(
        FuzzedMsmResults {
            a: read_jacobian_g1(data, 0),
            b_g1: read_jacobian_g1(data, 96),
            c: read_jacobian_g1(data, 192),
            h: read_jacobian_g1(data, 288),
            b_g2: Jacobian {
                x: read_fp2(data, 384),
                y: read_fp2(data, 448),
                z: read_fp2(data, 512),
            },
        },
    )
}

/// Whether a parsed Jacobian point is the identity.
pub fn is_identity<F: Field>(p: &Jacobian<F>) -> (r: bool)
    ensures
        r == (p.z == F::zero_spec()),
        r == (p.pt() is Infinity),
{
    p.z.is_zero()
}

/// The runs of an ascending coefficient list, as groups of records, are valid.
proof fn lemma_runs_valid(
    list: Seq<Coefficient>,
    starts: Seq<u32>,
    constraints: Seq<u32>,
    vars: int,
    domain: int,
)
    requires
        prover::ascends(list),
        prover::runs(list, starts, constraints),
        forall|i: int|
            0 <= i < list.len() ==> (#[trigger] list[i]).signal < vars && list[i].constraint
                < domain && list[i].value.wf(),
    ensures
        valid_list(prover::records(list), starts, constraints, vars, domain),
{
    let coeffs = prover::records(list);
    let open = starts.drop_last();
    assert forall|g: int, h: int| 0 <= g < h < starts.len() implies #[trigger] starts[g]
        < #[trigger] starts[h] by {
        assert(starts[g] == open[g]);
        if h < starts.len() - 1 {
            assert(starts[h] == open[h]);
        }
    }
    assert forall|g: int| 0 <= g < constraints.len() implies #[trigger] constraints[g] < domain
        && list[open[g] as int].constraint == constraints[g] by {
        if g + 1 < open.len() {
            assert(open[g] < open[g + 1]);
        }
        assert(open[g] < prover::run_end(list, open, g));
        assert(list[open[g] as int].constraint == constraints[g]);
    }
    assert forall|g: int, h: int| 0 <= g < h < constraints.len() implies #[trigger] constraints[g]
        < #[trigger] constraints[h] by {
        let (i, j, k) = (open[g] as int, open[g + 1] as int, open[h] as int);
        assert(constraints[g] != constraints[g + 1]);
        assert(list[i].constraint <= list[j].constraint);
        assert(list[j].constraint <= list[k].constraint);
    }
    if list.len() > 0 {
        assert(starts[0] == open[0]);
    }
}

/// The groups of a consistent and reduced key whose coefficients ascend survive writing and
/// reading: they can be written, the file is accepted for the key's sizes, and what is read from
/// it are the key's groups.
pub proof fn lemma_key_groups_round_trip(
    zkey: Zkey,
    groups: CoefficientGroups,
    read: CoefficientGroups,
)
    requires
        zkey.consistent(),
        prover::values_wf(zkey.coefficients@),
        prover::ascends(zkey.coefficients@),
        groups.of_key(zkey),
    ensures
        writable(groups.a@, groups.a_starts@, groups.a_constraint@),
        writable(groups.b@, groups.b_starts@, groups.b_constraint@),
        coeffs_error(coeffs_file(groups), zkey.num_vars as int, zkey.domain_size as int) is None,
        groups_hold(read, coeffs_file(groups)) ==> read.of_key(zkey),
{
    let cs = zkey.coefficients@;
    let (vars, domain) = (zkey.num_vars as int, zkey.domain_size as int);
    let (la, lb) = (prover::picked(cs, true), prover::picked(cs, false));
    assert forall|i: int| 0 <= i < la.len() implies (#[trigger] la[i]).signal < vars
        && la[i].constraint < domain && la[i].value.wf() by {
        let j = prover::lemma_picked(cs, true, i);
        assert(cs[j].signal < vars);
    }
    assert forall|i: int| 0 <= i < lb.len() implies (#[trigger] lb[i]).signal < vars
        && lb[i].constraint < domain && lb[i].value.wf() by {
        let j = prover::lemma_picked(cs, false, i);
        assert(cs[j].signal < vars);
    }
    prover::lemma_picked_ascends(cs, true);
    prover::lemma_picked_ascends(cs, false);
    prover::lemma_picked_len(cs, true);
    prover::lemma_picked_len(cs, false);
    lemma_runs_valid(la, groups.a_starts@, groups.a_constraint@, vars, domain);
    lemma_runs_valid(lb, groups.b_starts@, groups.b_constraint@, vars, domain);
    lemma_starts_count(
        groups.a@,
        groups.a_starts@,
        groups.a_constraint@,
        vars,
        domain,
        groups.a_starts@.len() - 1,
    );
    lemma_starts_count(
        groups.b@,
        groups.b_starts@,
        groups.b_constraint@,
        vars,
        domain,
        groups.b_starts@.len() - 1,
    );
    lemma_coeffs_round_trip(groups, read, vars, domain);
}

/// There are no more starts than records, but for the end.
proof fn lemma_starts_count(
    coeffs: Seq<GroupedCoeff>,
    starts: Seq<u32>,
    constraints: Seq<u32>,
    vars: int,
    domain: int,
    n: int,
)
    requires
        valid_list(coeffs, starts, constraints, vars, domain),
        0 <= n < starts.len(),
    ensures
        n <= starts[n],
    decreases n,
{
    if n > 0 {
        lemma_starts_count(coeffs, starts, constraints, vars, domain, n - 1);
        assert(starts[n - 1] < starts[n - 1 + 1]);
    }
}

} // verus!
