//! The differential harness: what is made of the facts that a run establishes.
//!
//! Per case and per implementation the harness records, in three states that
//! never collapse "could not run" into "failed": the implementation's seal
//! verifies; it verifies against the same claim as the canonical output; the
//! canonical output still verifies; and the mutation arms, each of which feeds
//! the verifier something it must reject. The verifier itself is elsewhere:
//! the functions here say what it is to be asked, and what its answers mean.

use vstd::prelude::*;

use crate::backend;
use crate::backend::{names, BackendKind, Groth16Backend, Registry};
use crate::reading;
use crate::text;

verus! {

/// A fact that could be established, could not be established, or could not
/// be attempted, kept distinct so that a report never reads "could not look"
/// as "nothing there".
#[derive(Clone, Debug, PartialEq, Eq)]
pub enum Tri {
    /// Established true.
    Yes,
    /// Established false, with the evidence.
    No(String),
    /// Not attempted, with the reason.
    NotRun(String),
}

impl Tri {
    /// `Yes` counts as a pass; anything else does not.
    pub fn passed(&self) -> (r: bool)
        ensures
            r == (self is Yes),
    {
        match self {
            Tri::Yes => true,
            _ => false,
        }
    }

    /// Whether it was established false.
    pub fn failed(&self) -> (r: bool)
        ensures
            r == (self is No),
    {
        match self {
            Tri::No(_) => true,
            _ => false,
        }
    }

    /// Short cell text for a table.
    pub open spec fn text(self) -> Seq<char> {
        match self {
            Tri::Yes => "yes"@,
            Tri::No(why) => "**no** ("@ + why@ + ")"@,
            Tri::NotRun(why) => "not run ("@ + why@ + ")"@,
        }
    }

    /// Short cell text for a table.
    pub fn cell(&self) -> (r: String)
        ensures
            r@ == self.text(),
    {
        match self {
            Tri::Yes => text::owned("yes"),
            Tri::No(why) => wrapped("**no** (", why.as_str(), ")"),
            Tri::NotRun(why) => wrapped("not run (", why.as_str(), ")"),
        }
    }
}

/// A text between two others.
fn wrapped(before: &str, s: &str, after: &str) -> (r: String)
    ensures
        r@ == before@ + s@ + after@,
{
    let mut r = text::owned(before);
    text::push(&mut r, s);
    text::push(&mut r, after);
    r
}

/// Outcome of a mutation arm: the mutant was killed (the verifier rejected
/// it), it survived (a defect), or the arm could not run.
#[derive(Clone, Debug, PartialEq, Eq)]
pub enum Arm {
    /// The corrupted or misdirected input was rejected, as required.
    Killed(String),
    /// It was accepted: the check cannot fail and is decoration.
    Survived(String),
    /// The arm could not be attempted.
    NotRun(String),
}

impl Arm {
    /// Short cell text for a table.
    pub open spec fn text(self) -> Seq<char> {
        match self {
            Arm::Killed(how) => "killed ("@ + how@ + ")"@,
            Arm::Survived(how) => "**SURVIVED** ("@ + how@ + ")"@,
            Arm::NotRun(why) => "not run ("@ + why@ + ")"@,
        }
    }

    /// Short cell text for a table.
    pub fn cell(&self) -> (r: String)
        ensures
            r@ == self.text(),
    {
        match self {
            Arm::Killed(how) => wrapped("killed (", how.as_str(), ")"),
            Arm::Survived(how) => wrapped("**SURVIVED** (", how.as_str(), ")"),
            Arm::NotRun(why) => wrapped("not run (", why.as_str(), ")"),
        }
    }

    /// Whether the mutant survived.
    pub fn survived(&self) -> (r: bool)
        ensures
            r == (self is Survived),
    {
        match self {
            Arm::Survived(_) => true,
            _ => false,
        }
    }

    /// Killed, with this text.
    pub open spec fn kills(self, how: Seq<char>) -> bool {
        self matches Arm::Killed(t) && t@ == how
    }

    /// Survived, with this text.
    pub open spec fn survives(self, how: Seq<char>) -> bool {
        self matches Arm::Survived(t) && t@ == how
    }

    /// Not run, with this text.
    pub open spec fn skips(self, why: Seq<char>) -> bool {
        self matches Arm::NotRun(t) && t@ == why
    }
}

/// Results of the four arms for one case.
#[derive(Clone, Debug)]
pub struct Arms {
    /// A byte of the implementation's seal is corrupted: must be rejected.
    pub bit_flip: Arm,
    /// The seal is verified against another case's claim: must be rejected.
    pub cross_claim: Arm,
    /// The implementation is disabled and the control answers: the suite still
    /// passes, and the registry reports the control kind.
    pub canonical_answers: Arm,
    /// The malformed input is fed: rejected before the boundary, with its error class.
    pub malformed_input: Arm,
}

impl Arms {
    /// No arm survived.
    pub fn all_killed_or_not_run(&self) -> (r: bool)
        ensures
            r == !(self.bit_flip is Survived || self.cross_claim is Survived
                || self.canonical_answers is Survived || self.malformed_input is Survived),
    {
        !(self.bit_flip.survived() || self.cross_claim.survived()
            || self.canonical_answers.survived() || self.malformed_input.survived())
    }
}

// ---- the mutation arms -------------------------------------------------------------------------

/// A seal with the lowest bit of one byte flipped.
pub open spec fn flipped(seal: Seq<u8>, offset: int) -> Seq<u8> {
    seal.update(offset, seal[offset] ^ 1u8)
}

/// The seal with the lowest bit of one byte flipped.
fn flip(seal: &[u8], offset: usize) -> (r: Vec<u8>)
    requires
        offset < seal@.len(),
    ensures
        r@ == flipped(seal@, offset as int),
{
    let mut r = vstd::slice::slice_to_vec(seal);
    let b = r[offset] ^ 1u8;
    r.set(offset, b);
    proof {
        assert(r@ =~= flipped(seal@, offset as int));
    }
    r
}

/// Flipping a bit changes the seal.
pub proof fn lemma_flip_changes(seal: Seq<u8>, offset: int)
    requires
        0 <= offset < seal.len(),
    ensures
        flipped(seal, offset) != seal,
        flipped(seal, offset).len() == seal.len(),
        flipped(flipped(seal, offset), offset) == seal,
{
    let b = seal[offset];
    assert(b ^ 1u8 != b) by (bit_vector);
    assert((b ^ 1u8) ^ 1u8 == b) by (bit_vector);
    assert(flipped(seal, offset)[offset] != seal[offset]);
    assert(flipped(flipped(seal, offset), offset) =~= seal);
}

/// The two differ in one byte, which is one of those from `from` to `to`.
pub open spec fn differs_once(a: Seq<u8>, b: Seq<u8>, from: int, to: int) -> bool {
    &&& a.len() == b.len()
    &&& exists|i: int| {
        &&& from <= i < to
        &&& #[trigger] a[i] != b[i]
        &&& forall|j: int| 0 <= j < a.len() && j != i ==> a[j] == #[trigger] b[j]
    }
}

/// Flipping a bit changes one byte.
proof fn lemma_flip_differs_once(seal: Seq<u8>, offset: int, from: int, to: int)
    requires
        0 <= from <= offset < to <= seal.len(),
    ensures
        differs_once(seal, flipped(seal, offset), from, to),
{
    let b = seal[offset];
    assert(b ^ 1u8 != b) by (bit_vector);
    assert(seal[offset] != flipped(seal, offset)[offset]);
}

/// Bit-flip arm, the question: the seal with one bit flipped in each of π_A,
/// π_B and π_C. A seal of another length cannot be asked about.
pub fn bit_flips(seal: &[u8]) -> (r: Result<[Vec<u8>; 3], Arm>)
    ensures
        match r {
            Ok(variants) => seal@.len() == 256 && variants@[0]@ == flipped(seal@, 31)
                && variants@[1]@ == flipped(seal@, 95) && variants@[2]@ == flipped(seal@, 223)
                && differs_once(seal@, variants@[0]@, 0, 64) && differs_once(
                seal@,
                variants@[1]@,
                64,
                192,
            ) && differs_once(seal@, variants@[2]@, 192, 256),
            Err(arm) => seal@.len() != 256 && arm.skips(
                "seal is "@ + text::decimal_of(seal@.len()) + " bytes, expected 256"@,
            ),
        },
{
    if seal.len() != 256 {
        let mut r = text::owned("seal is ");
        text::push_u64(&mut r, seal.len() as u64);
        text::push(&mut r, " bytes, expected 256");
        return Err(Arm::NotRun(r));
    }
    proof {
        lemma_flip_differs_once(seal@, 31, 0, 64);
        lemma_flip_differs_once(seal@, 95, 64, 192);
        lemma_flip_differs_once(seal@, 223, 192, 256);
    }
    Ok([flip(seal, 31), flip(seal, 64 + 31), flip(seal, 192 + 31)])
}

/// The arm for the three variants.
pub open spec fn flips_arm(accepted: Seq<bool>, r: Arm) -> bool {
    if accepted[0] {
        r.survives("a bit flipped in pi_a still verified"@)
    } else if accepted[1] {
        r.survives("a bit flipped in pi_b still verified"@)
    } else if accepted[2] {
        r.survives("a bit flipped in pi_c still verified"@)
    } else {
        r.kills("one bit flipped in each of pi_a, pi_b, pi_c: all rejected"@)
    }
}

/// Bit-flip arm, the outcome for the three variants: none of them may verify.
pub fn bit_flip(accepted: [bool; 3]) -> (r: Arm)
    ensures
        flips_arm(accepted@, r),
{
    if accepted[0] {
        Arm::Survived(text::owned("a bit flipped in pi_a still verified"))
    } else if accepted[1] {
        Arm::Survived(text::owned("a bit flipped in pi_b still verified"))
    } else if accepted[2] {
        Arm::Survived(text::owned("a bit flipped in pi_c still verified"))
    } else {
        Arm::Killed(text::owned("one bit flipped in each of pi_a, pi_b, pi_c: all rejected"))
    }
}

/// The claim that the cross-claim arm verifies against.
#[derive(Clone, Copy, Debug)]
pub enum Foreign {
    /// The other case's claim.
    Other,
    /// The own digest with bit 0 flipped, since the other case has the same one.
    SameDigest([u8; 32]),
    /// The own digest with bit 0 flipped, since there is no other case.
    NoOther([u8; 32]),
}

impl Foreign {
    /// What the claim is, in words.
    pub open spec fn text(self) -> Seq<char> {
        match self {
            Foreign::Other => "another case's claim"@,
            Foreign::SameDigest(_) =>
                "the other case has the same claim digest; used the own digest with bit 0 flipped"@,
            Foreign::NoOther(_) => "no second case; used the own digest with bit 0 flipped"@,
        }
    }

    /// What the claim is, in words.
    pub fn label(&self) -> (r: &'static str)
        ensures
            r@ == self.text(),
    {
        match self {
            Foreign::Other => "another case's claim",
            Foreign::SameDigest(_) =>
                "the other case has the same claim digest; used the own digest with bit 0 flipped",
            Foreign::NoOther(_) => "no second case; used the own digest with bit 0 flipped",
        }
    }
}

/// Equality of digests.
fn same_digest(a: &[u8; 32], b: &[u8; 32]) -> (r: bool)
    ensures
        r == (a@ == b@),
{
    let mut i: usize = 0;
    while i < 32
        invariant
            i <= 32,
            forall|j: int| 0 <= j < i ==> #[trigger] a@[j] == b@[j],
        decreases 32 - i,
    {
        if a[i] != b[i] {
            return false;
        }
        i = i + 1;
    }
    proof {
        assert(a@ =~= b@);
    }
    true
}

/// Cross-claim arm, the question: a claim that is not the seal's own. Another
/// case's claim is preferred; when there is none, or it is the same statement,
/// the own digest with one bit flipped.
pub fn foreign_claim(own: &[u8; 32], other: Option<&[u8; 32]>) -> (r: Foreign)
    ensures
        match other {
            Some(o) => if o@ != own@ {
                r is Other
            } else {
                r matches Foreign::SameDigest(d) && d@ == flipped(own@, 0)
            },
            None => r matches Foreign::NoOther(d) && d@ == flipped(own@, 0),
        },
        match r {
            Foreign::Other => other matches Some(o) && o@ != own@,
            Foreign::SameDigest(d) => differs_once(own@, d@, 0, 32),
            Foreign::NoOther(d) => other is None && differs_once(own@, d@, 0, 32),
        },
{
    let mut d = *own;
    d[0] = d[0] ^ 1u8;
    proof {
        assert(d@ =~= flipped(own@, 0));
        lemma_flip_differs_once(own@, 0, 0, 32);
    }
    match other {
        Some(o) => if !same_digest(o, own) {
            Foreign::Other
        } else {
            Foreign::SameDigest(d)
        },
        None => Foreign::NoOther(d),
    }
}

/// The arm for a foreign claim.
pub open spec fn cross_claim_arm(foreign: Foreign, verdict: Result<(), String>, r: Arm) -> bool {
    match verdict {
        Ok(_) => r.survives("verified against a foreign claim ("@ + foreign.text() + ")"@),
        Err(e) => r.kills("rejected against "@ + foreign.text() + ": "@ + e@),
    }
}

/// Cross-claim arm, the outcome: a seal that verifies against the foreign claim has survived.
pub fn cross_claim(foreign: &Foreign, verdict: &Result<(), String>) -> (r: Arm)
    ensures
        cross_claim_arm(*foreign, *verdict, r),
{
    match verdict {
        Ok(_) => Arm::Survived(wrapped("verified against a foreign claim (", foreign.label(), ")")),
        Err(e) => {
            let mut r = wrapped("rejected against ", foreign.label(), ": ");
            text::push(&mut r, e.as_str());
            Arm::Killed(r)
        },
    }
}

/// Whether a kind is among others.
fn contains_kind(kinds: &[BackendKind], kind: BackendKind) -> (r: bool)
    ensures
        r == kinds@.contains(kind),
{
    let n = kinds.len();
    let mut i: usize = 0;
    while i < n
        invariant
            i <= n,
            n == kinds@.len(),
            forall|j: int| 0 <= j < i ==> #[trigger] kinds@[j] != kind,
        decreases n - i,
    {
        if kinds[i] == kind {
            assert(kinds@.contains(kind));
            return true;
        }
        i = i + 1;
    }
    false
}

/// The first kind among the first `n` that is neither `rewrite` nor `reference`: a registry
/// without the rewrite cannot be rebuilt with it.
pub open spec fn obstacle(kinds: Seq<BackendKind>, rewrite: BackendKind, n: int) -> Option<
    BackendKind,
>
    decreases n,
{
    if n <= 0 {
        None
    } else {
        match obstacle(kinds, rewrite, n - 1) {
            Some(k) => Some(k),
            None => if kinds[n - 1] != rewrite && kinds[n - 1] != BackendKind::Reference {
                Some(kinds[n - 1])
            } else {
                None
            },
        }
    }
}

proof fn lemma_obstacle_stays(kinds: Seq<BackendKind>, rewrite: BackendKind, k: int, n: int)
    requires
        k <= n,
        obstacle(kinds, rewrite, k) is Some,
    ensures
        obstacle(kinds, rewrite, n) == obstacle(kinds, rewrite, k),
    decreases n - k,
{
    if k < n {
        lemma_obstacle_stays(kinds, rewrite, k, n - 1);
    }
}

/// The arm where the control cannot be run.
pub open spec fn obstacle_arm(control: BackendKind, rewrite: BackendKind, available: Seq<BackendKind>, r: Option<Arm>) -> bool {
    if control == rewrite {
        r matches Some(arm) && arm.skips(
            "control and rewrite are the same kind ("@ + control.text() + ")"@,
        )
    } else if !available.contains(control) {
        r matches Some(arm) && arm.skips(
            "control `"@ + control.text() + "` is not compiled into this harness (available: "@
                + backend::names_text(available) + ")"@,
        )
    } else {
        match obstacle(available, rewrite, available.len() as int) {
            Some(kind) => r matches Some(arm) && arm.skips(
                "cannot rebuild a registry with `"@ + kind.text() + "` in this harness"@,
            ),
            None => r is None,
        }
    }
}

/// Control arm, the preliminaries: the arm is not run where the control is
/// the rewrite itself, is not available, or a registry without the rewrite
/// cannot be rebuilt. `None` means that the control is to be run.
pub fn control_obstacle(control: BackendKind, rewrite: BackendKind, available: &[BackendKind]) -> (r:
    Option<Arm>)
    ensures
        obstacle_arm(control, rewrite, available@, r),
{
    if control == rewrite {
        return Some(
            Arm::NotRun(
                wrapped("control and rewrite are the same kind (", control.name(), ")"),
            ),
        );
    }
    if !contains_kind(available, control) {
        let mut r = wrapped(
            "control `",
            control.name(),
            "` is not compiled into this harness (available: ",
        );
        text::push(&mut r, names(available).as_str());
        text::push(&mut r, ")");
        return Some(Arm::NotRun(r));
    }
    let n = available.len();
    let mut i: usize = 0;
    while i < n
        invariant
            i <= n,
            n == available@.len(),
            control != rewrite,
            available@.contains(control),
            obstacle(available@, rewrite, i as int) is None,
        decreases n - i,
    {
        let kind = available[i];
        if kind != rewrite && kind != BackendKind::Reference {
            proof {
                lemma_obstacle_stays(available@, rewrite, i + 1, n as int);
            }
            return Some(
                Arm::NotRun(
                    wrapped("cannot rebuild a registry with `", kind.name(), "` in this harness"),
                ),
            );
        }
        i = i + 1;
    }
    None
}

/// Control arm, the substitution check: whether a registry that was built without the rewrite
/// selects it all the same. It does so exactly where it has the kind, so never where the
/// registry is what it should be.
pub fn substitutes<B: Groth16Backend>(without: &Registry<B>, rewrite: BackendKind) -> (r: bool)
    ensures
        r == without.kinds().contains(rewrite),
{
    let selection = without.select(Some(rewrite.name()));
    proof {
        backend::lemma_names_parse(rewrite);
        if selection is Ok {
            let b = *selection->Ok_0;
            let i = choose|i: int|
                0 <= i < without.registered().len() && without.registered()[i] == b;
            assert(without.kinds()[i] == rewrite);
        }
    }
    match selection {
        Ok(_) => true,
        Err(_) => false,
    }
}

/// What came of running the control.
#[derive(Debug)]
pub enum ControlRun {
    /// A registry without the rewrite still selected it.
    Substituted,
    /// The control could not be run, and why.
    Failed(String),
    /// The kind that the registry ran, and the verdict on its seal.
    Ran(BackendKind, Result<(), String>),
}

/// The arm for what came of running the control.
pub open spec fn control_arm(control: BackendKind, rewrite: BackendKind, run: ControlRun, r: Arm) -> bool {
    match run {
        ControlRun::Substituted => r.survives(
            "a registry without `"@ + rewrite.text() + "` still selected it"@,
        ),
        ControlRun::Failed(e) => r.skips("control run failed: "@ + e@),
        ControlRun::Ran(kind, verdict) => if kind != control {
            r.survives(
                "asked for `"@ + control.text() + "`, registry ran `"@ + kind.text() + "`"@,
            )
        } else {
            match verdict {
                Ok(_) => r.kills(
                    "control `"@ + control.text()
                        + "` answered and verified; registry reported `"@ + kind.text()
                        + "`; a registry without `"@ + rewrite.text() + "` refuses it"@,
                ),
                Err(e) => r.survives(
                    "control `"@ + control.text()
                        + "` produced a seal the oracle rejects: "@ + e@,
                ),
            }
        },
    }
}

/// Control arm, the outcome. The suite must still pass with the control, and
/// the registry must report the control kind; selecting a kind that a
/// registry lacks must be an error, not a silent substitution.
pub fn canonical_answers(control: BackendKind, rewrite: BackendKind, run: &ControlRun) -> (r: Arm)
    ensures
        control_arm(control, rewrite, *run, r),
{
    match run {
        ControlRun::Substituted => Arm::Survived(
            wrapped("a registry without `", rewrite.name(), "` still selected it"),
        ),
        ControlRun::Failed(e) => {
            let mut r = text::owned("control run failed: ");
            text::push(&mut r, e.as_str());
            Arm::NotRun(r)
        },
        ControlRun::Ran(kind, verdict) => if *kind != control {
            let mut r = wrapped("asked for `", control.name(), "`, registry ran `");
            text::push(&mut r, kind.name());
            text::push(&mut r, "`");
            Arm::Survived(r)
        } else {
            match verdict {
                Ok(_) => {
                    let mut r = wrapped(
                        "control `",
                        control.name(),
                        "` answered and verified; registry reported `",
                    );
                    text::push(&mut r, kind.name());
                    text::push(&mut r, "`; a registry without `");
                    text::push(&mut r, rewrite.name());
                    text::push(&mut r, "` refuses it");
                    Arm::Killed(r)
                },
                Err(e) => {
                    let mut r = wrapped(
                        "control `",
                        control.name(),
                        "` produced a seal the oracle rejects: ",
                    );
                    text::push(&mut r, e.as_str());
                    Arm::Survived(r)
                },
            }
        },
    }
}

/// Malformed-input arm, the question: the first half of the stage input.
pub fn truncated(input: &[u8]) -> (r: &[u8])
    ensures
        r@ == input@.take(input@.len() as int / 2),
{
    let half = input.len() / 2;
    let r = vstd::slice::slice_subrange(input, 0, half);
    proof {
        assert(r@ =~= input@.take(input@.len() as int / 2));
    }
    r
}

/// The arm for a truncated input.
pub open spec fn malformed_arm(verdict: Result<(), String>, r: Arm) -> bool {
    match verdict {
        Ok(_) => r.survives("a truncated receipt deserialized"@),
        Err(e) => r.kills("rejected before the boundary (bincode): "@ + e@),
    }
}

/// Malformed-input arm, the outcome: deserialization fails before the boundary,
/// so the error class is what the report records.
pub fn malformed_input(verdict: &Result<(), String>) -> (r: Arm)
    ensures
        malformed_arm(*verdict, r),
{
    match verdict {
        Ok(_) => Arm::Survived(text::owned("a truncated receipt deserialized")),
        Err(e) => {
            let mut r = text::owned("rejected before the boundary (bincode): ");
            text::push(&mut r, e.as_str());
            Arm::Killed(r)
        },
    }
}

// ---- the assertions ----------------------------------------------------------------------------

/// What a case's canonical output gave.
#[derive(Debug)]
pub enum Canonical {
    /// The case carries none.
    Absent,
    /// It is not a receipt of this kind, and why.
    NotGroth16(String),
    /// The verdict on its seal, and its claim digest.
    Judged(Result<(), String>, [u8; 32]),
}

/// A fact, with this evidence against it.
pub open spec fn refuted(t: Tri, why: Seq<char>) -> bool {
    t matches Tri::No(w) && w@ == why
}

/// A fact that was not looked at, for this reason.
pub open spec fn unasked(t: Tri, why: Seq<char>) -> bool {
    t matches Tri::NotRun(w) && w@ == why
}

/// What the canonical output establishes.
pub open spec fn canonical_judged(canonical: Canonical, r: Tri) -> bool {
    match canonical {
        Canonical::Absent => unasked(
            r,
            "the case carries no canonical output (synthetic or not captured)"@,
        ),
        Canonical::NotGroth16(e) => refuted(
            r,
            "canonical output is not a groth16 receipt: "@ + e@,
        ),
        Canonical::Judged(verdict, _) => match verdict {
            Ok(_) => r is Yes,
            Err(e) => refuted(r, "canonical output rejected by the oracle: "@ + e@),
        },
    }
}

/// The control: the canonical output still verifies.
pub fn canonical_verified(canonical: &Canonical) -> (r: Tri)
    ensures
        canonical_judged(*canonical, r),
{
    match canonical {
        Canonical::Absent => Tri::NotRun(
            text::owned("the case carries no canonical output (synthetic or not captured)"),
        ),
        Canonical::NotGroth16(e) => {
            let mut r = text::owned("canonical output is not a groth16 receipt: ");
            text::push(&mut r, e.as_str());
            Tri::No(r)
        },
        Canonical::Judged(verdict, _) => match verdict {
            Ok(_) => Tri::Yes,
            Err(e) => {
                let mut r = text::owned("canonical output rejected by the oracle: ");
                text::push(&mut r, e.as_str());
                Tri::No(r)
            },
        },
    }
}

/// What the outcome on a seal establishes.
pub open spec fn seal_judged(verdict: Result<(), String>, r: Tri) -> bool {
    match verdict {
        Ok(_) => r is Yes,
        Err(e) => refuted(r, "oracle rejected the rewrite's seal: "@ + e@),
    }
}

/// The implementation's seal verifies.
pub fn rewrite_verified(verdict: &Result<(), String>) -> (r: Tri)
    ensures
        seal_judged(*verdict, r),
{
    match verdict {
        Ok(_) => Tri::Yes,
        Err(e) => {
            let mut r = text::owned("oracle rejected the rewrite's seal: ");
            text::push(&mut r, e.as_str());
            Tri::No(r)
        },
    }
}

/// What the two claims establish.
pub open spec fn claims_judged(canonical: Canonical, own: Seq<u8>, r: Tri) -> bool {
    match canonical {
        Canonical::Absent => unasked(r, "no canonical output to compare claims with"@),
        Canonical::NotGroth16(e) => refuted(r, e@),
        Canonical::Judged(_, digest) => if digest@ == own {
            r is Yes
        } else {
            refuted(r, "claim digests differ: the rewrite proved a different statement"@)
        },
    }
}

/// Same public inputs: the claim that the canonical output verifies against
/// must be the claim that the implementation's seal verifies against.
pub fn public_inputs_equal(canonical: &Canonical, own: &[u8; 32]) -> (r: Tri)
    ensures
        claims_judged(*canonical, own@, r),
{
    match canonical {
        Canonical::Absent => Tri::NotRun(text::owned("no canonical output to compare claims with")),
        Canonical::NotGroth16(e) => Tri::No(text::owned(e.as_str())),
        Canonical::Judged(_, digest) => if same_digest(digest, own) {
            Tri::Yes
        } else {
            Tri::No(
                text::owned("claim digests differ: the rewrite proved a different statement"),
            )
        },
    }
}

// ---- the report --------------------------------------------------------------------------------

/// One case, one implementation. Times are in tenths of a second.
#[derive(Clone, Debug)]
pub struct Row {
    /// Case id.
    pub case_id: String,
    /// Which implementation answered (as selected and confirmed by the registry).
    pub rewrite_kind: String,
    /// The canonical output still verifies.
    pub canonical_verified: Tri,
    /// Where the canonical output came from, for a case that carries one.
    pub canonical_provenance: Option<String>,
    /// The implementation's output verifies.
    pub rewrite_verified: Tri,
    /// The same public inputs (same claim digest) as the canonical output.
    pub public_inputs_equal: Tri,
    /// The mutation arms.
    pub arms: Arms,
    /// Time to derive the boundary input on this host.
    pub derive_tenths: u64,
    /// Time the implementation spent behind the boundary on this host.
    pub prove_tenths: u64,
    /// The verifier used as the oracle.
    pub oracle: String,
}

impl Row {
    /// Every assertion that ran passed and every arm that ran was killed.
    pub open spec fn passes(self) -> bool {
        &&& !(self.rewrite_verified is No)
        &&& !(self.canonical_verified is No)
        &&& !(self.public_inputs_equal is No)
        &&& !(self.arms.bit_flip is Survived)
        &&& !(self.arms.cross_claim is Survived)
        &&& !(self.arms.canonical_answers is Survived)
        &&& !(self.arms.malformed_input is Survived)
    }

    /// Whether every assertion that ran passed and every arm that ran was killed.
    pub fn passed(&self) -> (r: bool)
        ensures
            r == self.passes(),
    {
        !self.rewrite_verified.failed() && !self.canonical_verified.failed()
            && !self.public_inputs_equal.failed() && self.arms.all_killed_or_not_run()
    }

    /// The cell on the canonical output: the fact, and where the output came from, verbatim, so
    /// that a rehearsed output is never read as a production one.
    pub open spec fn canonical_text(self) -> Seq<char> {
        match self.canonical_provenance {
            Some(from) => self.canonical_verified.text() + " ["@ + from@ + "]"@,
            None => self.canonical_verified.text(),
        }
    }

    /// The cell on the canonical output.
    fn canonical_cell(&self) -> (r: String)
        ensures
            r@ == self.canonical_text(),
    {
        let mut r = self.canonical_verified.cell();
        if let Some(from) = &self.canonical_provenance {
            text::push(&mut r, " [");
            text::push(&mut r, from.as_str());
            text::push(&mut r, "]");
        }
        r
    }

    /// The row of the table.
    pub open spec fn text(self) -> Seq<char> {
        "| "@ + self.case_id@ + " | "@ + self.rewrite_kind@ + " | "@
            + self.canonical_text() + " | "@ + self.rewrite_verified.text() + " | "@
            + self.public_inputs_equal.text() + " | "@ + self.arms.bit_flip.text() + " | "@
            + self.arms.cross_claim.text() + " | "@ + self.arms.canonical_answers.text() + " | "@
            + self.arms.malformed_input.text() + " | "@ + tenths_text(self.derive_tenths as nat)
            + " | "@ + tenths_text(self.prove_tenths as nat) + " |\n"@
    }

    /// The row of the table.
    fn line(&self) -> (r: String)
        ensures
            r@ == self.text(),
    {
        let mut r = text::owned("| ");
        text::push(&mut r, self.case_id.as_str());
        text::push(&mut r, " | ");
        text::push(&mut r, self.rewrite_kind.as_str());
        text::push(&mut r, " | ");
        text::push(&mut r, self.canonical_cell().as_str());
        text::push(&mut r, " | ");
        text::push(&mut r, self.rewrite_verified.cell().as_str());
        text::push(&mut r, " | ");
        text::push(&mut r, self.public_inputs_equal.cell().as_str());
        text::push(&mut r, " | ");
        text::push(&mut r, self.arms.bit_flip.cell().as_str());
        text::push(&mut r, " | ");
        text::push(&mut r, self.arms.cross_claim.cell().as_str());
        text::push(&mut r, " | ");
        text::push(&mut r, self.arms.canonical_answers.cell().as_str());
        text::push(&mut r, " | ");
        text::push(&mut r, self.arms.malformed_input.cell().as_str());
        text::push(&mut r, " | ");
        push_tenths(&mut r, self.derive_tenths);
        text::push(&mut r, " | ");
        push_tenths(&mut r, self.prove_tenths);
        text::push(&mut r, " |\n");
        r
    }
}

/// What a run of one case establishes: what the implementation answered, and
/// what the verifier says of everything it is asked.
pub struct Evidence {
    /// Case id.
    pub case_id: String,
    /// The kind that the registry selected and ran.
    pub kind: BackendKind,
    /// The kind that answers when it is disabled.
    pub control: BackendKind,
    /// The kinds that the registry has.
    pub available: Vec<BackendKind>,
    /// The canonical output.
    pub canonical: Canonical,
    /// Where it came from, for a case that carries one.
    pub provenance: Option<String>,
    /// The digest of the own claim.
    pub digest: [u8; 32],
    /// The seal.
    pub seal: Vec<u8>,
    /// The outcome on the seal.
    pub verdict: Result<(), String>,
    /// Which of the seals with a bit flipped were accepted.
    pub flips: [bool; 3],
    /// The claim that is not the own.
    pub foreign: Foreign,
    /// The outcome on the seal against it.
    pub foreign_verdict: Result<(), String>,
    /// What became of the control run, where nothing stood in its way.
    pub control_run: ControlRun,
    /// What became of the truncated input.
    pub truncated: Result<(), String>,
    /// Time to derive the boundary input, in tenths of a second.
    pub derive_tenths: u64,
    /// Time behind the boundary, in tenths of a second.
    pub prove_tenths: u64,
    /// The verifier used as the oracle.
    pub oracle: String,
}

/// The row says what the evidence gives.
pub open spec fn row_of(e: Evidence, r: Row) -> bool {
    &&& r.case_id@ == e.case_id@
    &&& r.rewrite_kind@ == e.kind.text()
    &&& canonical_judged(e.canonical, r.canonical_verified)
    &&& match e.provenance {
        Some(from) => r.canonical_provenance matches Some(p) && p@ == from@,
        None => r.canonical_provenance is None,
    }
    &&& seal_judged(e.verdict, r.rewrite_verified)
    &&& claims_judged(e.canonical, e.digest@, r.public_inputs_equal)
    &&& if e.seal@.len() == 256 {
        flips_arm(e.flips@, r.arms.bit_flip)
    } else {
        r.arms.bit_flip.skips(
            "seal is "@ + text::decimal_of(e.seal@.len()) + " bytes, expected 256"@,
        )
    }
    &&& cross_claim_arm(e.foreign, e.foreign_verdict, r.arms.cross_claim)
    &&& obstacle_arm(e.control, e.kind, e.available@, Some(r.arms.canonical_answers)) || (
    obstacle_arm(e.control, e.kind, e.available@, None) && control_arm(
        e.control,
        e.kind,
        e.control_run,
        r.arms.canonical_answers,
    ))
    &&& malformed_arm(e.truncated, r.arms.malformed_input)
    &&& r.derive_tenths == e.derive_tenths
    &&& r.prove_tenths == e.prove_tenths
    &&& r.oracle@ == e.oracle@
}

/// The row of a case from what its run established.
pub fn row(e: &Evidence) -> (r: Row)
    ensures
        row_of(*e, r),
{
    let bit_flip = match bit_flips(e.seal.as_slice()) {
        Ok(_) => bit_flip(e.flips),
        Err(arm) => arm,
    };
    let answers = match control_obstacle(e.control, e.kind, e.available.as_slice()) {
        Some(arm) => arm,
        None => canonical_answers(e.control, e.kind, &e.control_run),
    };
    Row {
        case_id: text::owned(e.case_id.as_str()),
        rewrite_kind: text::owned(e.kind.name()),
        canonical_verified: canonical_verified(&e.canonical),
        canonical_provenance: match &e.provenance {
            Some(from) => Some(text::owned(from.as_str())),
            None => None,
        },
        rewrite_verified: rewrite_verified(&e.verdict),
        public_inputs_equal: public_inputs_equal(&e.canonical, &e.digest),
        arms: Arms {
            bit_flip,
            cross_claim: cross_claim(&e.foreign, &e.foreign_verdict),
            canonical_answers: answers,
            malformed_input: malformed_input(&e.truncated),
        },
        derive_tenths: e.derive_tenths,
        prove_tenths: e.prove_tenths,
        oracle: text::owned(e.oracle.as_str()),
    }
}

/// A case passes exactly where the seal verifies, nothing speaks against the canonical output
/// or its claim, and nothing that had to be refused was accepted.
pub proof fn lemma_row_passes(e: Evidence, r: Row)
    requires
        row_of(e, r),
    ensures
        r.passes() <==> {
            &&& e.verdict is Ok
            &&& match e.canonical {
                Canonical::Absent => true,
                Canonical::NotGroth16(_) => false,
                Canonical::Judged(verdict, digest) => verdict is Ok && digest@ == e.digest@,
            }
            &&& e.seal@.len() == 256 ==> !e.flips@[0] && !e.flips@[1] && !e.flips@[2]
            &&& e.foreign_verdict is Err
            &&& e.truncated is Err
            &&& r.arms.canonical_answers is NotRun || match e.control_run {
                ControlRun::Ran(kind, verdict) => kind == e.control && verdict is Ok,
                _ => false,
            }
        },
{
}

/// A rehearsed output is marked as one in the report, with the backend that produced it.
pub proof fn lemma_rehearsal_is_marked(e: Evidence, r: Row, o: Output)
    requires
        row_of(e, r),
        e.provenance == Some(o.provenance),
    ensures
        r.canonical_text() == r.canonical_verified.text() + " ["@ + o.provenance@ + "]"@,
{
}

/// A number of tenths with one decimal.
pub open spec fn tenths_text(n: nat) -> Seq<char> {
    text::decimal_of(n / 10) + "."@ + text::decimal_of(n % 10)
}

fn push_tenths(out: &mut String, n: u64)
    ensures
        final(out)@ == old(out)@ + tenths_text(n as nat),
{
    let ghost before = out@;
    text::push_u64(out, n / 10);
    text::push(out, ".");
    text::push_u64(out, n % 10);
    proof {
        assert(out@ =~= before + tenths_text(n as nat));
    }
}

/// The head of the table.
pub open spec fn head_text() -> Seq<char> {
    "| case | rewrite | canonical verifies (3) | rewrite verifies (1) | same public inputs (2) | bit-flip rejected (4) | cross-claim rejected | canonical answers | malformed input | derive s | prove s |\n"@
        + "|---|---|---|---|---|---|---|---|---|---:|---:|\n"@
}

/// The rows of the table.
pub open spec fn rows_text(rows: Seq<Row>) -> Seq<char>
    decreases rows.len(),
{
    if rows.len() == 0 {
        Seq::empty()
    } else {
        rows_text(rows.drop_last()) + rows.last().text()
    }
}

/// How many rows pass.
pub open spec fn passing(rows: Seq<Row>) -> nat
    decreases rows.len(),
{
    if rows.len() == 0 {
        0
    } else {
        passing(rows.drop_last()) + (if rows.last().passes() {
            1nat
        } else {
            0nat
        })
    }
}

/// The table with its summary.
pub open spec fn markdown_text(rows: Seq<Row>) -> Seq<char> {
    head_text() + rows_text(rows) + "\n**"@ + text::decimal_of(passing(rows)) + "/"@
        + text::decimal_of(rows.len())
        + " cases pass** (a case passes when every assertion that ran holds and every arm that ran was killed; `not run` cells are reported, not counted as passes). Oracle: "@
        + (if rows.len() > 0 {
        rows[0].oracle@
    } else {
        "-"@
    }) + ".\n"@
}

/// Render rows as a markdown table.
pub fn markdown(rows: &[Row]) -> (r: String)
    ensures
        r@ == markdown_text(rows@),
{
    let mut r = text::owned(
        "| case | rewrite | canonical verifies (3) | rewrite verifies (1) | same public inputs (2) | bit-flip rejected (4) | cross-claim rejected | canonical answers | malformed input | derive s | prove s |\n",
    );
    text::push(&mut r, "|---|---|---|---|---|---|---|---|---|---:|---:|\n");
    let n = rows.len();
    let mut passed: usize = 0;
    let mut i: usize = 0;
    proof {
        assert(r@ =~= head_text() + rows_text(rows@.take(0)));
    }
    while i < n
        invariant
            i <= n,
            n == rows@.len(),
            passed <= i,
            passed == passing(rows@.take(i as int)),
            r@ == head_text() + rows_text(rows@.take(i as int)),
        decreases n - i,
    {
        let ghost before = rows@.take(i as int);
        text::push(&mut r, rows[i].line().as_str());
        if rows[i].passed() {
            passed = passed + 1;
        }
        proof {
            let after = rows@.take(i + 1);
            assert(after.drop_last() =~= before);
            assert(after.last() == rows@[i as int]);
            assert(r@ =~= head_text() + rows_text(after));
        }
        i = i + 1;
    }
    proof {
        assert(rows@.take(n as int) =~= rows@);
    }
    text::push(&mut r, "\n**");
    text::push_u64(&mut r, passed as u64);
    text::push(&mut r, "/");
    text::push_u64(&mut r, n as u64);
    text::push(
        &mut r,
        " cases pass** (a case passes when every assertion that ran holds and every arm that ran was killed; `not run` cells are reported, not counted as passes). Oracle: ",
    );
    if n > 0 {
        text::push(&mut r, rows[0].oracle.as_str());
    } else {
        text::push(&mut r, "-");
    }
    text::push(&mut r, ".\n");
    proof {
        assert(r@ =~= markdown_text(rows@));
    }
    r
}

// ---- what a row establishes --------------------------------------------------------------------

/// The control is run exactly where it is another kind than the implementation, the registry has
/// it, and every kind of the registry is the implementation or the reference.
pub proof fn lemma_control_is_run(
    control: BackendKind,
    rewrite: BackendKind,
    available: Seq<BackendKind>,
    r: Option<Arm>,
)
    requires
        obstacle_arm(control, rewrite, available, r),
    ensures
        r is None <==> {
            &&& control != rewrite
            &&& available.contains(control)
            &&& forall|i: int|
                0 <= i < available.len() ==> #[trigger] available[i] == rewrite || available[i]
                    == BackendKind::Reference
        },
        r matches Some(arm) ==> arm is NotRun,
{
    lemma_obstacle_is_first(available, rewrite, available.len() as int);
}

/// The obstacle is the first kind that stands in the way.
pub proof fn lemma_obstacle_is_first(kinds: Seq<BackendKind>, rewrite: BackendKind, n: int)
    requires
        0 <= n <= kinds.len(),
    ensures
        match obstacle(kinds, rewrite, n) {
            None => forall|i: int|
                0 <= i < n ==> #[trigger] kinds[i] == rewrite || kinds[i]
                    == BackendKind::Reference,
            Some(k) => exists|i: int| {
                &&& 0 <= i < n
                &&& #[trigger] kinds[i] == k
                &&& k != rewrite
                &&& k != BackendKind::Reference
                &&& forall|j: int|
                    0 <= j < i ==> #[trigger] kinds[j] == rewrite || kinds[j]
                        == BackendKind::Reference
            },
        },
    decreases n,
{
    if n > 0 {
        lemma_obstacle_is_first(kinds, rewrite, n - 1);
        if obstacle(kinds, rewrite, n - 1) is None && obstacle(kinds, rewrite, n) is Some {
            assert(kinds[n - 1] == obstacle(kinds, rewrite, n)->0);
        }
    }
}

/// The control could be asked.
pub open spec fn control_stands(e: Evidence) -> bool {
    &&& e.control != e.kind
    &&& e.available@.contains(e.control)
    &&& forall|i: int|
        0 <= i < e.available@.len() ==> #[trigger] e.available@[i] == e.kind || e.available@[i]
            == BackendKind::Reference
}

/// What each cell of a row says of the evidence: a fact is established, refuted or was not
/// looked at; a mutant was killed, survived or was not made. Nothing that could not be looked at
/// counts as seen.
pub proof fn lemma_row_facts(e: Evidence, r: Row)
    requires
        row_of(e, r),
    ensures
        r.rewrite_verified is Yes <==> e.verdict is Ok,
        r.rewrite_verified is No <==> e.verdict is Err,
        r.canonical_verified is NotRun <==> e.canonical is Absent,
        r.canonical_verified is Yes <==> (e.canonical matches Canonical::Judged(verdict, _)
            && verdict is Ok),
        r.public_inputs_equal is NotRun <==> e.canonical is Absent,
        r.public_inputs_equal is Yes <==> (e.canonical matches Canonical::Judged(_, digest)
            && digest@ == e.digest@),
        r.arms.bit_flip is NotRun <==> e.seal@.len() != 256,
        r.arms.bit_flip is Survived <==> e.seal@.len() == 256 && (e.flips@[0] || e.flips@[1]
            || e.flips@[2]),
        r.arms.cross_claim is Killed <==> e.foreign_verdict is Err,
        r.arms.cross_claim is Survived <==> e.foreign_verdict is Ok,
        r.arms.malformed_input is Killed <==> e.truncated is Err,
        r.arms.malformed_input is Survived <==> e.truncated is Ok,
        r.arms.canonical_answers is NotRun <==> !control_stands(e) || e.control_run is Failed,
        r.arms.canonical_answers is Killed <==> control_stands(e) && (
        e.control_run matches ControlRun::Ran(kind, verdict) && kind == e.control && verdict is Ok),
{
    let some = Some(r.arms.canonical_answers);
    if obstacle_arm(e.control, e.kind, e.available@, some) {
        lemma_control_is_run(e.control, e.kind, e.available@, some);
    } else {
        lemma_control_is_run(e.control, e.kind, e.available@, None);
    }
}

/// The reason is the end of the text.
pub open spec fn gives(text: String, reason: String) -> bool {
    reason@.is_suffix_of(text@)
}

proof fn lemma_gives(text: String, before: Seq<char>, reason: String)
    requires
        text@ == before + reason@,
    ensures
        gives(text, reason),
{
    let (t, k) = (text@, reason@);
    assert(t.subrange(t.len() - k.len(), t.len() as int) =~= k);
}

/// Whatever the verifier or the run gave as its reason stands in the cell.
pub proof fn lemma_row_gives_reasons(e: Evidence, r: Row)
    requires
        row_of(e, r),
    ensures
        e.verdict matches Err(why) ==> (r.rewrite_verified matches Tri::No(t) && gives(t, why)),
        e.canonical matches Canonical::NotGroth16(why) ==> (
        r.canonical_verified matches Tri::No(t) && gives(t, why)),
        e.canonical matches Canonical::Judged(Err(why), _) ==> (
        r.canonical_verified matches Tri::No(t) && gives(t, why)),
        e.foreign_verdict matches Err(why) ==> (r.arms.cross_claim matches Arm::Killed(t) && gives(
            t,
            why,
        )),
        e.truncated matches Err(why) ==> (r.arms.malformed_input matches Arm::Killed(t) && gives(
            t,
            why,
        )),
{
    if let Err(why) = e.verdict {
        lemma_gives(r.rewrite_verified->No_0, "oracle rejected the rewrite's seal: "@, why);
    }
    if let Canonical::NotGroth16(why) = e.canonical {
        lemma_gives(
            r.canonical_verified->No_0,
            "canonical output is not a groth16 receipt: "@,
            why,
        );
    }
    if let Canonical::Judged(Err(why), _) = e.canonical {
        lemma_gives(r.canonical_verified->No_0, "canonical output rejected by the oracle: "@, why);
    }
    if let Err(why) = e.foreign_verdict {
        lemma_gives(
            r.arms.cross_claim->Killed_0,
            "rejected against "@ + e.foreign.text() + ": "@,
            why,
        );
    }
    if let Err(why) = e.truncated {
        lemma_gives(
            r.arms.malformed_input->Killed_0,
            "rejected before the boundary (bincode): "@,
            why,
        );
    }
}

/// The survivor that is named is the first of the three parts of the seal that still verified.
pub proof fn lemma_flip_named(accepted: Seq<bool>, r: Arm)
    requires
        accepted.len() == 3,
        flips_arm(accepted, r),
    ensures
        r is Killed <==> !accepted[0] && !accepted[1] && !accepted[2],
        r matches Arm::Survived(t) ==> exists|k: int| {
            &&& 0 <= k < 3
            &&& #[trigger] accepted[k]
            &&& forall|j: int| 0 <= j < k ==> !#[trigger] accepted[j]
            &&& t@.len() == 36
            &&& t@.subrange(17, 21) == seq!['p', 'i', '_', (97 + k) as char]
        },
{
    reveal_strlit("a bit flipped in pi_a still verified");
    reveal_strlit("a bit flipped in pi_b still verified");
    reveal_strlit("a bit flipped in pi_c still verified");
    if let Arm::Survived(t) = r {
        if accepted[0] {
            assert(t@.subrange(17, 21) =~= seq!['p', 'i', '_', 'a']);
        } else if accepted[1] {
            assert(t@.subrange(17, 21) =~= seq!['p', 'i', '_', 'b']);
        } else {
            assert(t@.subrange(17, 21) =~= seq!['p', 'i', '_', 'c']);
        }
    }
}

// ---- what the report says ----------------------------------------------------------------------

/// Nothing in the row speaks against the implementation: no assertion was refuted, and nothing
/// that had to be rejected was accepted.
pub open spec fn unblemished(row: Row) -> bool {
    let facts = seq![row.rewrite_verified, row.canonical_verified, row.public_inputs_equal];
    let arms = seq![
        row.arms.bit_flip,
        row.arms.cross_claim,
        row.arms.canonical_answers,
        row.arms.malformed_input,
    ];
    &&& forall|i: int| 0 <= i < 3 ==> !(#[trigger] facts[i] is No)
    &&& forall|i: int| 0 <= i < 4 ==> !(#[trigger] arms[i] is Survived)
}

/// The indices of the rows that nothing speaks against.
pub open spec fn unblemished_rows(rows: Seq<Row>) -> Set<int> {
    Set::new(|i: int| 0 <= i < rows.len() && unblemished(rows[i]))
}

/// A row passes exactly where none of its cells shouts: a refuted assertion begins with
/// `**no**`, a survived arm with `**SURVIVED**`.
pub proof fn lemma_passing_row_shouts_nowhere(row: Row)
    ensures
        row.passes() <==> unblemished(row),
        row.passes() <==> !("**"@.is_prefix_of(row.rewrite_verified.text()) || "**"@.is_prefix_of(
            row.canonical_verified.text(),
        ) || "**"@.is_prefix_of(row.public_inputs_equal.text()) || "**"@.is_prefix_of(
            row.arms.bit_flip.text(),
        ) || "**"@.is_prefix_of(row.arms.cross_claim.text()) || "**"@.is_prefix_of(
            row.arms.canonical_answers.text(),
        ) || "**"@.is_prefix_of(row.arms.malformed_input.text())),
{
    lemma_fact_shouts(row.rewrite_verified);
    lemma_fact_shouts(row.canonical_verified);
    lemma_fact_shouts(row.public_inputs_equal);
    lemma_arm_shouts(row.arms.bit_flip);
    lemma_arm_shouts(row.arms.cross_claim);
    lemma_arm_shouts(row.arms.canonical_answers);
    lemma_arm_shouts(row.arms.malformed_input);
    let facts = seq![row.rewrite_verified, row.canonical_verified, row.public_inputs_equal];
    let arms = seq![
        row.arms.bit_flip,
        row.arms.cross_claim,
        row.arms.canonical_answers,
        row.arms.malformed_input,
    ];
    if unblemished(row) {
        assert(!(facts[0] is No) && !(facts[1] is No) && !(facts[2] is No));
        assert(!(arms[0] is Survived) && !(arms[1] is Survived) && !(arms[2] is Survived)
            && !(arms[3] is Survived));
    }
}

/// The cell of a fact begins with asterisks exactly where the fact was refuted.
proof fn lemma_fact_shouts(t: Tri)
    ensures
        "**"@.is_prefix_of(t.text()) <==> t is No,
{
    reveal_strlit("**");
    reveal_strlit("yes");
    reveal_strlit("**no** (");
    reveal_strlit("not run (");
    reveal_strlit(")");
    if t is No {
        assert("**"@ =~= t.text().subrange(0, 2));
    } else {
        assert(t.text()[0] != '*');
        if "**"@.is_prefix_of(t.text()) {
            assert("**"@[0] == t.text().subrange(0, 2)[0]);
        }
    }
}

/// The cell of an arm begins with asterisks exactly where the mutant survived.
proof fn lemma_arm_shouts(a: Arm)
    ensures
        "**"@.is_prefix_of(a.text()) <==> a is Survived,
{
    reveal_strlit("**");
    reveal_strlit("killed (");
    reveal_strlit("**SURVIVED** (");
    reveal_strlit("not run (");
    reveal_strlit(")");
    if a is Survived {
        assert("**"@ =~= a.text().subrange(0, 2));
    } else {
        assert(a.text()[0] != '*');
        if "**"@.is_prefix_of(a.text()) {
            assert("**"@[0] == a.text().subrange(0, 2)[0]);
        }
    }
}

/// The count of passing rows is the number of rows that nothing speaks against; it is the number
/// of rows exactly where nothing speaks against any.
pub proof fn lemma_passing_counts(rows: Seq<Row>)
    ensures
        unblemished_rows(rows).finite(),
        passing(rows) == unblemished_rows(rows).len(),
        passing(rows) <= rows.len(),
        passing(rows) == rows.len() <==> forall|i: int|
            0 <= i < rows.len() ==> unblemished(#[trigger] rows[i]),
    decreases rows.len(),
{
    let all = unblemished_rows(rows);
    if rows.len() == 0 {
        assert(all =~= Set::empty());
    } else {
        let front = rows.drop_last();
        let n = rows.len() - 1;
        lemma_passing_counts(front);
        lemma_passing_row_shouts_nowhere(rows.last());
        let fewer = unblemished_rows(front);
        assert forall|i: int| 0 <= i < n implies front[i] == #[trigger] rows[i] by {}
        if unblemished(rows.last()) {
            assert(all =~= fewer.insert(n));
        } else {
            assert(all =~= fewer);
        }
        if forall|i: int| 0 <= i < rows.len() ==> unblemished(#[trigger] rows[i]) {
            assert forall|i: int| 0 <= i < front.len() implies unblemished(#[trigger] front[i]) by {
                assert(front[i] == rows[i]);
            }
            assert(unblemished(rows[n]));
        } else if passing(rows) == rows.len() {
            assert(unblemished(rows[n]));
            assert forall|i: int| 0 <= i < rows.len() implies unblemished(#[trigger] rows[i]) by {
                if i < n {
                    assert(unblemished(front[i]));
                }
            }
        }
    }
}

/// The summary line names the number of rows that nothing speaks against and the number of rows.
pub proof fn lemma_summary_counts(rows: Seq<Row>)
    ensures
        exists|before: Seq<char>, passed: Seq<char>, all: Seq<char>, after: Seq<char>|
            #![trigger reading::numerals(passed), reading::numerals(all), before + after]
            {
                &&& reading::numerals(passed)
                &&& reading::numerals(all)
                &&& reading::number(passed) == unblemished_rows(rows).len()
                &&& reading::number(all) == rows.len()
                &&& before == head_text() + rows_text(rows)
                &&& markdown_text(rows) == before + "\n**"@ + passed + "/"@ + all
                    + " cases pass**"@ + after
            },
{
    lemma_passing_counts(rows);
    reading::lemma_decimal(passing(rows));
    reading::lemma_decimal(rows.len());
    let before = head_text() + rows_text(rows);
    let (passed, all) = (text::decimal_of(passing(rows)), text::decimal_of(rows.len()));
    let note =
        " (a case passes when every assertion that ran holds and every arm that ran was killed; `not run` cells are reported, not counted as passes). Oracle: "@;
    let oracle = if rows.len() > 0 {
        rows[0].oracle@
    } else {
        "-"@
    };
    let after = note + oracle + ".\n"@;
    reveal_strlit(" cases pass**");
    reveal_strlit(
        " (a case passes when every assertion that ran holds and every arm that ran was killed; `not run` cells are reported, not counted as passes). Oracle: ",
    );
    reveal_strlit(
        " cases pass** (a case passes when every assertion that ran holds and every arm that ran was killed; `not run` cells are reported, not counted as passes). Oracle: ",
    );
    assert(" cases pass** (a case passes when every assertion that ran holds and every arm that ran was killed; `not run` cells are reported, not counted as passes). Oracle: "@
        =~= " cases pass**"@ + note);
    assert(markdown_text(rows) =~= before + "\n**"@ + passed + "/"@ + all + " cases pass**"@
        + after);
    assert(before + after == before + after);
}

/// The table has the rows one after another, in their order.
pub proof fn lemma_rows_in_order(rows: Seq<Row>, i: int)
    requires
        0 <= i < rows.len(),
    ensures
        rows_text(rows) == rows_text(rows.take(i)) + rows[i].text() + rows_text(rows.skip(i + 1)),
    decreases rows.len(),
{
    let front = rows.drop_last();
    if i == rows.len() - 1 {
        assert(rows.take(i) =~= front);
        assert(rows.skip(i + 1) =~= Seq::empty());
        lemma_reassociated(rows_text(front), rows[i].text(), Seq::empty(), Seq::empty());
    } else {
        lemma_rows_in_order(front, i);
        assert(front.take(i) =~= rows.take(i));
        assert(rows.skip(i + 1).drop_last() =~= front.skip(i + 1));
        assert(rows.skip(i + 1).last() == rows.last());
        lemma_reassociated(
            rows_text(rows.take(i)),
            rows[i].text(),
            rows_text(front.skip(i + 1)),
            rows.last().text(),
        );
    }
}

/// Texts one after another.
proof fn lemma_reassociated(a: Seq<char>, b: Seq<char>, c: Seq<char>, d: Seq<char>)
    ensures
        a + b + c + d == a + b + (c + d),
        a + b + Seq::empty() == a + b,
{
    assert(a + b + c + d =~= a + b + (c + d));
    assert(a + b + Seq::empty() =~= a + b);
}

/// A cell between two bars: a space, the text, a space.
pub open spec fn celled(s: Seq<char>) -> Seq<char> {
    seq![' '] + s + seq![' ']
}

/// A cell after a text that ends with a bar and a space.
proof fn lemma_cell(a: Seq<char>, cell: Seq<char>)
    requires
        reading::free(cell, '|'),
        reading::fields(a, '|').last() == seq![' '],
    ensures
        reading::fields(a + cell + " | "@, '|') == reading::fields(a, '|').drop_last().push(
            celled(cell),
        ).push(seq![' ']),
{
    reveal_strlit(" | ");
    let f = reading::fields(a, '|');
    reading::lemma_fields_extend(a, cell + seq![' '], '|');
    reading::lemma_fields_next(a + (cell + seq![' ']), seq![' '], '|');
    assert(a + cell + " | "@ =~= (a + (cell + seq![' '])).push('|') + seq![' ']);
    assert(f.last() + (cell + seq![' ']) =~= celled(cell));
}

/// The texts of the cells of a row, column by column.
pub open spec fn cells_of(row: Row) -> Seq<Seq<char>> {
    seq![
        row.case_id@,
        row.rewrite_kind@,
        row.canonical_text(),
        row.rewrite_verified.text(),
        row.public_inputs_equal.text(),
        row.arms.bit_flip.text(),
        row.arms.cross_claim.text(),
        row.arms.canonical_answers.text(),
        row.arms.malformed_input.text(),
    ]
}

/// The columns of a row: what each cell holds. The times are last, in seconds with one decimal.
#[verifier::rlimit(40)]
pub proof fn lemma_columns(row: Row)
    requires
        forall|i: int| 0 <= i < 9 ==> reading::free(#[trigger] cells_of(row)[i], '|'),
    ensures
        ({
            let f = reading::fields(row.text(), '|');
            &&& f.len() == 13
            &&& f[1] == celled(row.case_id@)
            &&& f[2] == celled(row.rewrite_kind@)
            &&& f[3] == celled(row.canonical_text())
            &&& f[4] == celled(row.rewrite_verified.text())
            &&& f[5] == celled(row.public_inputs_equal.text())
            &&& f[6] == celled(row.arms.bit_flip.text())
            &&& f[7] == celled(row.arms.cross_claim.text())
            &&& f[8] == celled(row.arms.canonical_answers.text())
            &&& f[9] == celled(row.arms.malformed_input.text())
            &&& f[10] == celled(tenths_text(row.derive_tenths as nat))
            &&& f[11] == celled(tenths_text(row.prove_tenths as nat))
        }),
{
    let c = cells_of(row);
    assert(reading::free(c[0], '|') && reading::free(c[1], '|') && reading::free(c[2], '|')
        && reading::free(c[3], '|') && reading::free(c[4], '|') && reading::free(c[5], '|')
        && reading::free(c[6], '|') && reading::free(c[7], '|') && reading::free(c[8], '|'));
    let (d, p) = (tenths_text(row.derive_tenths as nat), tenths_text(row.prove_tenths as nat));
    lemma_tenths_free(row.derive_tenths as nat);
    lemma_tenths_free(row.prove_tenths as nat);
    let bar = " | "@;
    let t0 = "| "@;
    reveal_strlit("| ");
    reading::lemma_fields_next(Seq::empty(), seq![' '], '|');
    assert(t0 =~= Seq::<char>::empty().push('|') + seq![' ']);
    let t1 = t0 + c[0] + bar;
    let t2 = t1 + c[1] + bar;
    let t3 = t2 + c[2] + bar;
    let t4 = t3 + c[3] + bar;
    let t5 = t4 + c[4] + bar;
    let t6 = t5 + c[5] + bar;
    let t7 = t6 + c[6] + bar;
    let t8 = t7 + c[7] + bar;
    let t9 = t8 + c[8] + bar;
    let t10 = t9 + d + bar;
    lemma_cell(t0, c[0]);
    lemma_cell(t1, c[1]);
    lemma_cell(t2, c[2]);
    lemma_cell(t3, c[3]);
    lemma_cell(t4, c[4]);
    lemma_cell(t5, c[5]);
    lemma_cell(t6, c[6]);
    lemma_cell(t7, c[7]);
    lemma_cell(t8, c[8]);
    lemma_cell(t9, d);
    reveal_strlit(" |\n");
    reading::lemma_fields_extend(t10, p + seq![' '], '|');
    reading::lemma_fields_next(t10 + (p + seq![' ']), seq!['\n'], '|');
    assert(t10 + p + " |\n"@ =~= (t10 + (p + seq![' '])).push('|') + seq!['\n']);
    assert(seq![' '] + (p + seq![' ']) =~= celled(p));
    assert(row.text() == t10 + p + " |\n"@);
}

/// The columns of the head: what each column is about.
#[verifier::rlimit(60)]
pub proof fn lemma_head_columns()
    ensures
        ({
            let f = reading::fields(head_text(), '|');
            &&& f.len() >= 13
            &&& f[1] == celled("case"@)
            &&& f[2] == celled("rewrite"@)
            &&& f[3] == celled("canonical verifies (3)"@)
            &&& f[4] == celled("rewrite verifies (1)"@)
            &&& f[5] == celled("same public inputs (2)"@)
            &&& f[6] == celled("bit-flip rejected (4)"@)
            &&& f[7] == celled("cross-claim rejected"@)
            &&& f[8] == celled("canonical answers"@)
            &&& f[9] == celled("malformed input"@)
            &&& f[10] == celled("derive s"@)
            &&& f[11] == celled("prove s"@)
        }),
{
    let bar = " | "@;
    let line =
        "| case | rewrite | canonical verifies (3) | rewrite verifies (1) | same public inputs (2) | bit-flip rejected (4) | cross-claim rejected | canonical answers | malformed input | derive s | prove s |\n"@;
    let rule = "|---|---|---|---|---|---|---|---|---|---:|---:|\n"@;
    reveal_strlit("case");
    reveal_strlit("rewrite");
    reveal_strlit("canonical verifies (3)");
    reveal_strlit("rewrite verifies (1)");
    reveal_strlit("same public inputs (2)");
    reveal_strlit("bit-flip rejected (4)");
    reveal_strlit("cross-claim rejected");
    reveal_strlit("canonical answers");
    reveal_strlit("malformed input");
    reveal_strlit("derive s");
    reveal_strlit("prove s");
    let t0 = "| "@;
    reading::lemma_fields_next(Seq::empty(), seq![' '], '|');
    assert(t0 =~= Seq::<char>::empty().push('|') + seq![' ']) by {
        reveal_strlit("| ");
    }
    let t1 = t0 + "case"@ + bar;
    lemma_cell(t0, "case"@);
    let t2 = t1 + "rewrite"@ + bar;
    lemma_cell(t1, "rewrite"@);
    let t3 = t2 + "canonical verifies (3)"@ + bar;
    lemma_cell(t2, "canonical verifies (3)"@);
    let t4 = t3 + "rewrite verifies (1)"@ + bar;
    lemma_cell(t3, "rewrite verifies (1)"@);
    let t5 = t4 + "same public inputs (2)"@ + bar;
    lemma_cell(t4, "same public inputs (2)"@);
    let t6 = t5 + "bit-flip rejected (4)"@ + bar;
    lemma_cell(t5, "bit-flip rejected (4)"@);
    let t7 = t6 + "cross-claim rejected"@ + bar;
    lemma_cell(t6, "cross-claim rejected"@);
    let t8 = t7 + "canonical answers"@ + bar;
    lemma_cell(t7, "canonical answers"@);
    let t9 = t8 + "malformed input"@ + bar;
    lemma_cell(t8, "malformed input"@);
    let t10 = t9 + "derive s"@ + bar;
    lemma_cell(t9, "derive s"@);
    let last = "prove s"@;
    reading::lemma_fields_extend(t10, last + seq![' '], '|');
    let end = t10 + (last + seq![' ']);
    assert(seq![' '] + (last + seq![' ']) =~= celled(last));
    assert(line =~= end.push('|') + seq!['\n']) by {
        reveal_strlit(
            "| case | rewrite | canonical verifies (3) | rewrite verifies (1) | same public inputs (2) | bit-flip rejected (4) | cross-claim rejected | canonical answers | malformed input | derive s | prove s |\n",
        );
        reveal_strlit("| ");
        reveal_strlit(" | ");
    }
    assert(head_text() =~= end + (seq!['|', '\n'] + rule));
    lemma_fields_after_bar(end, seq!['\n'] + rule);
    assert(seq!['|', '\n'] + rule =~= seq!['|'] + (seq!['\n'] + rule));
}

/// What follows leaves all fields but the last.
proof fn lemma_fields_stay(a: Seq<char>, b: Seq<char>, c: char)
    ensures
        ({
            let (f, g) = (reading::fields(a, c), reading::fields(a + b, c));
            &&& g.len() >= f.len() > 0
            &&& forall|i: int| 0 <= i < f.len() - 1 ==> #[trigger] g[i] == f[i]
        }),
    decreases b.len(),
{
    reading::lemma_fields_some(a, c);
    if b.len() == 0 {
        assert(a + b =~= a);
    } else {
        lemma_fields_stay(a, b.drop_last(), c);
        assert((a + b).drop_last() =~= a + b.drop_last());
    }
}

/// A bar leaves all fields before it.
proof fn lemma_fields_after_bar(a: Seq<char>, b: Seq<char>)
    ensures
        ({
            let (f, g) = (reading::fields(a, '|'), reading::fields(a + (seq!['|'] + b), '|'));
            &&& g.len() > f.len() > 0
            &&& forall|i: int| 0 <= i < f.len() ==> #[trigger] g[i] == f[i]
        }),
{
    reading::lemma_fields_some(a, '|');
    assert(a.push('|').drop_last() =~= a);
    lemma_fields_stay(a.push('|'), b, '|');
    assert(a + (seq!['|'] + b) =~= a.push('|') + b);
}

/// A number of tenths has no bar in it.
proof fn lemma_tenths_free(n: nat)
    ensures
        reading::free(tenths_text(n), '|'),
{
    reveal_strlit(".");
    reading::lemma_decimal_free(n / 10);
    reading::lemma_decimal_free(n % 10);
}

/// A number of tenths reads as whole units, a point and one digit.
pub proof fn lemma_tenths_read_back(n: nat)
    ensures
        ({
            let f = reading::fields(tenths_text(n), '.');
            &&& f.len() == 2
            &&& reading::numerals(f[0])
            &&& f[1].len() == 1
            &&& reading::numerals(f[1])
            &&& reading::number(f[0]) * 10 + reading::number(f[1]) == n
        }),
{
    reveal_strlit(".");
    reading::lemma_decimal_free(n / 10);
    reading::lemma_decimal_free(n % 10);
    reading::lemma_decimal(n / 10);
    reading::lemma_decimal(n % 10);
    let (a, b) = (text::decimal_of(n / 10), text::decimal_of(n % 10));
    reading::lemma_fields_free(a, '.');
    reading::lemma_fields_next(a, b, '.');
    assert(tenths_text(n) =~= a.push('.') + b);
    assert(n % 10 < 10);
    assert(b.len() == 1);
}

// ---- the files of a case -----------------------------------------------------------------------

/// The file that a case's canonical output is read from, and where that output came from.
#[derive(Clone, Debug, PartialEq, Eq)]
pub struct Output {
    /// The file's name.
    pub file: String,
    /// `corpus`, or `rehearsal:` and the backend that produced it.
    pub provenance: String,
}

/// A string without any repetition of a prefix.
pub open spec fn without_prefix(s: Seq<char>, prefix: Seq<char>) -> Seq<char>
    decreases s.len(),
{
    if prefix.len() > 0 && prefix.is_prefix_of(s) {
        without_prefix(s.skip(prefix.len() as int), prefix)
    } else {
        s
    }
}

/// A string without any repetition of a suffix.
pub open spec fn without_suffix(s: Seq<char>, suffix: Seq<char>) -> Seq<char>
    decreases s.len(),
{
    if suffix.len() > 0 && suffix.is_suffix_of(s) {
        without_suffix(s.take(s.len() - suffix.len()), suffix)
    } else {
        s
    }
}

/// The name of a rehearsed output.
pub open spec fn rehearsed(name: Seq<char>) -> bool {
    "rehearsal."@.is_prefix_of(name) && ".bincode"@.is_suffix_of(name)
}

/// The first rehearsed output among the first `n` names.
pub open spec fn first_rehearsal(names: Seq<String>, n: int) -> Option<int>
    decreases n,
{
    if n <= 0 {
        None
    } else {
        match first_rehearsal(names, n - 1) {
            Some(i) => Some(i),
            None => if rehearsed(names[n - 1]@) {
                Some(n - 1)
            } else {
                None
            },
        }
    }
}

proof fn lemma_first_rehearsal_stays(names: Seq<String>, k: int, n: int)
    requires
        k <= n,
        first_rehearsal(names, k) is Some,
    ensures
        first_rehearsal(names, n) == first_rehearsal(names, k),
    decreases n - k,
{
    if k < n {
        lemma_first_rehearsal_stays(names, k, n - 1);
    }
}

/// Whether a name is among others.
pub open spec fn listed(names: Seq<String>, name: Seq<char>) -> bool {
    exists|i: int| 0 <= i < names.len() && (#[trigger] names[i])@ == name
}

fn is_listed(names: &[String], name: &str) -> (r: bool)
    ensures
        r == listed(names@, name@),
{
    let n = names.len();
    let mut i: usize = 0;
    while i < n
        invariant
            i <= n,
            n == names@.len(),
            forall|j: int| 0 <= j < i ==> (#[trigger] names@[j])@ != name@,
        decreases n - i,
    {
        if text::same(names[i].as_str(), name) {
            assert(names@[i as int]@ == name@);
            return true;
        }
        i = i + 1;
    }
    false
}

/// The backend that a rehearsed output's name gives.
fn rehearsal_kind(name: &str) -> (r: &str)
    ensures
        r@ == without_suffix(without_prefix(name@, "rehearsal."@), ".bincode"@),
{
    proof {
        reveal_strlit("rehearsal.");
        reveal_strlit(".bincode");
    }
    let n = name.unicode_len();
    let mut from: usize = 0;
    proof {
        assert(name@.subrange(0, n as int) =~= name@);
    }
    while text::starts_with(name.substring_char(from, n), "rehearsal.")
        invariant
            from <= n,
            n == name@.len(),
            "rehearsal."@.len() == 10,
            without_prefix(name@, "rehearsal."@) == without_prefix(
                name@.subrange(from as int, n as int),
                "rehearsal."@,
            ),
        decreases n - from,
    {
        proof {
            assert(name@.subrange(from as int, n as int).skip(10) =~= name@.subrange(
                from + 10,
                n as int,
            ));
        }
        from = from + 10;
    }
    let middle = name.substring_char(from, n);
    let m = middle.unicode_len();
    let mut to: usize = m;
    proof {
        assert(middle@.take(m as int) =~= middle@);
        assert(middle@.subrange(0, m as int) =~= middle@);
    }
    while text::ends_with(middle.substring_char(0, to), ".bincode")
        invariant
            to <= m,
            m == middle@.len(),
            ".bincode"@.len() == 8,
            without_suffix(middle@, ".bincode"@) == without_suffix(
                middle@.subrange(0, to as int),
                ".bincode"@,
            ),
        decreases to,
    {
        proof {
            assert(middle@.subrange(0, to as int).take(to - 8) =~= middle@.subrange(0, to - 8));
        }
        to = to - 8;
    }
    middle.substring_char(0, to)
}

/// The corpus's own outputs are not taken for rehearsed ones, nor the label of one for the other.
proof fn lemma_corpus_is_no_rehearsal()
    ensures
        !rehearsed("canonical.groth16.bincode"@),
        !rehearsed("canonical.blake3_groth16.bincode"@),
        forall|kind: Seq<char>| #[trigger] ("rehearsal:"@ + kind) != "corpus"@,
{
    reveal_strlit("canonical.groth16.bincode");
    reveal_strlit("canonical.blake3_groth16.bincode");
    reveal_strlit("rehearsal.");
    reveal_strlit("rehearsal:");
    reveal_strlit("corpus");
    let (a, b) = ("canonical.groth16.bincode"@, "canonical.blake3_groth16.bincode"@);
    let p = "rehearsal."@;
    assert(a.subrange(0, p.len() as int)[0] != p[0]);
    assert(b.subrange(0, p.len() as int)[0] != p[0]);
    assert forall|kind: Seq<char>| #[trigger] ("rehearsal:"@ + kind) != "corpus"@ by {
        assert(("rehearsal:"@ + kind)[0] != "corpus"@[0]);
    }
}

/// The canonical output among a case's files: the corpus's own where there is
/// one, else the first rehearsed output, which is labelled as one.
pub fn canonical_output(names: &[String]) -> (r: Option<Output>)
    ensures
        if listed(names@, "canonical.groth16.bincode"@) {
            r matches Some(o) && o.file@ == "canonical.groth16.bincode"@ && o.provenance@
                == "corpus"@
        } else if listed(names@, "canonical.blake3_groth16.bincode"@) {
            r matches Some(o) && o.file@ == "canonical.blake3_groth16.bincode"@ && o.provenance@
                == "corpus"@
        } else {
            match first_rehearsal(names@, names@.len() as int) {
                Some(i) => r matches Some(o) && o.file@ == names@[i]@ && o.provenance@
                    == "rehearsal:"@ + without_suffix(
                    without_prefix(names@[i]@, "rehearsal."@),
                    ".bincode"@,
                ),
                None => r is None,
            }
        },
        r matches Some(o) ==> listed(names@, o.file@),
        r matches Some(o) ==> (o.provenance@ == "corpus"@ <==> !rehearsed(o.file@)),
        r is None ==> forall|i: int|
            0 <= i < names@.len() ==> !rehearsed((#[trigger] names@[i])@),
{
    proof {
        lemma_rehearsal_is_first(names@, names@.len() as int);
        lemma_corpus_is_no_rehearsal();
    }
    if is_listed(names, "canonical.groth16.bincode") {
        return Some(
            Output {
                file: text::owned("canonical.groth16.bincode"),
                provenance: text::owned("corpus"),
            },
        );
    }
    if is_listed(names, "canonical.blake3_groth16.bincode") {
        return Some(
            Output {
                file: text::owned("canonical.blake3_groth16.bincode"),
                provenance: text::owned("corpus"),
            },
        );
    }
    let n = names.len();
    let mut i: usize = 0;
    while i < n
        invariant
            i <= n,
            n == names@.len(),
            !listed(names@, "canonical.groth16.bincode"@),
            !listed(names@, "canonical.blake3_groth16.bincode"@),
            first_rehearsal(names@, i as int) is None,
        decreases n - i,
    {
        let name = names[i].as_str();
        if text::starts_with(name, "rehearsal.") && text::ends_with(name, ".bincode") {
            let mut provenance = text::owned("rehearsal:");
            let kind = rehearsal_kind(name);
            text::push(&mut provenance, kind);
            proof {
                lemma_first_rehearsal_stays(names@, i + 1, n as int);
                lemma_corpus_is_no_rehearsal();
                assert("rehearsal:"@ + kind@ != "corpus"@);
                assert(names@[i as int]@ == name@);
            }
            return Some(Output { file: text::owned(name), provenance });
        }
        i = i + 1;
    }
    None
}

/// The file of a rehearsed output of this kind.
pub open spec fn rehearsal_text(kind: Seq<char>) -> Seq<char> {
    "rehearsal."@ + kind + ".bincode"@
}

/// The file of a rehearsed output of this kind.
pub fn rehearsal_file(kind: &str) -> (r: String)
    ensures
        r@ == rehearsal_text(kind@),
{
    let mut r = text::owned("rehearsal.");
    text::push(&mut r, kind);
    text::push(&mut r, ".bincode");
    r
}

/// The file of a rehearsed output is taken for one, and its kind is read back from its name.
pub proof fn lemma_rehearsal_named(kind: Seq<char>)
    requires
        !"rehearsal."@.is_prefix_of(kind + ".bincode"@),
        !".bincode"@.is_suffix_of(kind),
    ensures
        rehearsed(rehearsal_text(kind)),
        without_suffix(
            without_prefix(rehearsal_text(kind), "rehearsal."@),
            ".bincode"@,
        ) == kind,
{
    reveal_strlit("rehearsal.");
    reveal_strlit(".bincode");
    reveal_with_fuel(without_prefix, 2);
    reveal_with_fuel(without_suffix, 2);
    let (p, q) = ("rehearsal."@, ".bincode"@);
    let name = rehearsal_text(kind);
    assert(name.subrange(0, p.len() as int) =~= p);
    assert(name.subrange(name.len() - q.len(), name.len() as int) =~= q);
    assert(name.skip(p.len() as int) =~= kind + q);
    assert((kind + q).subrange(kind.len() as int, (kind + q).len() as int) =~= q);
    assert((kind + q).take(kind.len() as int) =~= kind);
}

/// The rehearsed output that is taken is the first, and there is none exactly where no name is
/// that of one.
pub proof fn lemma_rehearsal_is_first(names: Seq<String>, n: int)
    requires
        0 <= n <= names.len(),
    ensures
        match first_rehearsal(names, n) {
            Some(i) => {
                &&& 0 <= i < n
                &&& rehearsed(names[i]@)
                &&& forall|j: int| 0 <= j < i ==> !rehearsed((#[trigger] names[j])@)
            },
            None => forall|j: int| 0 <= j < n ==> !rehearsed((#[trigger] names[j])@),
        },
    decreases n,
{
    if n > 0 {
        lemma_rehearsal_is_first(names, n - 1);
    }
}

/// A text some number of times.
pub open spec fn repeated(s: Seq<char>, k: nat) -> Seq<char>
    decreases k,
{
    if k == 0 {
        Seq::empty()
    } else {
        s + repeated(s, (k - 1) as nat)
    }
}

/// Only repetitions of the prefix go, and all of them.
pub proof fn lemma_prefixes_go(s: Seq<char>, prefix: Seq<char>) -> (k: nat)
    requires
        prefix.len() > 0,
    ensures
        s == repeated(prefix, k) + without_prefix(s, prefix),
        !prefix.is_prefix_of(without_prefix(s, prefix)),
    decreases s.len(),
{
    if prefix.is_prefix_of(s) {
        let t = s.skip(prefix.len() as int);
        let k = lemma_prefixes_go(t, prefix);
        assert(s =~= prefix + t);
        assert(s =~= repeated(prefix, k + 1) + without_prefix(s, prefix));
        k + 1
    } else {
        assert(s =~= repeated(prefix, 0) + s);
        0
    }
}

/// Only repetitions of the suffix go, and all of them.
pub proof fn lemma_suffixes_go(s: Seq<char>, suffix: Seq<char>) -> (k: nat)
    requires
        suffix.len() > 0,
    ensures
        s == without_suffix(s, suffix) + repeated(suffix, k),
        !suffix.is_suffix_of(without_suffix(s, suffix)),
    decreases s.len(),
{
    if suffix.is_suffix_of(s) {
        let t = s.take(s.len() - suffix.len());
        let k = lemma_suffixes_go(t, suffix);
        assert(s =~= t + suffix);
        lemma_repeated_back(suffix, k);
        assert(s =~= without_suffix(s, suffix) + repeated(suffix, k + 1));
        k + 1
    } else {
        assert(s =~= s + repeated(suffix, 0));
        0
    }
}

/// One more repetition, at either end.
proof fn lemma_repeated_back(s: Seq<char>, k: nat)
    ensures
        repeated(s, k + 1) == repeated(s, k) + s,
    decreases k,
{
    if k > 0 {
        lemma_repeated_back(s, (k - 1) as nat);
        assert(repeated(s, k + 1) =~= repeated(s, k) + s);
    } else {
        assert(repeated(s, 1) =~= s + repeated(s, 0));
        assert(repeated(s, 1) =~= repeated(s, 0) + s);
    }
}

} // verus!
