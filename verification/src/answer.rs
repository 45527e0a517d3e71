//! What the host backends answer with, from a parsed key, the witness as it
//! arrives at the boundary, and the blinding scalars: the two JSON files.

use vstd::prelude::*;

use crate::bytes;
use crate::device;
use crate::device::{Backend, Fault, HostBackend, Prover, ResidentZkey};
use crate::field;
use crate::field::Fr;
use crate::files;
use crate::json;
use crate::json::{proof_json, public_json};
use crate::launch::Launcher;
use crate::limbs;
use crate::math::certificates;
use crate::math::dft;
use crate::math::ring::{FieldLaws, Ring};
use crate::pack;
use crate::pipeline;
use crate::prover;
use crate::prover::{CoefficientGroups, Proof, ProveError};
use crate::reading;
use crate::text;
use crate::zkey;
use crate::zkey::{parse_witness_values, parse_wtns, WtnsError, Zkey};

verus! {

/// The contents of the two files that a proof is answered with.
#[derive(Clone, Debug, PartialEq, Eq)]
pub struct Answer {
    /// `public.json`.
    pub public: String,
    /// `proof.json`.
    pub proof: String,
}

/// Why there is no answer.
#[derive(Clone, Debug, PartialEq, Eq)]
pub enum AnswerError {
    /// The witness value of this index is not a field element.
    Witness(usize),
    /// The prover refused the witness.
    Prove(ProveError),
}

impl AnswerError {
    /// The message for a reader.
    pub open spec fn text(self) -> Seq<char> {
        match self {
            AnswerError::Witness(i) => "witness value "@ + text::decimal_of(i as nat)
                + " is not a field element"@,
            AnswerError::Prove(e) => e.text(),
        }
    }

    /// The message for a reader.
    pub fn message(&self) -> (r: String)
        ensures
            r@ == self.text(),
    {
        match self {
            AnswerError::Witness(i) => {
                let mut r = text::owned("witness value ");
                text::push_u64(&mut r, *i as u64);
                text::push(&mut r, " is not a field element");
                r
            },
            AnswerError::Prove(e) => e.message(),
        }
    }
}

/// The witness values of the boundary's bytes.
pub open spec fn witness(data: Seq<u8>) -> Seq<Fr> {
    zkey::witness_of(data)
}

/// The error that the witness bytes give, if any: the first value that is no field element, else
/// a wrong number of values, else a first value other than one.
pub open spec fn witness_error(zkey: Zkey, data: Seq<u8>) -> Option<AnswerError> {
    match zkey::bad_value(data, data.len() as int / 32) {
        Some(i) => Some(AnswerError::Witness(i)),
        None => if witness(data).len() != zkey.num_vars {
            Some(
                AnswerError::Prove(
                    ProveError::WitnessLength {
                        expected: zkey.num_vars,
                        found: witness(data).len() as usize,
                    },
                ),
            )
        } else if witness(data)[0] != Fr::one_spec() {
            Some(AnswerError::Prove(ProveError::WitnessConstant))
        } else {
            None
        },
    }
}

/// The answer holds the public inputs of the witness, and a proof; where `exact`, it is the
/// Groth16 proof of the witness with these blinding scalars.
pub open spec fn answered(
    zkey: Zkey,
    data: Seq<u8>,
    r: Fr,
    s: Fr,
    exact: bool,
    answer: Answer,
) -> bool {
    &&& answer.public@ == json::public_text(witness(data), zkey.num_public as int)
    &&& exists|proof: Proof|
        answer.proof@ == #[trigger] json::proof_text(proof) && (exact ==> proof == prover::proof_of(
            zkey,
            witness(data),
            r,
            s,
        ))
}

/// The two files for a proof.
fn files(zkey: &Zkey, values: &Vec<Fr>, proof: &Proof) -> (r: Answer)
    requires
        zkey.num_public < values@.len(),
    ensures
        r.public@ == json::public_text(values@, zkey.num_public as int),
        r.proof@ == json::proof_text(*proof),
{
    Answer { public: public_json(values, zkey.num_public), proof: proof_json(proof) }
}

/// The CPU reference prover.
#[derive(Clone, Copy, Debug, Default)]
pub struct Reference;

impl Reference {
    /// The answer of the reference prover.
    pub fn answer(&self, zkey: &Zkey, data: &[u8], r: &Fr, s: &Fr) -> (result: Result<
        Answer,
        AnswerError,
    >)
        requires
            prover::usable(*zkey),
        ensures
            match result {
                Err(e) => witness_error(*zkey, data@) == Some(e),
                Ok(answer) => witness_error(*zkey, data@) is None && answered(
                    *zkey,
                    data@,
                    *r,
                    *s,
                    prover::key_reduced(*zkey) && r.wf() && s.wf(),
                    answer,
                ),
            },
    {
        let values = match parse_witness_values(data) {
            Ok(values) => values,
            Err(i) => {
                return Err(AnswerError::Witness(i));
            },
        };
        proof {
            zkey::lemma_witness_wf(data@);
        }
        match prover::prove(zkey, &values, r, s) {
            Err(e) => Err(AnswerError::Prove(e)),
            Ok(proof) => {
                let answer = files(zkey, &values, &proof);
                assert(answer.proof@ == json::proof_text(proof));
                Ok(answer)
            },
        }
    }
}

/// The kernel bodies run by a host launcher.
#[derive(Clone, Copy, Debug, Default)]
pub struct OxideCpu;

impl OxideCpu {
    /// The answer of the kernel pipeline with the coefficient groups supplied by
    /// the caller, who may have dropped the key's coefficient list.
    pub fn answer<L: Launcher>(
        &self,
        launcher: &L,
        zkey: &Zkey,
        groups: &CoefficientGroups,
        data: &[u8],
        r: &Fr,
        s: &Fr,
    ) -> (result: Result<Answer, AnswerError>)
        requires
            pipeline::launchable(*zkey),
            pipeline::scatterable(
                groups.a@,
                groups.a_starts@,
                groups.a_constraint@,
                zkey.num_vars as int,
                zkey.domain_size as int,
            ),
            pipeline::scatterable(
                groups.b@,
                groups.b_starts@,
                groups.b_constraint@,
                zkey.num_vars as int,
                zkey.domain_size as int,
            ),
        ensures
            match result {
                Err(e) => witness_error(*zkey, data@) == Some(e),
                Ok(answer) => witness_error(*zkey, data@) is None && answered_with(
                    *zkey,
                    *groups,
                    data@,
                    *r,
                    *s,
                    prover::key_reduced(*zkey) && pipeline::groups_wf(*groups) && r.wf() && s.wf(),
                    answer,
                ),
            },
    {
        let values = match parse_witness_values(data) {
            Ok(values) => values,
            Err(i) => {
                return Err(AnswerError::Witness(i));
            },
        };
        proof {
            zkey::lemma_witness_wf(data@);
        }
        match pipeline::prove_grouped(launcher, zkey, groups, &values, r, s) {
            Err(e) => Err(AnswerError::Prove(e)),
            Ok(proof) => {
                let answer = files(zkey, &values, &proof);
                assert(answer.proof@ == json::proof_text(proof));
                Ok(answer)
            },
        }
    }
}

/// The answer holds the public inputs of the witness, and a proof; where `exact`, it is the
/// Groth16 proof with the quotient of these groups.
pub open spec fn answered_with(
    zkey: Zkey,
    groups: CoefficientGroups,
    data: Seq<u8>,
    r: Fr,
    s: Fr,
    exact: bool,
    answer: Answer,
) -> bool {
    let w = witness(data);
    &&& answer.public@ == json::public_text(w, zkey.num_public as int)
    &&& exists|proof: Proof|
        answer.proof@ == #[trigger] json::proof_text(proof) && (exact ==> proof
            == prover::proof_with(
            zkey,
            pipeline::grouped_quotient(groups, w, zkey.domain_size as nat),
            w,
            r,
            s,
        ))
}

/// An answer with the groups of a key, whether or not the key still has its flat list of
/// coefficients, is an answer of the reference prover. Every key that parses is reduced and
/// lists its coefficients by ascending constraint.
pub proof fn lemma_answers_agree(
    zkey: Zkey,
    held: Zkey,
    groups: CoefficientGroups,
    data: Seq<u8>,
    r: Fr,
    s: Fr,
    answer: Answer,
)
    requires
        zkey.consistent(),
        prover::key_reduced(zkey),
        prover::ascends(zkey.coefficients@),
        groups.of_key(zkey),
        pipeline::but_for_list(held, zkey),
        witness_error(zkey, data) is None,
        r.wf(),
        s.wf(),
        answered_with(held, groups, data, r, s, true, answer),
    ensures
        answered(zkey, data, r, s, true, answer),
{
    let w = witness(data);
    let q = pipeline::grouped_quotient(groups, w, held.domain_size as nat);
    let proof = choose|proof: Proof|
        answer.proof@ == #[trigger] json::proof_text(proof) && proof == prover::proof_with(
            held,
            q,
            w,
            r,
            s,
        );
    zkey::lemma_witness_wf(data);
    device::lemma_proved_is_core(zkey, held, groups, w, r, s, Ok(proof));
}

/// The answer of a device that holds the key: the witness in, the proof out.
pub fn resident_answer<B: Backend>(
    device: &Prover<B>,
    resident: &ResidentZkey<B>,
    data: &[u8],
    r: &Fr,
    s: &Fr,
) -> (result: Result<Answer, AnswerError>)
    requires
        device::right(device.device()),
        resident.wf(),
    ensures
        match result {
            Err(e) => witness_error(resident.zkey(), data@) == Some(e),
            Ok(answer) => witness_error(resident.zkey(), data@) is None && answered_with(
                resident.zkey(),
                resident.groups(),
                data@,
                *r,
                *s,
                prover::key_reduced(resident.zkey()) && pipeline::groups_wf(resident.groups())
                    && r.wf() && s.wf(),
                answer,
            ),
        },
{
    let values = match parse_witness_values(data) {
        Ok(values) => values,
        Err(i) => {
            return Err(AnswerError::Witness(i));
        },
    };
    proof {
        zkey::lemma_witness_wf(data@);
        resident.lemma_public();
    }
    match device.prove_resident(resident, &values, r, s) {
        Err(e) => Err(AnswerError::Prove(e)),
        Ok(proof) => {
            let answer = Answer {
                public: public_json(&values, resident.num_public()),
                proof: proof_json(&proof),
            };
            assert(answer.proof@ == json::proof_text(proof));
            Ok(answer)
        },
    }
}

/// Why a device that may be wrong gave no answer.
#[derive(Debug)]
pub enum AttemptError {
    /// The witness value of this index is not a field element.
    Witness(usize),
    /// There is no proof.
    Device(Fault),
}

impl AttemptError {
    /// The message for a reader.
    pub open spec fn text(self) -> Seq<char> {
        match self {
            AttemptError::Witness(i) => AnswerError::Witness(i).text(),
            AttemptError::Device(f) => f.text(),
        }
    }

    /// The message for a reader.
    pub fn message(&self) -> (r: String)
        ensures
            r@ == self.text(),
    {
        match self {
            AttemptError::Witness(i) => AnswerError::Witness(*i).message(),
            AttemptError::Device(f) => f.message(),
        }
    }
}

/// [`resident_answer`] on a device that may be wrong: the answer holds the proof that the
/// pipeline makes of what the device left, and it is that of [`resident_answer`] where the device
/// leaves what its launches have to.
pub fn attempt_answer<B: Backend>(
    device: &Prover<B>,
    resident: &ResidentZkey<B>,
    data: &[u8],
    r: &Fr,
    s: &Fr,
) -> (result: Result<Answer, AttemptError>)
    requires
        resident.wf(),
    ensures
        result matches Err(AttemptError::Witness(i)) ==> zkey::bad_value(
            data@,
            data@.len() as int / 32,
        ) == Some(i),
        zkey::bad_value(data@, data@.len() as int / 32) matches Some(i) ==> result == Err::<
            Answer,
            AttemptError,
        >(AttemptError::Witness(i)),
        result matches Err(AttemptError::Device(f)) ==> device::proof_left(
            device.device(),
            resident.zkey(),
            resident.groups(),
            witness(data@),
            *r,
            *s,
            Err(f),
        ),
        result matches Ok(answer) ==> answer.public@ == json::public_text(
            witness(data@),
            resident.zkey().num_public as int,
        ) && exists|p: Proof|
            answer.proof@ == #[trigger] json::proof_text(p) && device::proof_left(
                device.device(),
                resident.zkey(),
                resident.groups(),
                witness(data@),
                *r,
                *s,
                Ok(p),
            ),
        device::right(device.device()) ==> match result {
            Ok(answer) => witness_error(resident.zkey(), data@) is None && answered_with(
                resident.zkey(),
                resident.groups(),
                data@,
                *r,
                *s,
                prover::key_reduced(resident.zkey()) && pipeline::groups_wf(resident.groups())
                    && r.wf() && s.wf(),
                answer,
            ),
            Err(AttemptError::Witness(i)) => witness_error(resident.zkey(), data@) == Some(
                AnswerError::Witness(i),
            ),
            Err(AttemptError::Device(Fault::Prove(e))) => witness_error(resident.zkey(), data@)
                == Some(AnswerError::Prove(e)),
            Err(AttemptError::Device(Fault::Digit)) => false,
        },
{
    let values = match parse_witness_values(data) {
        Ok(values) => values,
        Err(i) => {
            return Err(AttemptError::Witness(i));
        },
    };
    proof {
        zkey::lemma_witness_wf(data@);
        resident.lemma_public();
    }
    let made = device.attempt(resident, &values, r, s);
    match made {
        Err(f) => Err(AttemptError::Device(f)),
        Ok(proof) => {
            proof {
                reveal(device::proof_left);
            }
            let answer = Answer {
                public: public_json(&values, resident.num_public()),
                proof: proof_json(&proof),
            };
            assert(answer.proof@ == json::proof_text(proof));
            Ok(answer)
        },
    }
}

/// The answer of a device with nothing resident: every phase uploads what it
/// needs and frees it before the next.
pub fn streaming_answer<B: Backend>(
    device: &Prover<B>,
    zkey: &Zkey,
    groups: &CoefficientGroups,
    data: &[u8],
    r: &Fr,
    s: &Fr,
) -> (result: Result<Answer, AnswerError>)
    requires
        device::right(device.device()),
        device::preparable(*zkey, *groups),
    ensures
        match result {
            Err(e) => witness_error(*zkey, data@) == Some(e),
            Ok(answer) => witness_error(*zkey, data@) is None && answered_with(
                *zkey,
                *groups,
                data@,
                *r,
                *s,
                prover::key_reduced(*zkey) && pipeline::groups_wf(*groups) && r.wf() && s.wf(),
                answer,
            ),
        },
{
    let values = match parse_witness_values(data) {
        Ok(values) => values,
        Err(i) => {
            return Err(AnswerError::Witness(i));
        },
    };
    proof {
        zkey::lemma_witness_wf(data@);
    }
    match device.prove_streaming(zkey, groups, &values, r, s) {
        Err(e) => Err(AnswerError::Prove(e)),
        Ok(proof) => {
            let answer = files(zkey, &values, &proof);
            assert(answer.proof@ == json::proof_text(proof));
            Ok(answer)
        },
    }
}

/// The device pipeline with its kernels on the CPU.
#[derive(Clone, Copy, Debug, Default)]
pub struct MetalCpu;

impl MetalCpu {
    /// The answer of the device pipeline on the CPU, for a key that its buffers hold.
    pub fn answer(
        &self,
        device: &Prover<HostBackend>,
        resident: &ResidentZkey<HostBackend>,
        data: &[u8],
        r: &Fr,
        s: &Fr,
    ) -> (result: Result<Answer, AnswerError>)
        requires
            resident.wf(),
        ensures
            match result {
                Err(e) => witness_error(resident.zkey(), data@) == Some(e),
                Ok(answer) => witness_error(resident.zkey(), data@) is None && answered_with(
                    resident.zkey(),
                    resident.groups(),
                    data@,
                    *r,
                    *s,
                    prover::key_reduced(resident.zkey()) && pipeline::groups_wf(
                        resident.groups(),
                    ) && r.wf() && s.wf(),
                    answer,
                ),
            },
    {
        proof {
            device::lemma_host_is_right(device.device());
        }
        resident_answer(device, resident, data, r, s)
    }
}

// ---- the witness at the boundary ---------------------------------------------------------------

/// The first values of packed field elements are good.
proof fn lemma_no_bad_value(w: Seq<Fr>, n: int)
    requires
        dft::all_wf(w),
        0 <= n <= w.len(),
    ensures
        zkey::bad_value(pack::packed_canonical(w), n) is None,
    decreases n,
{
    if n > 0 {
        lemma_no_bad_value(w, n - 1);
        lemma_boundary_value(w, n - 1);
    }
}

/// A packed value reads back.
proof fn lemma_boundary_value(w: Seq<Fr>, i: int)
    requires
        dft::all_wf(w),
        0 <= i < w.len(),
    ensures
        zkey::witness_value(pack::packed_canonical(w), i) == w[i].val(),
        0 <= w[i].val() < certificates::r(),
{
    assert(w[i].wf());
    Fr::lemma_val(w[i]);
    field::lemma_fr_modulus();
    pack::lemma_canonical_round_trip(w);
    let s = pack::packed_canonical(w);
    bytes::lemma_le_bound(s.subrange(32 * i, 32 * i + 32));
    bytes::lemma_word_sizes();
    limbs::lemma_limbs_of(zkey::witness_value(s, i));
    assert(limbs::value(pack::unpacked_canonical(s)[i]) == w[i].val());
}

/// What the boundary reads of a packed witness is the witness.
pub proof fn lemma_witness_round_trip(w: Seq<Fr>)
    requires
        dft::all_wf(w),
    ensures
        zkey::bad_value(
            pack::packed_canonical(w),
            pack::packed_canonical(w).len() as int / 32,
        ) is None,
        zkey::witness_of(pack::packed_canonical(w)) == w,
{
    let s = pack::packed_canonical(w);
    pack::lemma_canonical_round_trip(w);
    lemma_no_bad_value(w, w.len() as int);
    assert(s.len() / 32 == w.len());
    assert forall|i: int| 0 <= i < w.len() implies #[trigger] zkey::witness_of(s)[i] == w[i] by {
        lemma_boundary_value(w, i);
        assert(w[i].wf());
        Fr::lemma_val(w[i]);
    }
    assert(zkey::witness_of(s) =~= w);
}

/// The witness as the boundary takes it, canonical values one after another, from a `wtns` file.
pub fn boundary_witness(wtns: &[u8]) -> (r: Result<Vec<u8>, WtnsError>)
    ensures
        match r {
            Err(e) => zkey::wtns_error(wtns@) == Some(e),
            Ok(b) => {
                let w = zkey::witness_of(zkey::wtns_data(wtns@));
                &&& zkey::wtns_error(wtns@) is None
                &&& b@ == pack::packed_canonical(w)
            },
        },
{
    match parse_wtns(wtns) {
        Ok(w) => Ok(pack::pack_canonical(&w)),
        Err(e) => Err(e),
    }
}

/// What an answer holds, read back: the residues of the key's public inputs, in their order, in
/// `public.json`, and in `proof.json` the coordinates of one proof.
pub proof fn lemma_answer_reads_back(
    zkey: Zkey,
    data: Seq<u8>,
    r: Fr,
    s: Fr,
    exact: bool,
    answer: Answer,
)
    requires
        answered(zkey, data, r, s, exact, answer),
        zkey.num_public < witness(data).len(),
    ensures
        ({
            let t = answer.public@;
            let inner = t.subrange(1, t.len() - 1);
            let items = reading::fields(inner, ',');
            &&& t[0] == '[' && t.last() == ']'
            &&& zkey.num_public > 0 ==> items.len() == zkey.num_public
            &&& zkey.num_public == 0 ==> inner.len() == 0
            &&& forall|k: int|
                0 <= k < zkey.num_public ==> json::quotes_number(
                    #[trigger] items[k],
                    witness(data)[k + 1].val() as nat,
                )
        }),
        exists|proof: Proof|
            {
                let q = reading::fields(answer.proof@, '"');
                &&& (exact ==> proof == prover::proof_of(zkey, witness(data), r, s))
                &&& json::numbers(seq![q[3], q[5], q[7]]) == #[trigger] json::g1_numbers(proof.a)
                &&& json::numbers(seq![q[11], q[13], q[15], q[17], q[19], q[21]])
                    == #[trigger] json::g2_numbers(proof.b)
                &&& json::numbers(seq![q[25], q[27], q[29]]) == #[trigger] json::g1_numbers(
                    proof.c,
                )
            },
{
    json::lemma_public_reads_back(witness(data), zkey.num_public as int);
    let made = choose|proof: Proof|
        answer.proof@ == #[trigger] json::proof_text(proof) && (exact ==> proof
            == prover::proof_of(zkey, witness(data), r, s));
    json::lemma_proof_reads_back(made);
    assert(json::g1_numbers(made.a) == json::g1_numbers(made.a));
    assert(json::g2_numbers(made.b) == json::g2_numbers(made.b));
    assert(json::g1_numbers(made.c) == json::g1_numbers(made.c));
}

/// Every witness of the key's length that begins with one is accepted, as its values in 32 bytes
/// each, and read as what it is.
pub proof fn lemma_witness_is_accepted(zkey: Zkey, values: Seq<Fr>)
    requires
        values.len() == zkey.num_vars,
        values.len() > 0,
        values[0].val() == 1,
        forall|i: int| 0 <= i < values.len() ==> (#[trigger] values[i]).wf(),
    ensures
        witness_error(zkey, files::values_file(values)) is None,
        witness(files::values_file(values)) == values,
{
    let s = files::values_file(values);
    files::lemma_values_read_back(values);
    assert(s.len() / 32 == values.len());
    Fr::lemma_val(values[0]);
    Fr::lemma_constants();
    Fr::lemma_val(Fr::one_spec());
}

/// What a witness is refused for: the first of its values that is not below the scalar modulus;
/// else a number of values that is not the key's; else a first value other than one.
pub proof fn lemma_witness_is_refused(zkey: Zkey, data: Seq<u8>)
    requires
        data.len() <= usize::MAX,
        zkey.num_vars > 0,
    ensures
        match witness_error(zkey, data) {
            Some(AnswerError::Witness(i)) => {
                &&& 32 * i + 32 <= data.len()
                &&& bytes::le(data.subrange(32 * i, 32 * i + 32)) >= certificates::r()
                &&& forall|j: int|
                    0 <= j < i ==> bytes::le(#[trigger] data.subrange(32 * j, 32 * j + 32))
                        < certificates::r()
            },
            Some(AnswerError::Prove(ProveError::WitnessLength { expected, found })) => expected
                == zkey.num_vars && found == data.len() / 32 && expected != found,
            Some(AnswerError::Prove(ProveError::WitnessConstant)) => data.len() / 32
                == zkey.num_vars && bytes::le(data.subrange(0, 32)) != 1,
            None => data.len() / 32 == zkey.num_vars && bytes::le(data.subrange(0, 32)) == 1
                && forall|j: int|
                0 <= j < data.len() / 32 ==> bytes::le(
                    #[trigger] data.subrange(32 * j, 32 * j + 32),
                ) < certificates::r(),
        },
{
    let n = data.len() as int / 32;
    files::lemma_bad_value_is_first(data, n);
    if zkey::bad_value(data, n) is None && n == zkey.num_vars {
        field::lemma_fr_modulus();
        let first = data.subrange(0, 32);
        let zero: int = 0;
        assert(data.subrange(32 * zero, 32 * zero + 32) == first);
        bytes::lemma_le_bound(first);
        Fr::lemma_of(bytes::le(first));
        Fr::lemma_constants();
        Fr::lemma_val(Fr::one_spec());
    }
}

} // verus!
