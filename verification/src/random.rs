//! Blinding scalars.

use vstd::prelude::*;

use crate::bytes;
use crate::field;
use crate::field::Fr;
use crate::math::ring::Ring;
use crate::text;

verus! {

/// The error of the system's random number source.
#[verifier::external_type_specification]
#[verifier::external_body]
pub struct ExGetrandomError(getrandom::Error);

/// `getrandom::getrandom` fills the slice with bytes of the system's random number source, or
/// reports an error. The claim is only that the slice keeps its length: the bytes are chance.
pub assume_specification[ getrandom::getrandom ](dest: &mut [u8]) -> (r: Result<
    (),
    getrandom::Error,
>)
    ensures
        final(dest)@.len() == old(dest)@.len(),
;

/// The error's `Display` form. Nothing is claimed of it: for an error of the operating system it
/// is the system's own text.
#[verifier::external_body]
fn error_text(e: &getrandom::Error) -> String {
    format!("{e}")
}

/// No randomness could be had.
#[derive(Clone, Debug, PartialEq, Eq)]
pub struct RandomError {
    /// What the system says.
    pub reason: String,
}

impl RandomError {
    /// The message for a reader.
    pub fn message(&self) -> (r: String)
        ensures
            r@ == "randomness unavailable: "@ + self.reason@,
    {
        let mut r = text::owned("randomness unavailable: ");
        text::push(&mut r, self.reason.as_str());
        r
    }
}

/// The scalar that 31 little-endian bytes stand for, which is below the modulus whatever they are.
pub fn scalar_from_bytes(b: &[u8; 31]) -> (r: Fr)
    ensures
        r.wf(),
        r.val() == bytes::le(b@),
        r == Fr::of(bytes::le(b@)),
{
    let mut full: [u8; 32] = [0; 32];
    let mut i: usize = 0;
    while i < 31
        invariant
            i <= 31,
            forall|j: int| 0 <= j < i ==> #[trigger] full@[j] == b@[j],
            forall|j: int| i <= j < 32 ==> #[trigger] full@[j] == 0,
        decreases 31 - i,
    {
        full[i] = b[i];
        i = i + 1;
    }
    proof {
        field::lemma_fr_modulus();
        bytes::lemma_le_bound(b@);
        let zero = seq![0u8];
        assert(full@ =~= b@ + zero);
        bytes::lemma_le_concat(b@, zero);
        assert(bytes::le(zero) == 0) by {
            reveal_with_fuel(bytes::le, 2);
            assert(zero.skip(1).len() == 0);
        }
        let p = vstd::arithmetic::power::pow(256, 31);
        assert(p * 0 == 0) by (nonlinear_arith);
        lemma_31_bytes();
    }
    let x = Fr::from_le_bytes(&full);
    x.unwrap()
}

/// 31 bytes stay below the scalar modulus.
proof fn lemma_31_bytes()
    ensures
        vstd::arithmetic::power::pow(256, 31) < field::fr_modulus().m,
{
    field::lemma_fr_modulus();
    assert(vstd::arithmetic::power::pow(256, 31)
        == 0x100000000000000000000000000000000000000000000000000000000000000int) by {
        reveal_with_fuel(vstd::arithmetic::power::pow, 32);
    }
}

/// The scalar of 31 bytes as they were drawn.
pub fn scalar_of_drawn(drawn: &[u8]) -> (r: Fr)
    requires
        drawn@.len() == 31,
    ensures
        r.wf(),
        r == Fr::of(bytes::le(drawn@)),
{
    let mut b: [u8; 31] = [0; 31];
    let mut i: usize = 0;
    while i < 31
        invariant
            i <= 31,
            drawn@.len() == 31,
            forall|j: int| 0 <= j < i ==> #[trigger] b@[j] == drawn@[j],
        decreases 31 - i,
    {
        b[i] = drawn[i];
        i = i + 1;
    }
    proof {
        assert(b@ =~= drawn@);
    }
    scalar_from_bytes(&b)
}

/// A uniformly random scalar of 31 random bytes: the value is below the
/// modulus by construction.
pub fn random_scalar() -> (r: Result<Fr, RandomError>)
    ensures
        r matches Ok(x) ==> x.wf() && exists|b: Seq<u8>|
            b.len() == 31 && x == Fr::of(#[trigger] bytes::le(b)),
{
    let mut drawn: Vec<u8> = vec![0; 31];
    match getrandom::getrandom(&mut drawn) {
        Err(e) => Err(RandomError { reason: error_text(&e) }),
        Ok(_) => {
            let x = scalar_of_drawn(drawn.as_slice());
            assert(drawn@.len() == 31 && x == Fr::of(bytes::le(drawn@)));
            Ok(x)
        },
    }
}

} // verus!
