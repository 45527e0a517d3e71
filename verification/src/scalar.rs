//! Scalar digit decomposition for windowed multi-scalar multiplication.

use vstd::arithmetic::div_mod::*;
use vstd::arithmetic::mul::*;
use vstd::arithmetic::power2::*;
use vstd::bits::*;
use vstd::prelude::*;

use crate::limbs;

verus! {

/// The `w`-bit digit number `window` of a nonnegative integer.
pub open spec fn digit_of(v: int, window: nat, w: nat) -> int {
    (v / (pow2(window * w) as int)) % (pow2(w) as int)
}

/// The `w`-bit digit `window` of a canonical scalar (little-endian limbs).
#[inline]
pub fn digit(scalar: &[u64; 4], window: u32, w: u32) -> (d: u64)
    requires
        w < 64,
        window * w <= u32::MAX,
    ensures
        d == digit_of(limbs::value(*scalar), window as nat, w as nat),
        d < pow2(w as nat),
{
    let start: u32 = window * w;
    let limb: usize = (start / 64) as usize;
    let shift: u128 = (start % 64) as u128;
    proof {
        lemma_pow2_pos(w as nat);
        lemma_pow2_strictly_increases(w as nat, 64);
        lemma2_to64();
        lemma_u64_shl_is_mul(1, w as u64);
        limbs::lemma_value(*scalar);
        lemma_mod_bound(
            limbs::value(*scalar) / (pow2(start as nat) as int),
            pow2(w as nat) as int,
        );
    }
    if limb >= 4 {
        proof {
            limbs::lemma_tail(*scalar, 4);
            lemma_pow2_adds(256, (start - 256) as nat);
            lemma_pow2_pos((start - 256) as nat);
            lemma_pow2_pos(256);
            lemma_div_denominator(
                limbs::value(*scalar),
                pow2(256) as int,
                pow2((start - 256) as nat) as int,
            );
            lemma_div_of0(pow2((start - 256) as nat) as int);
            lemma_small_mod(0, pow2(w as nat));
        }
        return 0;
    }
    let next: u64 = if limb + 1 < 4 {
        scalar[limb + 1]
    } else {
        0
    };
    let pair: u128 = (scalar[limb] as u128) + (next as u128) * limbs::WORD;
    let mask: u64 = (1u64 << w) - 1;
    let d: u64 = ((pair >> shift) % ((mask as u128) + 1)) as u64;
    proof {
        let v = limbs::value(*scalar);
        let l = limb as nat;
        let p = pow2(shift as nat) as int;
        let q = pow2(64 * l) as int;
        let m = pow2(w as nat) as int;
        lemma_u128_shr_is_div(pair, shift);
        limbs::lemma_tail(*scalar, l);
        lemma_pow2_pos(shift as nat);
        lemma_pow2_pos(64 * l);
        lemma_pow2_adds(64 * l, shift as nat);
        assert(64 * l + shift == start);
        lemma_div_denominator(v, q, p);
        // higher limbs contribute a multiple of the digit modulus
        let h = limbs::tail(*scalar, l as int + 2);
        let word2 = 0x1_0000_0000_0000_0000_0000_0000_0000_0000int;
        assert(limbs::tail(*scalar, l as int) == pair + word2 * h);
        let e = pow2((128 - shift - w) as nat) as int;
        lemma_pow2_adds((128 - shift - w) as nat, w as nat);
        lemma_pow2_adds((128 - shift) as nat, shift as nat);
        lemma_pow2_adds(64, 64);
        assert(word2 * h == ((e * h) * m) * p) by (nonlinear_arith)
            requires
                word2 == (e * m) * p,
        ;
        limbs::lemma_div_multiples_vanish_offset(pair as int, (e * h) * m, p);
        lemma_mod_multiples_vanish(e * h, pair as int / p, m);
        lemma_mul_is_commutative(e * h, m);
    }
    d
}

} // verus!
