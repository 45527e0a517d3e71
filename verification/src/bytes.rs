//! Little-endian byte encodings of words and of 256-bit integers.

use vstd::arithmetic::div_mod::*;
use vstd::arithmetic::mul::*;
use vstd::arithmetic::power::*;
use vstd::prelude::*;

use crate::limbs;

verus! {

/// The integer that little-endian bytes stand for.
pub open spec fn le(s: Seq<u8>) -> int
    decreases s.len(),
{
    if s.len() == 0 {
        0
    } else {
        s[0] + 256 * le(s.skip(1))
    }
}

/// The `n` low little-endian bytes of an integer.
pub open spec fn le_bytes(x: int, n: nat) -> Seq<u8> {
    Seq::new(n, |i: int| ((x / pow(256, i as nat)) % 256) as u8)
}

/// The range of `n` bytes.
pub proof fn lemma_le_bound(s: Seq<u8>)
    ensures
        0 <= le(s) < pow(256, s.len()),
    decreases s.len(),
{
    reveal(pow);
    if s.len() > 0 {
        lemma_le_bound(s.skip(1));
    }
}

/// Concatenation shifts the second part.
pub proof fn lemma_le_concat(s: Seq<u8>, t: Seq<u8>)
    ensures
        le(s + t) == le(s) + pow(256, s.len()) * le(t),
    decreases s.len(),
{
    reveal(pow);
    if s.len() == 0 {
        assert(s + t =~= t);
        lemma_mul_basics(le(t));
    } else {
        assert((s + t).skip(1) =~= s.skip(1) + t);
        lemma_le_concat(s.skip(1), t);
        let p = pow(256, (s.len() - 1) as nat);
        lemma_mul_is_associative(256, p, le(t));
    }
}

proof fn lemma_le_bytes_skip(x: int, n: nat)
    requires
        n > 0,
        x >= 0,
    ensures
        le_bytes(x, n).skip(1) == le_bytes(x / 256, (n - 1) as nat),
        le_bytes(x, n)[0] == x % 256,
{
    lemma_pow0(256);
    assert forall|i: int| 0 <= i < n - 1 implies le_bytes(x, n).skip(1)[i] == le_bytes(
        x / 256,
        (n - 1) as nat,
    )[i] by {
        lemma_pow_adds(256, 1, i as nat);
        lemma_pow1(256);
        lemma_pow_positive(256, i as nat);
        lemma_div_denominator(x, 256, pow(256, i as nat));
    }
    assert(le_bytes(x, n).skip(1) =~= le_bytes(x / 256, (n - 1) as nat));
}

/// Encoding, then decoding.
pub proof fn lemma_le_of_bytes(x: int, n: nat)
    requires
        0 <= x < pow(256, n),
    ensures
        le(le_bytes(x, n)) == x,
    decreases n,
{
    reveal(pow);
    if n > 0 {
        lemma_le_bytes_skip(x, n);
        lemma_fundamental_div_mod(x, 256);
        let p = pow(256, (n - 1) as nat);
        assert(0 <= x / 256 < p) by (nonlinear_arith)
            requires
                0 <= x < 256 * p,
        ;
        lemma_le_of_bytes(x / 256, (n - 1) as nat);
    }
}

/// Decoding, then encoding.
pub proof fn lemma_bytes_of_le(s: Seq<u8>)
    ensures
        le_bytes(le(s), s.len()) == s,
    decreases s.len(),
{
    let n = s.len();
    let b = le_bytes(le(s), n);
    if n > 0 {
        let t = s.skip(1);
        lemma_le_bound(s);
        lemma_le_bytes_skip(le(s), n);
        lemma_fundamental_div_mod_converse(le(s), 256, le(t), s[0] as int);
        lemma_bytes_of_le(t);
        assert forall|i: int| 0 <= i < n implies b[i] == s[i] by {
            if i > 0 {
                assert(b[i] == b.skip(1)[i - 1]);
                assert(s[i] == t[i - 1]);
            }
        }
    }
    assert(b =~= s);
}

/// Different byte strings of one length stand for different integers.
pub proof fn lemma_le_injective(s: Seq<u8>, t: Seq<u8>)
    requires
        s.len() == t.len(),
        le(s) == le(t),
    ensures
        s == t,
{
    lemma_bytes_of_le(s);
    lemma_bytes_of_le(t);
}

/// Powers of 256 that are word sizes.
pub proof fn lemma_word_sizes()
    ensures
        pow(256, 4) == 0x1_0000_0000,
        pow(256, 8) == 0x1_0000_0000_0000_0000int,
        pow(256, 32) == limbs::radix(),
{
    lemma_pow1(256);
    lemma_pow_adds(256, 1, 1);
    lemma_square(pow(256, 1), 256, 0x1_0000);
    lemma_pow_adds(256, 2, 2);
    lemma_square(pow(256, 2), 0x1_0000, 0x1_0000_0000);
    lemma_pow_adds(256, 4, 4);
    lemma_square(pow(256, 4), 0x1_0000_0000, 0x1_0000_0000_0000_0000int);
    lemma_pow_adds(256, 8, 8);
    lemma_square(
        pow(256, 8),
        0x1_0000_0000_0000_0000int,
        0x1_0000_0000_0000_0000_0000_0000_0000_0000int,
    );
    lemma_pow_adds(256, 16, 16);
    lemma_square(pow(256, 16), 0x1_0000_0000_0000_0000_0000_0000_0000_0000int, limbs::radix());
}

proof fn lemma_square(x: int, y: int, z: int)
    requires
        x == y,
        y * y == z,
    ensures
        x * x == z,
{
}

/// The word at byte offset `off`.
#[inline]
pub fn u32_at(b: &[u8], off: usize) -> (r: u32)
    requires
        off + 4 <= b.len(),
    ensures
        r == le(b@.subrange(off as int, off + 4)),
{
    let ghost s = b@.subrange(off as int, off + 4);
    proof {
        reveal_with_fuel(le, 5);
        let t1 = s.skip(1);
        let t2 = t1.skip(1);
        let t3 = t2.skip(1);
        assert(t1[0] == s[1] && t2[0] == s[2] && t3[0] == s[3]);
    }
    (b[off] as u32) + 0x100 * (b[off + 1] as u32) + 0x1_0000 * (b[off + 2] as u32) + 0x100_0000 * (
    b[off + 3] as u32)
}

/// The double word at byte offset `off`.
#[inline]
pub fn u64_at(b: &[u8], off: usize) -> (r: u64)
    requires
        off + 8 <= b.len(),
    ensures
        r == le(b@.subrange(off as int, off + 8)),
{
    let lo: u32 = u32_at(b, off);
    let hi: u32 = u32_at(b, off + 4);
    proof {
        let s = b@.subrange(off as int, off + 4);
        let t = b@.subrange(off + 4, off + 8);
        assert(b@.subrange(off as int, off + 8) =~= s + t);
        lemma_le_concat(s, t);
        lemma_word_sizes();
    }
    (lo as u64) + 0x1_0000_0000 * (hi as u64)
}

/// The 256-bit integer at byte offset `off`, as limbs.
#[inline]
pub fn limbs_at(b: &[u8], off: usize) -> (r: [u64; 4])
    requires
        off + 32 <= b.len(),
    ensures
        limbs::value(r) == le(b@.subrange(off as int, off + 32)),
{
    let r = [u64_at(b, off), u64_at(b, off + 8), u64_at(b, off + 16), u64_at(b, off + 24)];
    proof {
        let s0 = b@.subrange(off as int, off + 8);
        let s1 = b@.subrange(off + 8, off + 16);
        let s2 = b@.subrange(off + 16, off + 24);
        let s3 = b@.subrange(off + 24, off + 32);
        assert(b@.subrange(off as int, off + 32) =~= s0 + (s1 + (s2 + s3)));
        lemma_le_concat(s2, s3);
        lemma_le_concat(s1, s2 + s3);
        lemma_le_concat(s0, s1 + (s2 + s3));
        lemma_word_sizes();
    }
    r
}

/// The bytes of a word.
#[inline]
pub fn u32_bytes(x: u32) -> (r: [u8; 4])
    ensures
        r@ == le_bytes(x as int, 4),
{
    let r = [
        (x % 0x100) as u8,
        ((x / 0x100) % 0x100) as u8,
        ((x / 0x1_0000) % 0x100) as u8,
        (x / 0x100_0000) as u8,
    ];
    proof {
        lemma_pow0(256);
        lemma_pow1(256);
        lemma_pow_adds(256, 1, 1);
        lemma_pow_adds(256, 2, 1);
        lemma_square(pow(256, 1), 256, 0x1_0000);
        assert(pow(256, 3) == 0x100_0000);
        assert(r@ =~= le_bytes(x as int, 4));
    }
    r
}

/// The bytes of a double word.
#[inline]
pub fn u64_bytes(x: u64) -> (r: [u8; 8])
    ensures
        r@ == le_bytes(x as int, 8),
{
    let a = u32_bytes((x % 0x1_0000_0000) as u32);
    let b = u32_bytes((x / 0x1_0000_0000) as u32);
    let r = [a[0], a[1], a[2], a[3], b[0], b[1], b[2], b[3]];
    proof {
        assert(r@ =~= a@ + b@);
        lemma_word_sizes();
        lemma_le_of_bytes(x as int % 0x1_0000_0000, 4);
        lemma_le_of_bytes(x as int / 0x1_0000_0000, 4);
        lemma_le_concat(a@, b@);
        lemma_le_of_bytes(x as int, 8);
        lemma_le_injective(r@, le_bytes(x as int, 8));
    }
    r
}

/// The bytes of a 256-bit integer.
pub fn limbs_bytes(l: &[u64; 4]) -> (r: [u8; 32])
    ensures
        r@ == le_bytes(limbs::value(*l), 32),
{
    let mut r: [u8; 32] = [0; 32];
    let mut i: usize = 0;
    while i < 4
        invariant
            i <= 4,
            forall|j: int|
                0 <= j < 8 * i ==> #[trigger] r[j] == le_bytes(l[j / 8] as int, 8)[j % 8],
        decreases 4 - i,
    {
        let w = u64_bytes(l[i]);
        let mut k: usize = 0;
        while k < 8
            invariant
                k <= 8,
                i < 4,
                w@ == le_bytes(l[i as int] as int, 8),
                forall|j: int|
                    0 <= j < 8 * i + k ==> #[trigger] r[j] == le_bytes(l[j / 8] as int, 8)[j % 8],
            decreases 8 - k,
        {
            r[8 * i + k] = w[k];
            k += 1;
        }
        i += 1;
    }
    proof {
        let (b0, b1, b2, b3) = (
            le_bytes(l[0] as int, 8),
            le_bytes(l[1] as int, 8),
            le_bytes(l[2] as int, 8),
            le_bytes(l[3] as int, 8),
        );
        assert(r@ =~= b0 + (b1 + (b2 + b3)));
        lemma_word_sizes();
        lemma_le_of_bytes(l[0] as int, 8);
        lemma_le_of_bytes(l[1] as int, 8);
        lemma_le_of_bytes(l[2] as int, 8);
        lemma_le_of_bytes(l[3] as int, 8);
        lemma_le_concat(b2, b3);
        lemma_le_concat(b1, b2 + b3);
        lemma_le_concat(b0, b1 + (b2 + b3));
        limbs::lemma_value(*l);
        lemma_le_of_bytes(limbs::value(*l), 32);
        lemma_le_injective(r@, le_bytes(limbs::value(*l), 32));
    }
    r
}

} // verus!
