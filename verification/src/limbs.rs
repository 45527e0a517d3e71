//! Little-endian 64-bit limb arithmetic on 256-bit integers: addition and
//! subtraction with carries, comparison, and Montgomery multiplication with
//! `R = 2^256`.

use vstd::arithmetic::div_mod::*;
use vstd::arithmetic::mul::*;
use vstd::arithmetic::power2::*;
use vstd::bits::*;
use vstd::prelude::*;

verus! {

/// `2^64`.
pub const WORD: u128 = 0x1_0000_0000_0000_0000;

/// `2^256`, the Montgomery radix.
#[verifier::inline]
pub open spec fn radix() -> int {
    0x1_0000_0000_0000_0000_0000_0000_0000_0000_0000_0000_0000_0000_0000_0000_0000_0000int
}

/// The integer that four limbs stand for.
pub open spec fn value(a: [u64; 4]) -> int {
    a[0] + 0x1_0000_0000_0000_0000int * a[1] + 0x1_0000_0000_0000_0000_0000_0000_0000_0000int * a[2]
        + 0x1_0000_0000_0000_0000_0000_0000_0000_0000_0000_0000_0000_0000int * a[3]
}

/// The integer that five limbs stand for.
spec fn value5(t: [u64; 5]) -> int {
    t[0] + 0x1_0000_0000_0000_0000int * t[1] + 0x1_0000_0000_0000_0000_0000_0000_0000_0000int * t[2]
        + 0x1_0000_0000_0000_0000_0000_0000_0000_0000_0000_0000_0000_0000int * t[3] + radix() * t[4]
}

/// The four limbs of an integer below `2^256`.
pub open spec fn limbs_of(x: int) -> [u64; 4] {
    [
        (x % 0x1_0000_0000_0000_0000int) as u64,
        ((x / 0x1_0000_0000_0000_0000int) % 0x1_0000_0000_0000_0000int) as u64,
        ((x / 0x1_0000_0000_0000_0000_0000_0000_0000_0000int) % 0x1_0000_0000_0000_0000int) as u64,
        ((x / 0x1_0000_0000_0000_0000_0000_0000_0000_0000_0000_0000_0000_0000int)
            % 0x1_0000_0000_0000_0000int) as u64,
    ]
}

/// Four limbs stand for an integer below `2^256`, and different limbs for
/// different integers.
pub proof fn lemma_value(a: [u64; 4])
    ensures
        0 <= value(a) < radix(),
        limbs_of(value(a)) == a,
{
    let w = 0x1_0000_0000_0000_0000int;
    let w2 = 0x1_0000_0000_0000_0000_0000_0000_0000_0000int;
    let w3 = 0x1_0000_0000_0000_0000_0000_0000_0000_0000_0000_0000_0000_0000int;
    let x = value(a);
    let x1 = a[1] + w * a[2] + w2 * a[3];
    let x2 = a[2] + w * a[3];
    let x3 = a[3] as int;
    lemma_fundamental_div_mod_converse(x, w, x1, a[0] as int);
    lemma_fundamental_div_mod_converse(x, w2, x2, a[0] + w * a[1]);
    lemma_fundamental_div_mod_converse(x, w3, x3, a[0] + w * a[1] + w2 * a[2]);
    lemma_fundamental_div_mod_converse(x1, w, x2, a[1] as int);
    lemma_fundamental_div_mod_converse(x2, w, x3, a[2] as int);
    lemma_small_mod(x3 as nat, w as nat);
    let b = limbs_of(value(a));
    assert(b[0] == a[0]);
    assert(b[1] == a[1]);
    assert(b[2] == a[2]);
    assert(b[3] == a[3]);
    assert(b =~= a);
}

/// The limbs of an integer stand for it.
pub proof fn lemma_limbs_of(x: int)
    requires
        0 <= x < radix(),
    ensures
        value(limbs_of(x)) == x,
{
    let w = 0x1_0000_0000_0000_0000int;
    let w2 = 0x1_0000_0000_0000_0000_0000_0000_0000_0000int;
    let (y1, y2) = (x / w, x / w2);
    let y3 = x / 0x1_0000_0000_0000_0000_0000_0000_0000_0000_0000_0000_0000_0000int;
    lemma_div_denominator(x, w, w);
    lemma_div_denominator(x, w2, w);
    lemma_fundamental_div_mod(x, w);
    lemma_fundamental_div_mod(y1, w);
    lemma_fundamental_div_mod(y2, w);
    assert(y2 == y1 / w);
    assert(y3 == y2 / w);
    assert(0 <= y3 < w) by (nonlinear_arith)
        requires
            0 <= x < radix(),
            y3 == x / 0x1_0000_0000_0000_0000_0000_0000_0000_0000_0000_0000_0000_0000int,
            w == 0x1_0000_0000_0000_0000int,
    ;
    lemma_small_mod(y3 as nat, w as nat);
    let a = limbs_of(x);
    assert(a[0] == x % w);
    assert(a[1] == y1 % w);
    assert(a[2] == y2 % w);
    assert(a[3] == y3);
}

/// Limbs that stand for the same integer are the same.
pub proof fn lemma_value_injective(a: [u64; 4], b: [u64; 4])
    requires
        value(a) == value(b),
    ensures
        a == b,
{
    lemma_value(a);
    lemma_value(b);
}

/// Whether two values have the same limbs.
#[inline]
pub fn same(a: &[u64; 4], b: &[u64; 4]) -> (r: bool)
    ensures
        r == (*a == *b),
{
    let r = a[0] == b[0] && a[1] == b[1] && a[2] == b[2] && a[3] == b[3];
    proof {
        if r {
            assert(value(*a) == value(*b));
            lemma_value_injective(*a, *b);
        }
    }
    r
}

/// `a + b·c + carry`, as a low and a high word.
#[inline]
fn mac(a: u64, b: u64, c: u64, carry: u64) -> (r: (u64, u64))
    ensures
        r.0 + WORD * r.1 == a + b * c + carry,
{
    assert(b * c <= 0xffff_ffff_ffff_ffffint * 0xffff_ffff_ffff_ffffint) by (nonlinear_arith)
        requires
            0 <= b <= 0xffff_ffff_ffff_ffff,
            0 <= c <= 0xffff_ffff_ffff_ffff,
    ;
    assert(0 <= b * c) by (nonlinear_arith)
        requires
            0 <= b,
            0 <= c,
    ;
    let t: u128 = (a as u128) + (b as u128) * (c as u128) + (carry as u128);
    ((t % WORD) as u64, (t / WORD) as u64)
}

/// `a + b + carry`, as a low and a high word.
#[inline]
fn adc(a: u64, b: u64, carry: u64) -> (r: (u64, u64))
    ensures
        r.0 + WORD * r.1 == a + b + carry,
        carry <= 1 ==> r.1 <= 1,
{
    let t: u128 = (a as u128) + (b as u128) + (carry as u128);
    ((t % WORD) as u64, (t / WORD) as u64)
}

/// `a - b - borrow`, wrapped to a word, and the borrow out.
#[inline]
fn sbb(a: u64, b: u64, borrow: u64) -> (r: (u64, u64))
    requires
        borrow <= 1,
    ensures
        r.0 - WORD * r.1 == a - b - borrow,
        r.1 <= 1,
{
    let x: u128 = (b as u128) + (borrow as u128);
    if (a as u128) >= x {
        (((a as u128) - x) as u64, 0)
    } else {
        ((WORD + (a as u128) - x) as u64, 1)
    }
}

/// `a >= m`.
#[inline]
pub fn geq(a: &[u64; 4], m: &[u64; 4]) -> (r: bool)
    ensures
        r == (value(*a) >= value(*m)),
{
    let mut i: usize = 4;
    while i > 0
        invariant
            i <= 4,
            forall|j: int| i <= j < 4 ==> a[j] == m[j],
        decreases i,
    {
        i -= 1;
        if a[i] != m[i] {
            proof {
                if i == 0 {
                } else if i == 1 {
                } else if i == 2 {
                } else {
                    assert(i == 3);
                }
            }
            return a[i] > m[i];
        }
    }
    true
}

/// `a - m`, wrapped to 256 bits.
#[inline]
pub fn sub_limbs(a: &[u64; 4], m: &[u64; 4]) -> (r: [u64; 4])
    ensures
        value(r) == (value(*a) - value(*m)) % radix(),
        value(*a) >= value(*m) ==> value(r) == value(*a) - value(*m),
{
    let (r, borrow) = sub_borrow(a, m);
    proof {
        lemma_value(*a);
        lemma_value(*m);
        lemma_value(r);
        if borrow == 1 {
            lemma_mod_add_multiples_vanish(value(*a) - value(*m), radix());
        }
        lemma_small_mod(value(r) as nat, radix() as nat);
    }
    r
}

/// `a - b` wrapped to 256 bits, and the borrow out.
#[inline]
pub(crate) fn sub_borrow(a: &[u64; 4], b: &[u64; 4]) -> (r: ([u64; 4], u64))
    ensures
        value(r.0) - radix() * r.1 == value(*a) - value(*b),
        r.1 <= 1,
{
    let (d0, b0) = sbb(a[0], b[0], 0);
    let (d1, b1) = sbb(a[1], b[1], b0);
    let (d2, b2) = sbb(a[2], b[2], b1);
    let (d3, b3) = sbb(a[3], b[3], b2);
    ([d0, d1, d2, d3], b3)
}

/// `a + b` wrapped to 256 bits, and the carry out.
#[inline]
pub(crate) fn add_carry(a: &[u64; 4], b: &[u64; 4]) -> (r: ([u64; 4], u64))
    ensures
        value(r.0) + radix() * r.1 == value(*a) + value(*b),
        r.1 <= 1,
{
    let (s0, c0) = adc(a[0], b[0], 0);
    let (s1, c1) = adc(a[1], b[1], c0);
    let (s2, c2) = adc(a[2], b[2], c1);
    let (s3, c3) = adc(a[3], b[3], c2);
    ([s0, s1, s2, s3], c3)
}

proof fn lemma_value_times(a: [u64; 4], b: u64)
    ensures
        value(a) * b == a[0] * b + 0x1_0000_0000_0000_0000int * (a[1] * b)
            + 0x1_0000_0000_0000_0000_0000_0000_0000_0000int * (a[2] * b)
            + 0x1_0000_0000_0000_0000_0000_0000_0000_0000_0000_0000_0000_0000int * (a[3] * b),
{
    let (w1, w2, w3) = (
        0x1_0000_0000_0000_0000int,
        0x1_0000_0000_0000_0000_0000_0000_0000_0000int,
        0x1_0000_0000_0000_0000_0000_0000_0000_0000_0000_0000_0000_0000int,
    );
    let (x0, x1, x2, x3) = (a[0] as int, w1 * a[1], w2 * a[2], w3 * a[3]);
    lemma_mul_is_distributive_add_other_way(b as int, x0 + x1 + x2, x3);
    lemma_mul_is_distributive_add_other_way(b as int, x0 + x1, x2);
    lemma_mul_is_distributive_add_other_way(b as int, x0, x1);
    lemma_mul_is_associative(w1, a[1] as int, b as int);
    lemma_mul_is_associative(w2, a[2] as int, b as int);
    lemma_mul_is_associative(w3, a[3] as int, b as int);
}

/// One round of coarsely integrated Montgomery multiplication: add `a·b`, then
/// add the multiple of `m` that clears the low word, and shift it out.
#[inline]
fn mont_round(t: &[u64; 5], a: &[u64; 4], b: u64, m: &[u64; 4], inv: u64) -> (r: [u64; 5])
    requires
        (m[0] * inv + 1) % (WORD as int) == 0,
        value5(*t) < value(*a) + value(*m),
    ensures
        value5(r) < value(*a) + value(*m),
        exists|k: int|
            0 <= k < WORD && value5(r) * WORD == value5(*t) + value(*a) * b + #[trigger] (k * value(
                *m,
            )),
{
    let (u0, c0) = mac(t[0], a[0], b, 0);
    let (u1, c1) = mac(t[1], a[1], b, c0);
    let (u2, c2) = mac(t[2], a[2], b, c1);
    let (u3, c3) = mac(t[3], a[3], b, c2);
    let (u4, u5) = adc(t[4], 0, c3);
    let (k, q) = mac(0, u0, inv, 0);
    let (z, d0) = mac(u0, k, m[0], 0);
    let (r0, d1) = mac(u1, k, m[1], d0);
    let (r1, d2) = mac(u2, k, m[2], d1);
    let (r2, d3) = mac(u3, k, m[3], d2);
    let (r3, d4) = adc(u4, 0, d3);
    proof {
        lemma_value_times(*a, b);
        lemma_value_times(*m, k);
        lemma_mul_is_commutative(value(*m), k as int);
        lemma_mul_is_commutative(k as int, m[0] as int);
        lemma_mul_is_commutative(k as int, m[1] as int);
        lemma_mul_is_commutative(k as int, m[2] as int);
        lemma_mul_is_commutative(k as int, m[3] as int);
        // the low word clears
        let w = WORD as int;
        let s = (m[0] * inv + 1) / w;
        lemma_fundamental_div_mod(m[0] * inv + 1, w);
        assert(u0 + k * m[0] == w * (u0 * s - q * m[0])) by (nonlinear_arith)
            requires
                u0 * inv == w * q + k,
                m[0] * inv + 1 == w * s,
        ;
        assert(z == 0) by {
            let e = u0 * s - q * m[0];
            assert(z == w * (e - d0));
            assert(0 <= z < w);
        }
        let total = value5(*t) + value(*a) * b + k * value(*m);
        assert(total == w * (r0 + 0x1_0000_0000_0000_0000int * r1
            + 0x1_0000_0000_0000_0000_0000_0000_0000_0000int * r2
            + 0x1_0000_0000_0000_0000_0000_0000_0000_0000_0000_0000_0000_0000int * r3 + radix() * (d4
            + u5)));
        assert(total < (value(*a) + value(*m)) * w) by (nonlinear_arith)
            requires
                total == value5(*t) + value(*a) * b + k * value(*m),
                value5(*t) < value(*a) + value(*m),
                0 <= b <= w - 1,
                0 <= k <= w - 1,
                value(*a) >= 0,
                value(*m) >= 0,
        ;
        lemma_value(*a);
        lemma_value(*m);
    }
    let top: u64 = u5 + d4;
    let r = [r0, r1, r2, r3, top];
    proof {
        assert(value5(r) * WORD == value5(*t) + value(*a) * b + k as int * value(*m));
    }
    r
}

/// Montgomery multiplication: `(a·b + k·m) / 2^256` for the `k < 2^256` that
/// makes the division exact, less `m` when that is not below `m`.
#[inline]
pub fn mont_mul(a: &[u64; 4], b: &[u64; 4], m: &[u64; 4], inv: u64) -> (r: [u64; 4])
    requires
        (m[0] * inv + 1) % (WORD as int) == 0,
        value(*m) > 0,
    ensures
        exists|k: int, t: int|
            0 <= k < radix() && t * radix() == value(*a) * value(*b) + #[trigger] (k * value(*m))
                && value(r) == #[trigger] reduced_once(t, value(*m)),
{
    let t0: [u64; 5] = [0, 0, 0, 0, 0];
    proof {
        lemma_value(*a);
        lemma_value(*b);
        lemma_value(*m);
    }
    let t1 = mont_round(&t0, a, b[0], m, inv);
    let t2 = mont_round(&t1, a, b[1], m, inv);
    let t3 = mont_round(&t2, a, b[2], m, inv);
    let t4 = mont_round(&t3, a, b[3], m, inv);
    let r = [t4[0], t4[1], t4[2], t4[3]];
    let ghost t = value5(t4);
    proof {
        let (va, vm) = (value(*a), value(*m));
        let w = WORD as int;
        let k0 = choose|k: int|
            0 <= k < WORD && value5(t1) * WORD == value5(t0) + va * b[0] + #[trigger] (k * vm);
        let k1 = choose|k: int|
            0 <= k < WORD && value5(t2) * WORD == value5(t1) + va * b[1] + #[trigger] (k * vm);
        let k2 = choose|k: int|
            0 <= k < WORD && value5(t3) * WORD == value5(t2) + va * b[2] + #[trigger] (k * vm);
        let k3 = choose|k: int|
            0 <= k < WORD && value5(t4) * WORD == value5(t3) + va * b[3] + #[trigger] (k * vm);
        let (w1, w2, w3) = (
            0x1_0000_0000_0000_0000int,
            0x1_0000_0000_0000_0000_0000_0000_0000_0000int,
            0x1_0000_0000_0000_0000_0000_0000_0000_0000_0000_0000_0000_0000int,
        );
        let k = k0 + w1 * k1 + w2 * k2 + w3 * k3;
        assert(va * value(*b) == va * b[0] + w1 * (va * b[1]) + w2 * (va * b[2]) + w3 * (va * b[3]))
            by {
            lemma_four_terms(va, b[0] as int, b[1] as int, b[2] as int, b[3] as int);
        }
        assert(k * vm == k0 * vm + w1 * (k1 * vm) + w2 * (k2 * vm) + w3 * (k3 * vm)) by {
            lemma_four_terms(vm, k0, k1, k2, k3);
            lemma_mul_is_commutative(k, vm);
            lemma_mul_is_commutative(k0, vm);
            lemma_mul_is_commutative(k1, vm);
            lemma_mul_is_commutative(k2, vm);
            lemma_mul_is_commutative(k3, vm);
        }
        assert(t * radix() == va * value(*b) + k * vm);
        assert(t == value(r) + radix() * t4[4]);
        assert(t < va + vm);
        lemma_value(r);
    }
    if t4[4] != 0 || geq(&r, m) {
        let s = sub_limbs(&r, m);
        proof {
            assert(t >= value(*m));
            assert(0 <= t - value(*m) < radix());
            assert(value(s) == t - value(*m)) by {
                if t4[4] == 1 {
                    lemma_mod_add_multiples_vanish(value(r) - value(*m), radix());
                    lemma_small_mod((t - value(*m)) as nat, radix() as nat);
                } else {
                    assert(t4[4] == 0);
                }
            }
            assert(value(s) == reduced_once(t, value(*m)));
        }
        s
    } else {
        proof {
            assert(value(r) == reduced_once(t, value(*m)));
        }
        r
    }
}

/// `t`, less `m` when it is not below `m`.
pub open spec fn reduced_once(t: int, m: int) -> int {
    if t >= m {
        t - m
    } else {
        t
    }
}

proof fn lemma_four_terms(c: int, x0: int, x1: int, x2: int, x3: int)
    ensures
        c * (x0 + 0x1_0000_0000_0000_0000int * x1 + 0x1_0000_0000_0000_0000_0000_0000_0000_0000int * x2
            + 0x1_0000_0000_0000_0000_0000_0000_0000_0000_0000_0000_0000_0000int * x3) == c * x0
            + 0x1_0000_0000_0000_0000int * (c * x1) + 0x1_0000_0000_0000_0000_0000_0000_0000_0000int * (c
            * x2) + 0x1_0000_0000_0000_0000_0000_0000_0000_0000_0000_0000_0000_0000int * (c * x3),
{
    let (w1, w2, w3) = (
        0x1_0000_0000_0000_0000int,
        0x1_0000_0000_0000_0000_0000_0000_0000_0000int,
        0x1_0000_0000_0000_0000_0000_0000_0000_0000_0000_0000_0000_0000int,
    );
    lemma_mul_is_distributive_add(c, x0 + w1 * x1 + w2 * x2, w3 * x3);
    lemma_mul_is_distributive_add(c, x0 + w1 * x1, w2 * x2);
    lemma_mul_is_distributive_add(c, x0, w1 * x1);
    assert(c * (w1 * x1) == w1 * (c * x1)) by (nonlinear_arith);
    assert(c * (w2 * x2) == w2 * (c * x2)) by (nonlinear_arith);
    assert(c * (w3 * x3) == w3 * (c * x3)) by (nonlinear_arith);
}

// ---- bits and digits ------------------------------------------------------------------

/// The limbs from number `l` on, as an integer.
pub open spec fn tail(a: [u64; 4], l: int) -> int {
    if l == 0 {
        value(a)
    } else if l == 1 {
        a[1] + 0x1_0000_0000_0000_0000int * a[2] + 0x1_0000_0000_0000_0000_0000_0000_0000_0000int * a[3]
    } else if l == 2 {
        a[2] + 0x1_0000_0000_0000_0000int * a[3]
    } else if l == 3 {
        a[3] as int
    } else {
        0
    }
}

/// Dropping whole limbs is division by a power of `2^64`.
pub proof fn lemma_tail(a: [u64; 4], l: nat)
    requires
        l <= 4,
    ensures
        tail(a, l as int) == value(a) / (pow2(64 * l) as int),
{
    lemma2_to64();
    lemma_pow2_adds(64, 64);
    lemma_pow2_adds(128, 64);
    lemma_pow2_adds(192, 64);
    lemma_value(a);
    if l == 0 {
        lemma_div_basics(value(a));
    } else if l == 1 {
        lemma_fundamental_div_mod_converse(value(a), pow2(64) as int, tail(a, 1), a[0] as int);
    } else if l == 2 {
        lemma_fundamental_div_mod_converse(
            value(a),
            pow2(128) as int,
            tail(a, 2),
            a[0] + 0x1_0000_0000_0000_0000int * a[1],
        );
    } else if l == 3 {
        lemma_fundamental_div_mod_converse(
            value(a),
            pow2(192) as int,
            tail(a, 3),
            a[0] + 0x1_0000_0000_0000_0000int * a[1]
                + 0x1_0000_0000_0000_0000_0000_0000_0000_0000int * a[2],
        );
    } else {
        lemma_fundamental_div_mod_converse(value(a), pow2(256) as int, 0, value(a));
    }
}

/// Bit `i` of a 256-bit integer.
pub open spec fn bit(v: int, i: nat) -> bool {
    (v / (pow2(i) as int)) % 2 == 1
}

/// Bit `i`, `i < 256`.
#[inline]
pub fn bit_at(k: &[u64; 4], i: u32) -> (r: bool)
    requires
        i < 256,
    ensures
        r == bit(value(*k), i as nat),
{
    let l: usize = (i / 64) as usize;
    let s: u64 = (i % 64) as u64;
    proof {
        lemma_u64_shr_is_div(k[l as int], s);
        lemma_tail(*k, l as nat);
        let p = pow2(s as nat) as int;
        let q = pow2(64 * l as nat) as int;
        lemma_pow2_pos(s as nat);
        lemma_pow2_pos(64 * l as nat);
        lemma_pow2_adds(64 * l as nat, s as nat);
        assert(64 * l + s == i);
        lemma_value(*k);
        lemma_div_denominator(value(*k), q, p);
        // the higher limbs contribute an even number
        let h = tail(*k, l + 1);
        let x = k[l as int] as int;
        assert(tail(*k, l as int) == x + 0x1_0000_0000_0000_0000int * h);
        let e = pow2((63 - s) as nat) as int;
        lemma_pow2_adds((63 - s) as nat, s as nat);
        lemma_pow2_adds(63, 1);
        lemma2_to64();
        assert(0x1_0000_0000_0000_0000int * h == (2 * (e * h)) * p) by (nonlinear_arith)
            requires
                0x1_0000_0000_0000_0000int == 2 * (e * p),
        ;
        lemma_div_multiples_vanish_offset(x, 2 * (e * h), p);
        assert(((x / p) + 2 * (e * h)) % 2 == (x / p) % 2) by {
            lemma_mod_multiples_vanish(e * h, x / p, 2);
        }
    }
    (k[l] >> s) % 2 == 1
}

/// `(x + j·d) / d == x / d + j`.
pub proof fn lemma_div_multiples_vanish_offset(x: int, j: int, d: int)
    requires
        d > 0,
    ensures
        (x + j * d) / d == x / d + j,
{
    lemma_fundamental_div_mod(x, d);
    lemma_mod_bound(x, d);
    lemma_mul_is_distributive_add_other_way(d, x / d, j);
    lemma_mul_is_commutative(d, x / d);
    lemma_fundamental_div_mod_converse(x + j * d, d, x / d + j, x % d);
}

/// The leading bits of a value, without its `i` lowest.
pub open spec fn leading(k: [u64; 4], i: nat) -> nat {
    (value(k) / (pow2(i) as int)) as nat
}

/// Above bit 255 there is nothing.
pub proof fn lemma_bits_start(k: [u64; 4])
    ensures
        leading(k, 256) == 0,
{
    lemma_tail(k, 4);
}

/// Down to bit 0 there is everything.
pub proof fn lemma_bits_end(k: [u64; 4])
    ensures
        leading(k, 0) == value(k),
{
    lemma2_to64();
    lemma_value(k);
    lemma_div_basics(value(k));
}

/// Each bit doubles the leading part and adds itself.
pub proof fn lemma_bits_step(k: [u64; 4], i: nat)
    ensures
        leading(k, i) == 2 * leading(k, i + 1) + (if bit(value(k), i) {
            1nat
        } else {
            0nat
        }),
{
    let v = value(k);
    lemma_value(k);
    lemma_pow2_adds(i, 1);
    lemma2_to64();
    lemma_pow2_pos(i);
    lemma_div_denominator(v, pow2(i) as int, 2);
    lemma_fundamental_div_mod(v / (pow2(i) as int), 2);
    lemma_div_pos_is_pos(v, pow2(i) as int);
    lemma_div_pos_is_pos(v, pow2(i + 1) as int);
}

} // verus!
