//! Residues modulo an odd prime in Montgomery form: a residue `v` is stored as
//! `v·2^256 mod m`. The operations on stored values are exact integer formulas,
//! defined for every 256-bit input; on reduced inputs they are the operations
//! of the prime field.

use vstd::arithmetic::div_mod::*;
use vstd::arithmetic::mul::*;
use vstd::arithmetic::power::*;
use vstd::prelude::*;

use super::primes;
use crate::limbs;

verus! {

/// A modulus with the inverses that Montgomery arithmetic uses.
pub struct Modulus {
    /// The modulus.
    pub m: int,
    /// `2^-256` modulo the modulus.
    pub rinv: int,
    /// The negative inverse of the modulus, modulo `2^256`.
    pub ninv: int,
}

impl Modulus {
    /// The constants belong together and the modulus is an odd prime below `2^255`.
    pub open spec fn valid(self) -> bool {
        &&& 2 < self.m
        &&& 2 * self.m < limbs::radix()
        &&& primes::prime(self.m)
        &&& 0 <= self.rinv < self.m
        &&& (limbs::radix() * self.rinv) % self.m == 1
        &&& (self.m * self.ninv + 1) % limbs::radix() == 0
    }

    /// The residue that a stored value stands for.
    pub open spec fn residue(self, a: int) -> int {
        (a * self.rinv) % self.m
    }

    /// How a residue is stored.
    pub open spec fn stored(self, v: int) -> int {
        (v * limbs::radix()) % self.m
    }

    /// Montgomery reduction of a product: the exact quotient
    /// `(x + k·m) / 2^256`, `k = -x/m mod 2^256`.
    pub open spec fn redc(self, x: int) -> int {
        (x + ((x * self.ninv) % limbs::radix()) * self.m) / limbs::radix()
    }

    /// Multiplication of stored values.
    pub open spec fn times(self, a: int, b: int) -> int {
        limbs::reduced_once(self.redc(a * b), self.m)
    }

    /// Addition of stored values.
    pub open spec fn plus(self, a: int, b: int) -> int {
        if a + b >= self.m {
            (a + b - self.m) % limbs::radix()
        } else {
            a + b
        }
    }

    /// Subtraction of stored values.
    pub open spec fn minus(self, a: int, b: int) -> int {
        if a >= b {
            a - b
        } else {
            (a - b + self.m) % limbs::radix()
        }
    }

    /// Negation of a stored value.
    pub open spec fn negative(self, a: int) -> int {
        if a == 0 {
            0
        } else {
            (self.m - a) % limbs::radix()
        }
    }
}

/// The reduction factor is unique, so an exact quotient is the reduction.
pub proof fn lemma_redc(p: Modulus, x: int, k: int, t: int)
    requires
        p.valid(),
        0 <= k < limbs::radix(),
        t * limbs::radix() == x + k * p.m,
    ensures
        t == p.redc(x),
{
    let r = limbs::radix();
    let s = primes::lemma_quotient(p.m * p.ninv + 1, r);
    assert(x * p.ninv == (t * p.ninv - k * s) * r + k) by {
        assert((t * r) * p.ninv == x * p.ninv + k * (p.m * p.ninv)) by (nonlinear_arith)
            requires
                t * r == x + k * p.m,
        ;
        assert(k * (p.m * p.ninv) == (k * s) * r - k) by (nonlinear_arith)
            requires
                p.m * p.ninv + 1 == s * r,
        ;
        assert((t * r) * p.ninv == (t * p.ninv) * r) by (nonlinear_arith);
        lemma_mul_is_distributive_sub_other_way(r, t * p.ninv, k * s);
    }
    lemma_fundamental_div_mod_converse(x * p.ninv, r, t * p.ninv - k * s, k);
    lemma_fundamental_div_mod_converse(t * r, r, t, 0);
}

/// A stored value times the radix is congruent to what it reduces.
proof fn lemma_residue_of_quotient(p: Modulus, x: int, k: int, t: int)
    requires
        p.valid(),
        t * limbs::radix() == x + k * p.m,
    ensures
        t % p.m == (x * p.rinv) % p.m,
{
    let r = limbs::radix();
    lemma_small_mod(1, p.m as nat);
    primes::lemma_congruent(r * p.rinv, 1, p.m);
    let j = primes::lemma_quotient(r * p.rinv - 1, p.m);
    // t = t·(r·rinv) - t·j·m = x·rinv + (k·rinv - t·j)·m
    assert(t == x * p.rinv + (k * p.rinv - t * j) * p.m) by {
        assert((t * r) * p.rinv == x * p.rinv + (k * p.rinv) * p.m) by (nonlinear_arith)
            requires
                t * r == x + k * p.m,
        ;
        assert((t * r) * p.rinv == t + (t * j) * p.m) by (nonlinear_arith)
            requires
                r * p.rinv - 1 == j * p.m,
        ;
        lemma_mul_is_distributive_sub_other_way(p.m, k * p.rinv, t * j);
    }
    lemma_mod_multiples_vanish(k * p.rinv - t * j, x * p.rinv, p.m);
    lemma_mul_is_commutative(p.m, k * p.rinv - t * j);
}

/// The reduction divides exactly.
proof fn lemma_redc_exact(p: Modulus, x: int)
    requires
        p.valid(),
    ensures
        p.redc(x) * limbs::radix() == x + ((x * p.ninv) % limbs::radix()) * p.m,
        0 <= (x * p.ninv) % limbs::radix() < limbs::radix(),
{
    let r = limbs::radix();
    let k = (x * p.ninv) % r;
    lemma_mod_bound(x * p.ninv, r);
    let s = primes::lemma_quotient(p.m * p.ninv + 1, r);
    let j = (x * p.ninv) / r;
    lemma_fundamental_div_mod(x * p.ninv, r);
    assert(x + k * p.m == (x * s - j * p.m) * r) by {
        assert(k * p.m == (x * p.ninv) * p.m - (r * j) * p.m) by (nonlinear_arith)
            requires
                k == x * p.ninv - r * j,
        ;
        assert((x * p.ninv) * p.m == x * (s * r) - x) by (nonlinear_arith)
            requires
                p.m * p.ninv == s * r - 1,
        ;
        assert(x * (s * r) == (x * s) * r) by (nonlinear_arith);
        assert((r * j) * p.m == (j * p.m) * r) by (nonlinear_arith);
        lemma_mul_is_distributive_sub_other_way(r, x * s, j * p.m);
    }
    lemma_fundamental_div_mod_converse((x * s - j * p.m) * r, r, x * s - j * p.m, 0);
}

/// Multiplication stays reduced and multiplies the residues.
pub proof fn lemma_times(p: Modulus, a: int, b: int)
    requires
        p.valid(),
        0 <= a < p.m,
        0 <= b < p.m,
    ensures
        0 <= p.times(a, b) < p.m,
        p.residue(p.times(a, b)) == (p.residue(a) * p.residue(b)) % p.m,
{
    let r = limbs::radix();
    let x = a * b;
    let k = (x * p.ninv) % r;
    let t = p.redc(x);
    lemma_mod_bound(x * p.ninv, r);
    lemma_redc_exact(p, x);
    assert(t * r == x + k * p.m);
    assert(0 <= t < 2 * p.m) by (nonlinear_arith)
        requires
            t * r == x + k * p.m,
            x == a * b,
            0 <= a < p.m,
            0 <= b < p.m,
            0 <= k < r,
            p.m < r,
    ;
    lemma_residue_of_quotient(p, x, k, t);
    let u = p.times(a, b);
    assert(u % p.m == t % p.m) by {
        if t >= p.m {
            lemma_mod_sub_multiples_vanish(t, p.m);
        }
    }
    // u·rinv = a·b·rinv·rinv
    lemma_mul_mod_noop_left(u, p.rinv, p.m);
    lemma_mul_mod_noop_left(x * p.rinv, p.rinv, p.m);
    lemma_mul_mod_noop(a * p.rinv, b * p.rinv, p.m);
    assert((x * p.rinv) * p.rinv == (a * p.rinv) * (b * p.rinv)) by (nonlinear_arith)
        requires
            x == a * b,
    ;
}

/// Addition stays reduced and adds the residues.
pub proof fn lemma_plus(p: Modulus, a: int, b: int)
    requires
        p.valid(),
        0 <= a < p.m,
        0 <= b < p.m,
    ensures
        0 <= p.plus(a, b) < p.m,
        p.residue(p.plus(a, b)) == (p.residue(a) + p.residue(b)) % p.m,
        p.plus(a, b) == (a + b) % p.m,
{
    let u = p.plus(a, b);
    if a + b >= p.m {
        lemma_small_mod((a + b - p.m) as nat, limbs::radix() as nat);
        lemma_mod_sub_multiples_vanish(a + b, p.m);
        lemma_small_mod((a + b - p.m) as nat, p.m as nat);
    } else {
        lemma_small_mod((a + b) as nat, p.m as nat);
    }
    lemma_mul_mod_noop_left(a + b, p.rinv, p.m);
    lemma_mul_is_distributive_add_other_way(p.rinv, a, b);
    lemma_add_mod_noop(a * p.rinv, b * p.rinv, p.m);
}

/// Subtraction stays reduced and subtracts the residues.
pub proof fn lemma_minus(p: Modulus, a: int, b: int)
    requires
        p.valid(),
        0 <= a < p.m,
        0 <= b < p.m,
    ensures
        0 <= p.minus(a, b) < p.m,
        p.residue(p.minus(a, b)) == (p.residue(a) - p.residue(b)) % p.m,
        p.minus(a, b) == (a - b) % p.m,
{
    if a < b {
        lemma_small_mod((a - b + p.m) as nat, limbs::radix() as nat);
        lemma_mod_add_multiples_vanish(a - b, p.m);
        lemma_small_mod((a - b + p.m) as nat, p.m as nat);
    } else {
        lemma_small_mod((a - b) as nat, p.m as nat);
    }
    lemma_mul_mod_noop_left(a - b, p.rinv, p.m);
    lemma_mul_is_distributive_sub_other_way(p.rinv, a, b);
    lemma_sub_mod_noop(a * p.rinv, b * p.rinv, p.m);
}

/// Negation stays reduced and negates the residue.
pub proof fn lemma_negative(p: Modulus, a: int)
    requires
        p.valid(),
        0 <= a < p.m,
    ensures
        0 <= p.negative(a) < p.m,
        p.residue(p.negative(a)) == (-p.residue(a)) % p.m,
        p.negative(a) == p.minus(0, a),
{
    lemma_minus(p, 0, a);
    assert(0 * p.rinv == 0);
    lemma_small_mod(0, p.m as nat);
}

/// Storing and reading back.
pub proof fn lemma_stored(p: Modulus, v: int)
    requires
        p.valid(),
        0 <= v < p.m,
    ensures
        0 <= p.stored(v) < p.m,
        p.residue(p.stored(v)) == v,
{
    let r = limbs::radix();
    lemma_mod_bound(v * r, p.m);
    lemma_mul_mod_noop_left(v * r, p.rinv, p.m);
    lemma_mul_is_associative(v, r, p.rinv);
    lemma_mul_mod_noop_right(v, r * p.rinv, p.m);
    lemma_mul_basics(v);
    lemma_small_mod(v as nat, p.m as nat);
}

/// Reading and storing back; equal residues are equal stored values.
pub proof fn lemma_residue(p: Modulus, a: int)
    requires
        p.valid(),
        0 <= a < p.m,
    ensures
        0 <= p.residue(a) < p.m,
        p.stored(p.residue(a)) == a,
        p.residue(a) == 0 <==> a == 0,
{
    let r = limbs::radix();
    lemma_mod_bound(a * p.rinv, p.m);
    lemma_mul_mod_noop_left(a * p.rinv, r, p.m);
    lemma_mul_is_associative(a, p.rinv, r);
    lemma_mul_is_commutative(p.rinv, r);
    lemma_mul_mod_noop_right(a, r * p.rinv, p.m);
    lemma_mul_basics(a);
    lemma_small_mod(a as nat, p.m as nat);
    lemma_small_mod(0, p.m as nat);
    assert(0 * r == 0);
    assert(0 * p.rinv == 0);
}

/// Stored values with equal residues are equal.
pub proof fn lemma_residue_injective(p: Modulus, a: int, b: int)
    requires
        p.valid(),
        0 <= a < p.m,
        0 <= b < p.m,
        p.residue(a) == p.residue(b),
    ensures
        a == b,
{
    lemma_residue(p, a);
    lemma_residue(p, b);
}

/// The additive laws of stored values.
pub proof fn lemma_additive(p: Modulus, a: int, b: int, c: int)
    requires
        p.valid(),
        0 <= a < p.m,
        0 <= b < p.m,
        0 <= c < p.m,
    ensures
        p.plus(a, b) == p.plus(b, a),
        p.plus(p.plus(a, b), c) == p.plus(a, p.plus(b, c)),
        p.plus(a, 0) == a,
        p.plus(a, p.negative(a)) == 0,
        p.minus(a, b) == p.plus(a, p.negative(b)),
{
    lemma_plus(p, a, b);
    lemma_plus(p, b, c);
    lemma_plus(p, p.plus(a, b), c);
    lemma_plus(p, a, p.plus(b, c));
    lemma_add_mod_noop(a + b, c, p.m);
    lemma_add_mod_noop(a, b + c, p.m);
    lemma_small_mod(a as nat, p.m as nat);
    lemma_small_mod(c as nat, p.m as nat);
    lemma_negative(p, a);
    lemma_negative(p, b);
    lemma_plus(p, a, p.negative(a));
    lemma_plus(p, a, p.negative(b));
    lemma_minus(p, a, b);
    lemma_minus(p, 0, a);
    lemma_minus(p, 0, b);
    lemma_add_mod_noop(a, 0 - a, p.m);
    lemma_add_mod_noop(a, 0 - b, p.m);
    lemma_small_mod(0, p.m as nat);
}

/// The multiplicative laws of stored values.
pub proof fn lemma_multiplicative(p: Modulus, a: int, b: int, c: int)
    requires
        p.valid(),
        0 <= a < p.m,
        0 <= b < p.m,
        0 <= c < p.m,
    ensures
        p.times(a, b) == p.times(b, a),
        p.times(p.times(a, b), c) == p.times(a, p.times(b, c)),
        p.times(a, p.stored(1)) == a,
        p.times(a, p.plus(b, c)) == p.plus(p.times(a, b), p.times(a, c)),
{
    let (x, y, z) = (p.residue(a), p.residue(b), p.residue(c));
    let (ab, bc, ac) = (p.times(a, b), p.times(b, c), p.times(a, c));
    lemma_times(p, a, b);
    lemma_times(p, b, c);
    lemma_times(p, a, c);
    lemma_mul_is_commutative(a, b);
    // associativity
    lemma_times(p, ab, c);
    lemma_times(p, a, bc);
    lemma_mul_mod_noop_left(x * y, z, p.m);
    lemma_mul_mod_noop_right(x, y * z, p.m);
    lemma_mul_is_associative(x, y, z);
    lemma_residue_injective(p, p.times(ab, c), p.times(a, bc));
    // one
    lemma_small_mod(1, p.m as nat);
    lemma_stored(p, 1);
    lemma_times(p, a, p.stored(1));
    lemma_residue(p, a);
    lemma_mul_basics(x);
    lemma_small_mod(x as nat, p.m as nat);
    lemma_residue_injective(p, p.times(a, p.stored(1)), a);
    // distributivity
    lemma_plus(p, b, c);
    lemma_times(p, a, p.plus(b, c));
    lemma_plus(p, ab, ac);
    lemma_mul_mod_noop_right(x, y + z, p.m);
    lemma_mul_is_distributive_add(x, y, z);
    lemma_add_mod_noop(x * y, x * z, p.m);
    lemma_residue_injective(p, p.times(a, p.plus(b, c)), p.plus(ab, ac));
}

/// Multiplication by one leaves the Montgomery form, for every 256-bit value.
pub proof fn lemma_times_one(p: Modulus, a: int)
    requires
        p.valid(),
        0 <= a < limbs::radix(),
    ensures
        p.times(a, 1) == p.residue(a),
{
    let r = limbs::radix();
    let x = a * 1;
    let k = (x * p.ninv) % r;
    let t = p.redc(x);
    lemma_redc_exact(p, x);
    lemma_residue_of_quotient(p, x, k, t);
    assert(0 <= t <= p.m) by (nonlinear_arith)
        requires
            t * r == a + k * p.m,
            0 <= a < r,
            0 <= k < r,
            0 < p.m,
            r > 0,
    ;
    if t == p.m {
        lemma_mod_self_0(p.m);
    } else {
        lemma_small_mod(t as nat, p.m as nat);
    }
}

/// Multiplication by `2^512 mod m` enters the Montgomery form.
pub proof fn lemma_times_square(p: Modulus, v: int, r2: int)
    requires
        p.valid(),
        0 <= v < p.m,
        r2 == (limbs::radix() * limbs::radix()) % p.m,
    ensures
        p.times(v, r2) == p.stored(v),
{
    let r = limbs::radix();
    lemma_mod_bound(r * r, p.m);
    lemma_times(p, v, r2);
    lemma_stored(p, v);
    // residue(r2) == r mod m
    lemma_mul_mod_noop_left(r * r, p.rinv, p.m);
    lemma_mul_is_associative(r, r, p.rinv);
    lemma_mul_mod_noop_right(r, r * p.rinv, p.m);
    lemma_mul_basics(r);
    assert(p.residue(r2) == r % p.m);
    // (v rinv)(r) == v (r rinv) == v
    lemma_mul_mod_noop(v * p.rinv, r, p.m);
    lemma_mul_is_associative(v, p.rinv, r);
    lemma_mul_is_commutative(p.rinv, r);
    lemma_mul_mod_noop_right(v, r * p.rinv, p.m);
    lemma_mul_basics(v);
    lemma_small_mod(v as nat, p.m as nat);
    lemma_residue_injective(p, p.times(v, r2), p.stored(v));
}

/// Two is not zero.
pub proof fn lemma_two(p: Modulus)
    requires
        p.valid(),
    ensures
        p.plus(p.stored(1), p.stored(1)) != 0,
{
    lemma_small_mod(1, p.m as nat);
    lemma_small_mod(2, p.m as nat);
    lemma_small_mod(0, p.m as nat);
    lemma_stored(p, 1);
    lemma_plus(p, p.stored(1), p.stored(1));
    assert(0 * p.rinv == 0);
}

} // verus!
