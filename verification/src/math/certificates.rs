//! Primality certificates for the two BN254 moduli: a tree of Pocklington
//! certificates with base two, whose leaves are proved by trial division.

use vstd::arithmetic::div_mod::*;
use vstd::arithmetic::power::*;
use vstd::prelude::*;

use super::primes;

verus! {

/// The BN254 base-field modulus.
#[verifier::inline]
pub open spec fn q() -> int {
    0x30644e72e131a029b85045b68181585d97816a916871ca8d3c208c16d87cfd47int
}

/// The BN254 scalar-field modulus.
#[verifier::inline]
pub open spec fn r() -> int {
    0x30644e72e131a029b85045b68181585d2833e84879b9709143e1f593f0000001int
}

/// [`primes::lemma_pocklington_step`] with base two, stated on the reduced power `x`.
proof fn lemma_cofactor(n: int, l: int, h: int, x: int, y: int)
    requires
        n > 1,
        h >= 0,
        primes::prime(l),
        n - 1 == l * h,
        pow(2, (n - 1) as nat) % n == 1,
        pow(2, h as nat) % n == x,
        ((x - 1) * y) % n == 1,
    ensures
        primes::factors_one_mod(n, l),
{
    let u = pow(2, h as nat);
    lemma_sub_mod_noop(u, 1, n);
    lemma_sub_mod_noop(x, 1, n);
    lemma_mod_twice(u, n);
    assert((u - 1) % n == (x - 1) % n);
    lemma_mul_mod_noop_left(u - 1, y, n);
    lemma_mul_mod_noop_left(x - 1, y, n);
    primes::lemma_pocklington_step(n, l, h, 2, y);
}

proof fn lemma_prime_127()
    ensures
        primes::prime(127int),
{
    assert forall|d: int| 2 <= d < 12 implies #[trigger] (127int % d) != 0 by {
        assert(d == 2 || d == 3 || d == 4 || d == 5 || d == 6 || d == 7 || d == 8 || d == 9 || d == 10 || d == 11);
    }
    primes::lemma_prime_by_trial(127int, 12);
}

/// `2^(n-1)` modulo `n = 3557`.
proof fn power_3557()
    ensures
        pow(2int, 0xde4int as nat) % 0xde5int == 1int,
{
    assert((2int * 2int) % 0xde5int == 4int) by (nonlinear_arith);
    assert((4int * 2int) % 0xde5int == 8int) by (nonlinear_arith);
    primes::lemma_pow_table(2int, 4int, 8int, 0xde5int);
    let e = 0nat;
    let e = primes::lemma_pow_digit(2int, e, 3, 8int, 0xde5int);
    assert(primes::shift(1int, 8int, 0xde5int) == 8int) by (nonlinear_arith) {
        reveal(primes::shift);
    }
    let e = primes::lemma_pow_digit(2int, e, 1, 2int, 0xde5int);
    assert(primes::shift(8int, 2int, 0xde5int) == 0x436int) by (nonlinear_arith) {
        reveal(primes::shift);
    }
    let e = primes::lemma_pow_digit(2int, e, 3, 8int, 0xde5int);
    assert(primes::shift(0x436int, 8int, 0xde5int) == 0x405int) by (nonlinear_arith) {
        reveal(primes::shift);
    }
    let e = primes::lemma_pow_digit(2int, e, 2, 4int, 0xde5int);
    assert(primes::shift(0x405int, 4int, 0xde5int) == 0x43aint) by (nonlinear_arith) {
        reveal(primes::shift);
    }
    let e = primes::lemma_pow_digit(2int, e, 1, 2int, 0xde5int);
    assert(primes::shift(0x43aint, 2int, 0xde5int) == 0xa36int) by (nonlinear_arith) {
        reveal(primes::shift);
    }
    let e = primes::lemma_pow_digit(2int, e, 0, 1int, 0xde5int);
    assert(primes::shift(0xa36int, 1int, 0xde5int) == 1int) by (nonlinear_arith) {
        reveal(primes::shift);
    }
    assert(e == 0xde4int);
}

/// `2^((n-1)/127)` modulo `n = 3557`.
proof fn power_3557_over_127()
    ensures
        pow(2int, 0x1cint as nat) % 0xde5int == 0xb4eint,
{
    assert((2int * 2int) % 0xde5int == 4int) by (nonlinear_arith);
    assert((4int * 2int) % 0xde5int == 8int) by (nonlinear_arith);
    primes::lemma_pow_table(2int, 4int, 8int, 0xde5int);
    let e = 0nat;
    let e = primes::lemma_pow_digit(2int, e, 1, 2int, 0xde5int);
    assert(primes::shift(1int, 2int, 0xde5int) == 2int) by (nonlinear_arith) {
        reveal(primes::shift);
    }
    let e = primes::lemma_pow_digit(2int, e, 3, 8int, 0xde5int);
    assert(primes::shift(2int, 8int, 0xde5int) == 0x80int) by (nonlinear_arith) {
        reveal(primes::shift);
    }
    let e = primes::lemma_pow_digit(2int, e, 0, 1int, 0xde5int);
    assert(primes::shift(0x80int, 1int, 0xde5int) == 0xb4eint) by (nonlinear_arith) {
        reveal(primes::shift);
    }
    assert(e == 0x1cint);
}

proof fn lemma_prime_3557()
    ensures
        primes::prime(0xde5int),
{
    power_3557();
    power_3557_over_127();
    lemma_prime_127();
    assert((0xb4dint * 0x6cdint) % 0xde5int == 1) by (nonlinear_arith);
    assert(127int * 0x1cint == 0xde4int) by (nonlinear_arith);
    lemma_cofactor(0xde5int, 127int, 0x1cint, 0xb4eint, 0x6cdint);
    assert((0x7fint + 1) * (0x7fint + 1) > 0xde5int) by (nonlinear_arith);
    primes::lemma_pocklington(0xde5int, 0x7fint);
}

proof fn lemma_prime_13()
    ensures
        primes::prime(13int),
{
    assert forall|d: int| 2 <= d < 4 implies #[trigger] (13int % d) != 0 by {
        assert(d == 2 || d == 3);
    }
    primes::lemma_prime_by_trial(13int, 4);
}

/// `2^(n-1)` modulo `n = 1263766531`.
proof fn power_1263766531()
    ensures
        pow(2int, 0x4b538c02int as nat) % 0x4b538c03int == 1int,
{
    assert((2int * 2int) % 0x4b538c03int == 4int) by (nonlinear_arith);
    assert((4int * 2int) % 0x4b538c03int == 8int) by (nonlinear_arith);
    primes::lemma_pow_table(2int, 4int, 8int, 0x4b538c03int);
    let e = 0nat;
    let e = primes::lemma_pow_digit(2int, e, 1, 2int, 0x4b538c03int);
    assert(primes::shift(1int, 2int, 0x4b538c03int) == 2int) by (nonlinear_arith) {
        reveal(primes::shift);
    }
    let e = primes::lemma_pow_digit(2int, e, 0, 1int, 0x4b538c03int);
    assert(primes::shift(2int, 1int, 0x4b538c03int) == 0x10int) by (nonlinear_arith) {
        reveal(primes::shift);
    }
    let e = primes::lemma_pow_digit(2int, e, 2, 4int, 0x4b538c03int);
    assert(primes::shift(0x10int, 4int, 0x4b538c03int) == 0x40000int) by (nonlinear_arith) {
        reveal(primes::shift);
    }
    let e = primes::lemma_pow_digit(2int, e, 3, 8int, 0x4b538c03int);
    assert(primes::shift(0x40000int, 8int, 0x4b538c03int) == 0x2eef4e39int) by (nonlinear_arith) {
        reveal(primes::shift);
    }
    let e = primes::lemma_pow_digit(2int, e, 1, 2int, 0x4b538c03int);
    assert(primes::shift(0x2eef4e39int, 2int, 0x4b538c03int) == 0x3600c0e5int) by (nonlinear_arith) {
        reveal(primes::shift);
    }
    let e = primes::lemma_pow_digit(2int, e, 1, 2int, 0x4b538c03int);
    assert(primes::shift(0x3600c0e5int, 2int, 0x4b538c03int) == 0x3d6bdb57int) by (nonlinear_arith) {
        reveal(primes::shift);
    }
    let e = primes::lemma_pow_digit(2int, e, 0, 1int, 0x4b538c03int);
    assert(primes::shift(0x3d6bdb57int, 1int, 0x4b538c03int) == 0x1ba6b7d4int) by (nonlinear_arith) {
        reveal(primes::shift);
    }
    let e = primes::lemma_pow_digit(2int, e, 3, 8int, 0x4b538c03int);
    assert(primes::shift(0x1ba6b7d4int, 8int, 0x4b538c03int) == 0x1c32e97int) by (nonlinear_arith) {
        reveal(primes::shift);
    }
    let e = primes::lemma_pow_digit(2int, e, 2, 4int, 0x4b538c03int);
    assert(primes::shift(0x1c32e97int, 4int, 0x4b538c03int) == 0x15f0a7bint) by (nonlinear_arith) {
        reveal(primes::shift);
    }
    let e = primes::lemma_pow_digit(2int, e, 0, 1int, 0x4b538c03int);
    assert(primes::shift(0x15f0a7bint, 1int, 0x4b538c03int) == 0x459f4e51int) by (nonlinear_arith) {
        reveal(primes::shift);
    }
    let e = primes::lemma_pow_digit(2int, e, 3, 8int, 0x4b538c03int);
    assert(primes::shift(0x459f4e51int, 8int, 0x4b538c03int) == 0x267d2530int) by (nonlinear_arith) {
        reveal(primes::shift);
    }
    let e = primes::lemma_pow_digit(2int, e, 0, 1int, 0x4b538c03int);
    assert(primes::shift(0x267d2530int, 1int, 0x4b538c03int) == 0x104c7285int) by (nonlinear_arith) {
        reveal(primes::shift);
    }
    let e = primes::lemma_pow_digit(2int, e, 0, 1int, 0x4b538c03int);
    assert(primes::shift(0x104c7285int, 1int, 0x4b538c03int) == 0x123b19d6int) by (nonlinear_arith) {
        reveal(primes::shift);
    }
    let e = primes::lemma_pow_digit(2int, e, 0, 1int, 0x4b538c03int);
    assert(primes::shift(0x123b19d6int, 1int, 0x4b538c03int) == 0x35f679caint) by (nonlinear_arith) {
        reveal(primes::shift);
    }
    let e = primes::lemma_pow_digit(2int, e, 0, 1int, 0x4b538c03int);
    assert(primes::shift(0x35f679caint, 1int, 0x4b538c03int) == 0xb4c431eint) by (nonlinear_arith) {
        reveal(primes::shift);
    }
    let e = primes::lemma_pow_digit(2int, e, 2, 4int, 0x4b538c03int);
    assert(primes::shift(0xb4c431eint, 4int, 0x4b538c03int) == 1int) by (nonlinear_arith) {
        reveal(primes::shift);
    }
    assert(e == 0x4b538c02int);
}

/// `2^((n-1)/3557)` modulo `n = 1263766531`.
proof fn power_1263766531_over_3557()
    ensures
        pow(2int, 0x56bdaint as nat) % 0x4b538c03int == 0x880d6c5int,
{
    assert((2int * 2int) % 0x4b538c03int == 4int) by (nonlinear_arith);
    assert((4int * 2int) % 0x4b538c03int == 8int) by (nonlinear_arith);
    primes::lemma_pow_table(2int, 4int, 8int, 0x4b538c03int);
    let e = 0nat;
    let e = primes::lemma_pow_digit(2int, e, 1, 2int, 0x4b538c03int);
    assert(primes::shift(1int, 2int, 0x4b538c03int) == 2int) by (nonlinear_arith) {
        reveal(primes::shift);
    }
    let e = primes::lemma_pow_digit(2int, e, 1, 2int, 0x4b538c03int);
    assert(primes::shift(2int, 2int, 0x4b538c03int) == 0x20int) by (nonlinear_arith) {
        reveal(primes::shift);
    }
    let e = primes::lemma_pow_digit(2int, e, 1, 2int, 0x4b538c03int);
    assert(primes::shift(0x20int, 2int, 0x4b538c03int) == 0x200000int) by (nonlinear_arith) {
        reveal(primes::shift);
    }
    let e = primes::lemma_pow_digit(2int, e, 2, 4int, 0x4b538c03int);
    assert(primes::shift(0x200000int, 4int, 0x4b538c03int) == 0x603e90cint) by (nonlinear_arith) {
        reveal(primes::shift);
    }
    let e = primes::lemma_pow_digit(2int, e, 2, 4int, 0x4b538c03int);
    assert(primes::shift(0x603e90cint, 4int, 0x4b538c03int) == 0x41af13eint) by (nonlinear_arith) {
        reveal(primes::shift);
    }
    let e = primes::lemma_pow_digit(2int, e, 3, 8int, 0x4b538c03int);
    assert(primes::shift(0x41af13eint, 8int, 0x4b538c03int) == 0x23dfb483int) by (nonlinear_arith) {
        reveal(primes::shift);
    }
    let e = primes::lemma_pow_digit(2int, e, 3, 8int, 0x4b538c03int);
    assert(primes::shift(0x23dfb483int, 8int, 0x4b538c03int) == 0x262336d8int) by (nonlinear_arith) {
        reveal(primes::shift);
    }
    let e = primes::lemma_pow_digit(2int, e, 1, 2int, 0x4b538c03int);
    assert(primes::shift(0x262336d8int, 2int, 0x4b538c03int) == 0x1ef4d547int) by (nonlinear_arith) {
        reveal(primes::shift);
    }
    let e = primes::lemma_pow_digit(2int, e, 2, 4int, 0x4b538c03int);
    assert(primes::shift(0x1ef4d547int, 4int, 0x4b538c03int) == 0x2759200bint) by (nonlinear_arith) {
        reveal(primes::shift);
    }
    let e = primes::lemma_pow_digit(2int, e, 2, 4int, 0x4b538c03int);
    assert(primes::shift(0x2759200bint, 4int, 0x4b538c03int) == 0x880d6c5int) by (nonlinear_arith) {
        reveal(primes::shift);
    }
    assert(e == 0x56bdaint);
}

/// `2^((n-1)/13)` modulo `n = 1263766531`.
proof fn power_1263766531_over_13()
    ensures
        pow(2int, 0x5cb598aint as nat) % 0x4b538c03int == 0x2bba0211int,
{
    assert((2int * 2int) % 0x4b538c03int == 4int) by (nonlinear_arith);
    assert((4int * 2int) % 0x4b538c03int == 8int) by (nonlinear_arith);
    primes::lemma_pow_table(2int, 4int, 8int, 0x4b538c03int);
    let e = 0nat;
    let e = primes::lemma_pow_digit(2int, e, 1, 2int, 0x4b538c03int);
    assert(primes::shift(1int, 2int, 0x4b538c03int) == 2int) by (nonlinear_arith) {
        reveal(primes::shift);
    }
    let e = primes::lemma_pow_digit(2int, e, 1, 2int, 0x4b538c03int);
    assert(primes::shift(2int, 2int, 0x4b538c03int) == 0x20int) by (nonlinear_arith) {
        reveal(primes::shift);
    }
    let e = primes::lemma_pow_digit(2int, e, 3, 8int, 0x4b538c03int);
    assert(primes::shift(0x20int, 8int, 0x4b538c03int) == 0x800000int) by (nonlinear_arith) {
        reveal(primes::shift);
    }
    let e = primes::lemma_pow_digit(2int, e, 0, 1int, 0x4b538c03int);
    assert(primes::shift(0x800000int, 1int, 0x4b538c03int) == 0x85886f1int) by (nonlinear_arith) {
        reveal(primes::shift);
    }
    let e = primes::lemma_pow_digit(2int, e, 2, 4int, 0x4b538c03int);
    assert(primes::shift(0x85886f1int, 4int, 0x4b538c03int) == 0x37d014fcint) by (nonlinear_arith) {
        reveal(primes::shift);
    }
    let e = primes::lemma_pow_digit(2int, e, 3, 8int, 0x4b538c03int);
    assert(primes::shift(0x37d014fcint, 8int, 0x4b538c03int) == 0x12286d2aint) by (nonlinear_arith) {
        reveal(primes::shift);
    }
    let e = primes::lemma_pow_digit(2int, e, 1, 2int, 0x4b538c03int);
    assert(primes::shift(0x12286d2aint, 2int, 0x4b538c03int) == 0x1ada9a66int) by (nonlinear_arith) {
        reveal(primes::shift);
    }
    let e = primes::lemma_pow_digit(2int, e, 1, 2int, 0x4b538c03int);
    assert(primes::shift(0x1ada9a66int, 2int, 0x4b538c03int) == 0x3a7f41aint) by (nonlinear_arith) {
        reveal(primes::shift);
    }
    let e = primes::lemma_pow_digit(2int, e, 2, 4int, 0x4b538c03int);
    assert(primes::shift(0x3a7f41aint, 4int, 0x4b538c03int) == 0x257df2c3int) by (nonlinear_arith) {
        reveal(primes::shift);
    }
    let e = primes::lemma_pow_digit(2int, e, 1, 2int, 0x4b538c03int);
    assert(primes::shift(0x257df2c3int, 2int, 0x4b538c03int) == 0x1fffad24int) by (nonlinear_arith) {
        reveal(primes::shift);
    }
    let e = primes::lemma_pow_digit(2int, e, 2, 4int, 0x4b538c03int);
    assert(primes::shift(0x1fffad24int, 4int, 0x4b538c03int) == 0x4911b440int) by (nonlinear_arith) {
        reveal(primes::shift);
    }
    let e = primes::lemma_pow_digit(2int, e, 0, 1int, 0x4b538c03int);
    assert(primes::shift(0x4911b440int, 1int, 0x4b538c03int) == 0x3ce517bdint) by (nonlinear_arith) {
        reveal(primes::shift);
    }
    let e = primes::lemma_pow_digit(2int, e, 2, 4int, 0x4b538c03int);
    assert(primes::shift(0x3ce517bdint, 4int, 0x4b538c03int) == 0xa23e1aeint) by (nonlinear_arith) {
        reveal(primes::shift);
    }
    let e = primes::lemma_pow_digit(2int, e, 2, 4int, 0x4b538c03int);
    assert(primes::shift(0xa23e1aeint, 4int, 0x4b538c03int) == 0x2bba0211int) by (nonlinear_arith) {
        reveal(primes::shift);
    }
    assert(e == 0x5cb598aint);
}

proof fn lemma_prime_1263766531()
    ensures
        primes::prime(0x4b538c03int),
{
    power_1263766531();
    power_1263766531_over_3557();
    power_1263766531_over_13();
    lemma_prime_3557();
    assert((0x880d6c4int * 0x40a7c10dint) % 0x4b538c03int == 1) by (nonlinear_arith);
    assert(0xde5int * 0x56bdaint == 0x4b538c02int) by (nonlinear_arith);
    lemma_cofactor(0x4b538c03int, 0xde5int, 0x56bdaint, 0x880d6c5int, 0x40a7c10dint);
    lemma_prime_13();
    assert((0x2bba0210int * 0x267a63c8int) % 0x4b538c03int == 1) by (nonlinear_arith);
    assert(13int * 0x5cb598aint == 0x4b538c02int) by (nonlinear_arith);
    lemma_cofactor(0x4b538c03int, 13int, 0x5cb598aint, 0x2bba0211int, 0x267a63c8int);
    assert(0xde5int % 13int != 0) by (nonlinear_arith);
    primes::lemma_pocklington_combine(0x4b538c03int, 0xde5int, 13int);
    assert(0xde5int * 13int == 0xb4a1int) by (nonlinear_arith);
    assert((0xb4a1int + 1) * (0xb4a1int + 1) > 0x4b538c03int) by (nonlinear_arith);
    primes::lemma_pocklington(0x4b538c03int, 0xb4a1int);
}

/// `2^(n-1)` modulo `n = 35385462869`.
proof fn power_35385462869()
    ensures
        pow(2int, 0x83d235054int as nat) % 0x83d235055int == 1int,
{
    assert((2int * 2int) % 0x83d235055int == 4int) by (nonlinear_arith);
    assert((4int * 2int) % 0x83d235055int == 8int) by (nonlinear_arith);
    primes::lemma_pow_table(2int, 4int, 8int, 0x83d235055int);
    let e = 0nat;
    let e = primes::lemma_pow_digit(2int, e, 2, 4int, 0x83d235055int);
    assert(primes::shift(1int, 4int, 0x83d235055int) == 4int) by (nonlinear_arith) {
        reveal(primes::shift);
    }
    let e = primes::lemma_pow_digit(2int, e, 0, 1int, 0x83d235055int);
    assert(primes::shift(4int, 1int, 0x83d235055int) == 0x100int) by (nonlinear_arith) {
        reveal(primes::shift);
    }
    let e = primes::lemma_pow_digit(2int, e, 0, 1int, 0x83d235055int);
    assert(primes::shift(0x100int, 1int, 0x83d235055int) == 0x100000000int) by (nonlinear_arith) {
        reveal(primes::shift);
    }
    let e = primes::lemma_pow_digit(2int, e, 3, 8int, 0x83d235055int);
    assert(primes::shift(0x100000000int, 8int, 0x83d235055int) == 0x15cfc1bd4int) by (nonlinear_arith) {
        reveal(primes::shift);
    }
    let e = primes::lemma_pow_digit(2int, e, 3, 8int, 0x83d235055int);
    assert(primes::shift(0x15cfc1bd4int, 8int, 0x83d235055int) == 0x1cfee05c1int) by (nonlinear_arith) {
        reveal(primes::shift);
    }
    let e = primes::lemma_pow_digit(2int, e, 1, 2int, 0x83d235055int);
    assert(primes::shift(0x1cfee05c1int, 2int, 0x83d235055int) == 0x46f827f63int) by (nonlinear_arith) {
        reveal(primes::shift);
    }
    let e = primes::lemma_pow_digit(2int, e, 0, 1int, 0x83d235055int);
    assert(primes::shift(0x46f827f63int, 1int, 0x83d235055int) == 0x2c6acc568int) by (nonlinear_arith) {
        reveal(primes::shift);
    }
    let e = primes::lemma_pow_digit(2int, e, 2, 4int, 0x83d235055int);
    assert(primes::shift(0x2c6acc568int, 4int, 0x83d235055int) == 0x344fec26fint) by (nonlinear_arith) {
        reveal(primes::shift);
    }
    let e = primes::lemma_pow_digit(2int, e, 0, 1int, 0x83d235055int);
    assert(primes::shift(0x344fec26fint, 1int, 0x83d235055int) == 0x543db0af9int) by (nonlinear_arith) {
        reveal(primes::shift);
    }
    let e = primes::lemma_pow_digit(2int, e, 3, 8int, 0x83d235055int);
    assert(primes::shift(0x543db0af9int, 8int, 0x83d235055int) == 0xcd97da85int) by (nonlinear_arith) {
        reveal(primes::shift);
    }
    let e = primes::lemma_pow_digit(2int, e, 1, 2int, 0x83d235055int);
    assert(primes::shift(0xcd97da85int, 2int, 0x83d235055int) == 0x742cf7dcdint) by (nonlinear_arith) {
        reveal(primes::shift);
    }
    let e = primes::lemma_pow_digit(2int, e, 1, 2int, 0x83d235055int);
    assert(primes::shift(0x742cf7dcdint, 2int, 0x83d235055int) == 0x42cac473cint) by (nonlinear_arith) {
        reveal(primes::shift);
    }
    let e = primes::lemma_pow_digit(2int, e, 0, 1int, 0x83d235055int);
    assert(primes::shift(0x42cac473cint, 1int, 0x83d235055int) == 0x4004d5046int) by (nonlinear_arith) {
        reveal(primes::shift);
    }
    let e = primes::lemma_pow_digit(2int, e, 0, 1int, 0x83d235055int);
    assert(primes::shift(0x4004d5046int, 1int, 0x83d235055int) == 0x3a584a476int) by (nonlinear_arith) {
        reveal(primes::shift);
    }
    let e = primes::lemma_pow_digit(2int, e, 1, 2int, 0x83d235055int);
    assert(primes::shift(0x3a584a476int, 2int, 0x83d235055int) == 0x792249a8eint) by (nonlinear_arith) {
        reveal(primes::shift);
    }
    let e = primes::lemma_pow_digit(2int, e, 1, 2int, 0x83d235055int);
    assert(primes::shift(0x792249a8eint, 2int, 0x83d235055int) == 0x764a0662eint) by (nonlinear_arith) {
        reveal(primes::shift);
    }
    let e = primes::lemma_pow_digit(2int, e, 1, 2int, 0x83d235055int);
    assert(primes::shift(0x764a0662eint, 2int, 0x83d235055int) == 0x528d24988int) by (nonlinear_arith) {
        reveal(primes::shift);
    }
    let e = primes::lemma_pow_digit(2int, e, 0, 1int, 0x83d235055int);
    assert(primes::shift(0x528d24988int, 1int, 0x83d235055int) == 1int) by (nonlinear_arith) {
        reveal(primes::shift);
    }
    assert(e == 0x83d235054int);
}

/// `2^((n-1)/1263766531)` modulo `n = 35385462869`.
proof fn power_35385462869_over_1263766531()
    ensures
        pow(2int, 0x1cint as nat) % 0x83d235055int == 0x10000000int,
{
    assert((2int * 2int) % 0x83d235055int == 4int) by (nonlinear_arith);
    assert((4int * 2int) % 0x83d235055int == 8int) by (nonlinear_arith);
    primes::lemma_pow_table(2int, 4int, 8int, 0x83d235055int);
    let e = 0nat;
    let e = primes::lemma_pow_digit(2int, e, 1, 2int, 0x83d235055int);
    assert(primes::shift(1int, 2int, 0x83d235055int) == 2int) by (nonlinear_arith) {
        reveal(primes::shift);
    }
    let e = primes::lemma_pow_digit(2int, e, 3, 8int, 0x83d235055int);
    assert(primes::shift(2int, 8int, 0x83d235055int) == 0x80int) by (nonlinear_arith) {
        reveal(primes::shift);
    }
    let e = primes::lemma_pow_digit(2int, e, 0, 1int, 0x83d235055int);
    assert(primes::shift(0x80int, 1int, 0x83d235055int) == 0x10000000int) by (nonlinear_arith) {
        reveal(primes::shift);
    }
    assert(e == 0x1cint);
}

proof fn lemma_prime_35385462869()
    ensures
        primes::prime(0x83d235055int),
{
    power_35385462869();
    power_35385462869_over_1263766531();
    lemma_prime_1263766531();
    assert((0xfffffffint * 0x72b59059dint) % 0x83d235055int == 1) by (nonlinear_arith);
    assert(0x4b538c03int * 0x1cint == 0x83d235054int) by (nonlinear_arith);
    lemma_cofactor(0x83d235055int, 0x4b538c03int, 0x1cint, 0x10000000int, 0x72b59059dint);
    assert((0x4b538c03int + 1) * (0x4b538c03int + 1) > 0x83d235055int) by (nonlinear_arith);
    primes::lemma_pocklington(0x83d235055int, 0x4b538c03int);
}

/// `2^(n-1)` modulo `n = 2480874801745591`.
proof fn power_2480874801745591()
    ensures
        pow(2int, 0x8d057ad4a4eb6int as nat) % 0x8d057ad4a4eb7int == 1int,
{
    assert((2int * 2int) % 0x8d057ad4a4eb7int == 4int) by (nonlinear_arith);
    assert((4int * 2int) % 0x8d057ad4a4eb7int == 8int) by (nonlinear_arith);
    primes::lemma_pow_table(2int, 4int, 8int, 0x8d057ad4a4eb7int);
    let e = 0nat;
    let e = primes::lemma_pow_digit(2int, e, 2, 4int, 0x8d057ad4a4eb7int);
    assert(primes::shift(1int, 4int, 0x8d057ad4a4eb7int) == 4int) by (nonlinear_arith) {
        reveal(primes::shift);
    }
    let e = primes::lemma_pow_digit(2int, e, 0, 1int, 0x8d057ad4a4eb7int);
    assert(primes::shift(4int, 1int, 0x8d057ad4a4eb7int) == 0x100int) by (nonlinear_arith) {
        reveal(primes::shift);
    }
    let e = primes::lemma_pow_digit(2int, e, 3, 8int, 0x8d057ad4a4eb7int);
    assert(primes::shift(0x100int, 8int, 0x8d057ad4a4eb7int) == 0x800000000int) by (nonlinear_arith) {
        reveal(primes::shift);
    }
    let e = primes::lemma_pow_digit(2int, e, 1, 2int, 0x8d057ad4a4eb7int);
    assert(primes::shift(0x800000000int, 2int, 0x8d057ad4a4eb7int) == 0x71f9e0d231590int) by (nonlinear_arith) {
        reveal(primes::shift);
    }
    let e = primes::lemma_pow_digit(2int, e, 0, 1int, 0x8d057ad4a4eb7int);
    assert(primes::shift(0x71f9e0d231590int, 1int, 0x8d057ad4a4eb7int) == 0x3cfd6cc4df5efint) by (nonlinear_arith) {
        reveal(primes::shift);
    }
    let e = primes::lemma_pow_digit(2int, e, 0, 1int, 0x8d057ad4a4eb7int);
    assert(primes::shift(0x3cfd6cc4df5efint, 1int, 0x8d057ad4a4eb7int) == 0x71c02536dcd7aint) by (nonlinear_arith) {
        reveal(primes::shift);
    }
    let e = primes::lemma_pow_digit(2int, e, 1, 2int, 0x8d057ad4a4eb7int);
    assert(primes::shift(0x71c02536dcd7aint, 2int, 0x8d057ad4a4eb7int) == 0x559befa25ff58int) by (nonlinear_arith) {
        reveal(primes::shift);
    }
    let e = primes::lemma_pow_digit(2int, e, 1, 2int, 0x8d057ad4a4eb7int);
    assert(primes::shift(0x559befa25ff58int, 2int, 0x8d057ad4a4eb7int) == 0x6221d1a5c6d42int) by (nonlinear_arith) {
        reveal(primes::shift);
    }
    let e = primes::lemma_pow_digit(2int, e, 1, 2int, 0x8d057ad4a4eb7int);
    assert(primes::shift(0x6221d1a5c6d42int, 2int, 0x8d057ad4a4eb7int) == 0x1cfb5651a6cdbint) by (nonlinear_arith) {
        reveal(primes::shift);
    }
    let e = primes::lemma_pow_digit(2int, e, 3, 8int, 0x8d057ad4a4eb7int);
    assert(primes::shift(0x1cfb5651a6cdbint, 8int, 0x8d057ad4a4eb7int) == 0x3189fff5c31bdint) by (nonlinear_arith) {
        reveal(primes::shift);
    }
    let e = primes::lemma_pow_digit(2int, e, 2, 4int, 0x8d057ad4a4eb7int);
    assert(primes::shift(0x3189fff5c31bdint, 4int, 0x8d057ad4a4eb7int) == 0xbe135a5c4f7dint) by (nonlinear_arith) {
        reveal(primes::shift);
    }
    let e = primes::lemma_pow_digit(2int, e, 2, 4int, 0x8d057ad4a4eb7int);
    assert(primes::shift(0xbe135a5c4f7dint, 4int, 0x8d057ad4a4eb7int) == 0x5dda763f91374int) by (nonlinear_arith) {
        reveal(primes::shift);
    }
    let e = primes::lemma_pow_digit(2int, e, 3, 8int, 0x8d057ad4a4eb7int);
    assert(primes::shift(0x5dda763f91374int, 8int, 0x8d057ad4a4eb7int) == 0x491b356501939int) by (nonlinear_arith) {
        reveal(primes::shift);
    }
    let e = primes::lemma_pow_digit(2int, e, 1, 2int, 0x8d057ad4a4eb7int);
    assert(primes::shift(0x491b356501939int, 2int, 0x8d057ad4a4eb7int) == 0xfed423056b8int) by (nonlinear_arith) {
        reveal(primes::shift);
    }
    let e = primes::lemma_pow_digit(2int, e, 1, 2int, 0x8d057ad4a4eb7int);
    assert(primes::shift(0xfed423056b8int, 2int, 0x8d057ad4a4eb7int) == 0x415a7a61ad027int) by (nonlinear_arith) {
        reveal(primes::shift);
    }
    let e = primes::lemma_pow_digit(2int, e, 0, 1int, 0x8d057ad4a4eb7int);
    assert(primes::shift(0x415a7a61ad027int, 1int, 0x8d057ad4a4eb7int) == 0x52a82415b3c6cint) by (nonlinear_arith) {
        reveal(primes::shift);
    }
    let e = primes::lemma_pow_digit(2int, e, 2, 4int, 0x8d057ad4a4eb7int);
    assert(primes::shift(0x52a82415b3c6cint, 4int, 0x8d057ad4a4eb7int) == 0x347eb0049b11int) by (nonlinear_arith) {
        reveal(primes::shift);
    }
    let e = primes::lemma_pow_digit(2int, e, 2, 4int, 0x8d057ad4a4eb7int);
    assert(primes::shift(0x347eb0049b11int, 4int, 0x8d057ad4a4eb7int) == 0x70cdf4b29616cint) by (nonlinear_arith) {
        reveal(primes::shift);
    }
    let e = primes::lemma_pow_digit(2int, e, 1, 2int, 0x8d057ad4a4eb7int);
    assert(primes::shift(0x70cdf4b29616cint, 2int, 0x8d057ad4a4eb7int) == 0x6b9a9c08b568bint) by (nonlinear_arith) {
        reveal(primes::shift);
    }
    let e = primes::lemma_pow_digit(2int, e, 0, 1int, 0x8d057ad4a4eb7int);
    assert(primes::shift(0x6b9a9c08b568bint, 1int, 0x8d057ad4a4eb7int) == 0x1af93f52c5b7dint) by (nonlinear_arith) {
        reveal(primes::shift);
    }
    let e = primes::lemma_pow_digit(2int, e, 3, 8int, 0x8d057ad4a4eb7int);
    assert(primes::shift(0x1af93f52c5b7dint, 8int, 0x8d057ad4a4eb7int) == 0x685f6f99dcf74int) by (nonlinear_arith) {
        reveal(primes::shift);
    }
    let e = primes::lemma_pow_digit(2int, e, 2, 4int, 0x8d057ad4a4eb7int);
    assert(primes::shift(0x685f6f99dcf74int, 4int, 0x8d057ad4a4eb7int) == 0x7195b61357a28int) by (nonlinear_arith) {
        reveal(primes::shift);
    }
    let e = primes::lemma_pow_digit(2int, e, 2, 4int, 0x8d057ad4a4eb7int);
    assert(primes::shift(0x7195b61357a28int, 4int, 0x8d057ad4a4eb7int) == 0x6ceb570710ed8int) by (nonlinear_arith) {
        reveal(primes::shift);
    }
    let e = primes::lemma_pow_digit(2int, e, 3, 8int, 0x8d057ad4a4eb7int);
    assert(primes::shift(0x6ceb570710ed8int, 8int, 0x8d057ad4a4eb7int) == 0x651d16097d993int) by (nonlinear_arith) {
        reveal(primes::shift);
    }
    let e = primes::lemma_pow_digit(2int, e, 1, 2int, 0x8d057ad4a4eb7int);
    assert(primes::shift(0x651d16097d993int, 2int, 0x8d057ad4a4eb7int) == 0x517859ae19d75int) by (nonlinear_arith) {
        reveal(primes::shift);
    }
    let e = primes::lemma_pow_digit(2int, e, 2, 4int, 0x8d057ad4a4eb7int);
    assert(primes::shift(0x517859ae19d75int, 4int, 0x8d057ad4a4eb7int) == 1int) by (nonlinear_arith) {
        reveal(primes::shift);
    }
    assert(e == 0x8d057ad4a4eb6int);
}

/// `2^((n-1)/35385462869)` modulo `n = 2480874801745591`.
proof fn power_2480874801745591_over_35385462869()
    ensures
        pow(2int, 0x111deint as nat) % 0x8d057ad4a4eb7int == 0x46917dea2aafdint,
{
    assert((2int * 2int) % 0x8d057ad4a4eb7int == 4int) by (nonlinear_arith);
    assert((4int * 2int) % 0x8d057ad4a4eb7int == 8int) by (nonlinear_arith);
    primes::lemma_pow_table(2int, 4int, 8int, 0x8d057ad4a4eb7int);
    let e = 0nat;
    let e = primes::lemma_pow_digit(2int, e, 1, 2int, 0x8d057ad4a4eb7int);
    assert(primes::shift(1int, 2int, 0x8d057ad4a4eb7int) == 2int) by (nonlinear_arith) {
        reveal(primes::shift);
    }
    let e = primes::lemma_pow_digit(2int, e, 0, 1int, 0x8d057ad4a4eb7int);
    assert(primes::shift(2int, 1int, 0x8d057ad4a4eb7int) == 0x10int) by (nonlinear_arith) {
        reveal(primes::shift);
    }
    let e = primes::lemma_pow_digit(2int, e, 1, 2int, 0x8d057ad4a4eb7int);
    assert(primes::shift(0x10int, 2int, 0x8d057ad4a4eb7int) == 0x20000int) by (nonlinear_arith) {
        reveal(primes::shift);
    }
    let e = primes::lemma_pow_digit(2int, e, 0, 1int, 0x8d057ad4a4eb7int);
    assert(primes::shift(0x20000int, 1int, 0x8d057ad4a4eb7int) == 0x2868d16a16dc1int) by (nonlinear_arith) {
        reveal(primes::shift);
    }
    let e = primes::lemma_pow_digit(2int, e, 1, 2int, 0x8d057ad4a4eb7int);
    assert(primes::shift(0x2868d16a16dc1int, 2int, 0x8d057ad4a4eb7int) == 0x37e9436b723b8int) by (nonlinear_arith) {
        reveal(primes::shift);
    }
    let e = primes::lemma_pow_digit(2int, e, 3, 8int, 0x8d057ad4a4eb7int);
    assert(primes::shift(0x37e9436b723b8int, 8int, 0x8d057ad4a4eb7int) == 0x4322bbf0adb6aint) by (nonlinear_arith) {
        reveal(primes::shift);
    }
    let e = primes::lemma_pow_digit(2int, e, 1, 2int, 0x8d057ad4a4eb7int);
    assert(primes::shift(0x4322bbf0adb6aint, 2int, 0x8d057ad4a4eb7int) == 0x13847c8cf28b4int) by (nonlinear_arith) {
        reveal(primes::shift);
    }
    let e = primes::lemma_pow_digit(2int, e, 3, 8int, 0x8d057ad4a4eb7int);
    assert(primes::shift(0x13847c8cf28b4int, 8int, 0x8d057ad4a4eb7int) == 0x7bb7282c42ecfint) by (nonlinear_arith) {
        reveal(primes::shift);
    }
    let e = primes::lemma_pow_digit(2int, e, 2, 4int, 0x8d057ad4a4eb7int);
    assert(primes::shift(0x7bb7282c42ecfint, 4int, 0x8d057ad4a4eb7int) == 0x46917dea2aafdint) by (nonlinear_arith) {
        reveal(primes::shift);
    }
    assert(e == 0x111deint);
}

proof fn lemma_prime_2480874801745591()
    ensures
        primes::prime(0x8d057ad4a4eb7int),
{
    power_2480874801745591();
    power_2480874801745591_over_35385462869();
    lemma_prime_35385462869();
    assert((0x46917dea2aafcint * 0x36edde05c689int) % 0x8d057ad4a4eb7int == 1) by (nonlinear_arith);
    assert(0x83d235055int * 0x111deint == 0x8d057ad4a4eb6int) by (nonlinear_arith);
    lemma_cofactor(0x8d057ad4a4eb7int, 0x83d235055int, 0x111deint, 0x46917dea2aafdint, 0x36edde05c689int);
    assert((0x83d235055int + 1) * (0x83d235055int + 1) > 0x8d057ad4a4eb7int) by (nonlinear_arith);
    primes::lemma_pocklington(0x8d057ad4a4eb7int, 0x83d235055int);
}

proof fn lemma_prime_41()
    ensures
        primes::prime(41int),
{
    assert forall|d: int| 2 <= d < 7 implies #[trigger] (41int % d) != 0 by {
        assert(d == 2 || d == 3 || d == 4 || d == 5 || d == 6);
    }
    primes::lemma_prime_by_trial(41int, 7);
}

/// `2^(n-1)` modulo `n = 1231`.
proof fn power_1231()
    ensures
        pow(2int, 0x4ceint as nat) % 0x4cfint == 1int,
{
    assert((2int * 2int) % 0x4cfint == 4int) by (nonlinear_arith);
    assert((4int * 2int) % 0x4cfint == 8int) by (nonlinear_arith);
    primes::lemma_pow_table(2int, 4int, 8int, 0x4cfint);
    let e = 0nat;
    let e = primes::lemma_pow_digit(2int, e, 1, 2int, 0x4cfint);
    assert(primes::shift(1int, 2int, 0x4cfint) == 2int) by (nonlinear_arith) {
        reveal(primes::shift);
    }
    let e = primes::lemma_pow_digit(2int, e, 0, 1int, 0x4cfint);
    assert(primes::shift(2int, 1int, 0x4cfint) == 0x10int) by (nonlinear_arith) {
        reveal(primes::shift);
    }
    let e = primes::lemma_pow_digit(2int, e, 3, 8int, 0x4cfint);
    assert(primes::shift(0x10int, 8int, 0x4cfint) == 0x459int) by (nonlinear_arith) {
        reveal(primes::shift);
    }
    let e = primes::lemma_pow_digit(2int, e, 0, 1int, 0x4cfint);
    assert(primes::shift(0x459int, 1int, 0x4cfint) == 0xc8int) by (nonlinear_arith) {
        reveal(primes::shift);
    }
    let e = primes::lemma_pow_digit(2int, e, 3, 8int, 0x4cfint);
    assert(primes::shift(0xc8int, 8int, 0x4cfint) == 0x1c2int) by (nonlinear_arith) {
        reveal(primes::shift);
    }
    let e = primes::lemma_pow_digit(2int, e, 2, 4int, 0x4cfint);
    assert(primes::shift(0x1c2int, 4int, 0x4cfint) == 1int) by (nonlinear_arith) {
        reveal(primes::shift);
    }
    assert(e == 0x4ceint);
}

/// `2^((n-1)/41)` modulo `n = 1231`.
proof fn power_1231_over_41()
    ensures
        pow(2int, 0x1eint as nat) % 0x4cfint == 0x34bint,
{
    assert((2int * 2int) % 0x4cfint == 4int) by (nonlinear_arith);
    assert((4int * 2int) % 0x4cfint == 8int) by (nonlinear_arith);
    primes::lemma_pow_table(2int, 4int, 8int, 0x4cfint);
    let e = 0nat;
    let e = primes::lemma_pow_digit(2int, e, 1, 2int, 0x4cfint);
    assert(primes::shift(1int, 2int, 0x4cfint) == 2int) by (nonlinear_arith) {
        reveal(primes::shift);
    }
    let e = primes::lemma_pow_digit(2int, e, 3, 8int, 0x4cfint);
    assert(primes::shift(2int, 8int, 0x4cfint) == 0x80int) by (nonlinear_arith) {
        reveal(primes::shift);
    }
    let e = primes::lemma_pow_digit(2int, e, 2, 4int, 0x4cfint);
    assert(primes::shift(0x80int, 4int, 0x4cfint) == 0x34bint) by (nonlinear_arith) {
        reveal(primes::shift);
    }
    assert(e == 0x1eint);
}

proof fn lemma_prime_1231()
    ensures
        primes::prime(0x4cfint),
{
    power_1231();
    power_1231_over_41();
    lemma_prime_41();
    assert((0x34aint * 0x3d5int) % 0x4cfint == 1) by (nonlinear_arith);
    assert(41int * 0x1eint == 0x4ceint) by (nonlinear_arith);
    lemma_cofactor(0x4cfint, 41int, 0x1eint, 0x34bint, 0x3d5int);
    assert((0x29int + 1) * (0x29int + 1) > 0x4cfint) by (nonlinear_arith);
    primes::lemma_pocklington(0x4cfint, 0x29int);
}

proof fn lemma_prime_109()
    ensures
        primes::prime(109int),
{
    assert forall|d: int| 2 <= d < 11 implies #[trigger] (109int % d) != 0 by {
        assert(d == 2 || d == 3 || d == 4 || d == 5 || d == 6 || d == 7 || d == 8 || d == 9 || d == 10);
    }
    primes::lemma_prime_by_trial(109int, 11);
}

/// `2^(n-1)` modulo `n = 4562087`.
proof fn power_4562087()
    ensures
        pow(2int, 0x459ca6int as nat) % 0x459ca7int == 1int,
{
    assert((2int * 2int) % 0x459ca7int == 4int) by (nonlinear_arith);
    assert((4int * 2int) % 0x459ca7int == 8int) by (nonlinear_arith);
    primes::lemma_pow_table(2int, 4int, 8int, 0x459ca7int);
    let e = 0nat;
    let e = primes::lemma_pow_digit(2int, e, 1, 2int, 0x459ca7int);
    assert(primes::shift(1int, 2int, 0x459ca7int) == 2int) by (nonlinear_arith) {
        reveal(primes::shift);
    }
    let e = primes::lemma_pow_digit(2int, e, 0, 1int, 0x459ca7int);
    assert(primes::shift(2int, 1int, 0x459ca7int) == 0x10int) by (nonlinear_arith) {
        reveal(primes::shift);
    }
    let e = primes::lemma_pow_digit(2int, e, 1, 2int, 0x459ca7int);
    assert(primes::shift(0x10int, 2int, 0x459ca7int) == 0x20000int) by (nonlinear_arith) {
        reveal(primes::shift);
    }
    let e = primes::lemma_pow_digit(2int, e, 1, 2int, 0x459ca7int);
    assert(primes::shift(0x20000int, 2int, 0x459ca7int) == 0x3a44a1int) by (nonlinear_arith) {
        reveal(primes::shift);
    }
    let e = primes::lemma_pow_digit(2int, e, 2, 4int, 0x459ca7int);
    assert(primes::shift(0x3a44a1int, 4int, 0x459ca7int) == 0x4436acint) by (nonlinear_arith) {
        reveal(primes::shift);
    }
    let e = primes::lemma_pow_digit(2int, e, 1, 2int, 0x459ca7int);
    assert(primes::shift(0x4436acint, 2int, 0x459ca7int) == 0x125bcdint) by (nonlinear_arith) {
        reveal(primes::shift);
    }
    let e = primes::lemma_pow_digit(2int, e, 3, 8int, 0x459ca7int);
    assert(primes::shift(0x125bcdint, 8int, 0x459ca7int) == 0x2df1c3int) by (nonlinear_arith) {
        reveal(primes::shift);
    }
    let e = primes::lemma_pow_digit(2int, e, 0, 1int, 0x459ca7int);
    assert(primes::shift(0x2df1c3int, 1int, 0x459ca7int) == 0x330c63int) by (nonlinear_arith) {
        reveal(primes::shift);
    }
    let e = primes::lemma_pow_digit(2int, e, 2, 4int, 0x459ca7int);
    assert(primes::shift(0x330c63int, 4int, 0x459ca7int) == 0x20c786int) by (nonlinear_arith) {
        reveal(primes::shift);
    }
    let e = primes::lemma_pow_digit(2int, e, 2, 4int, 0x459ca7int);
    assert(primes::shift(0x20c786int, 4int, 0x459ca7int) == 0xe1443int) by (nonlinear_arith) {
        reveal(primes::shift);
    }
    let e = primes::lemma_pow_digit(2int, e, 1, 2int, 0x459ca7int);
    assert(primes::shift(0xe1443int, 2int, 0x459ca7int) == 0x39e514int) by (nonlinear_arith) {
        reveal(primes::shift);
    }
    let e = primes::lemma_pow_digit(2int, e, 2, 4int, 0x459ca7int);
    assert(primes::shift(0x39e514int, 4int, 0x459ca7int) == 1int) by (nonlinear_arith) {
        reveal(primes::shift);
    }
    assert(e == 0x459ca6int);
}

/// `2^((n-1)/1231)` modulo `n = 4562087`.
proof fn power_4562087_over_1231()
    ensures
        pow(2int, 0xe7aint as nat) % 0x459ca7int == 0x441e96int,
{
    assert((2int * 2int) % 0x459ca7int == 4int) by (nonlinear_arith);
    assert((4int * 2int) % 0x459ca7int == 8int) by (nonlinear_arith);
    primes::lemma_pow_table(2int, 4int, 8int, 0x459ca7int);
    let e = 0nat;
    let e = primes::lemma_pow_digit(2int, e, 3, 8int, 0x459ca7int);
    assert(primes::shift(1int, 8int, 0x459ca7int) == 8int) by (nonlinear_arith) {
        reveal(primes::shift);
    }
    let e = primes::lemma_pow_digit(2int, e, 2, 4int, 0x459ca7int);
    assert(primes::shift(8int, 4int, 0x459ca7int) == 0x4000int) by (nonlinear_arith) {
        reveal(primes::shift);
    }
    let e = primes::lemma_pow_digit(2int, e, 1, 2int, 0x459ca7int);
    assert(primes::shift(0x4000int, 2int, 0x459ca7int) == 0x2dd99aint) by (nonlinear_arith) {
        reveal(primes::shift);
    }
    let e = primes::lemma_pow_digit(2int, e, 3, 8int, 0x459ca7int);
    assert(primes::shift(0x2dd99aint, 8int, 0x459ca7int) == 0x24c104int) by (nonlinear_arith) {
        reveal(primes::shift);
    }
    let e = primes::lemma_pow_digit(2int, e, 2, 4int, 0x459ca7int);
    assert(primes::shift(0x24c104int, 4int, 0x459ca7int) == 0x561edint) by (nonlinear_arith) {
        reveal(primes::shift);
    }
    let e = primes::lemma_pow_digit(2int, e, 2, 4int, 0x459ca7int);
    assert(primes::shift(0x561edint, 4int, 0x459ca7int) == 0x441e96int) by (nonlinear_arith) {
        reveal(primes::shift);
    }
    assert(e == 0xe7aint);
}

/// `2^((n-1)/109)` modulo `n = 4562087`.
proof fn power_4562087_over_109()
    ensures
        pow(2int, 0xa37eint as nat) % 0x459ca7int == 0x2bf718int,
{
    assert((2int * 2int) % 0x459ca7int == 4int) by (nonlinear_arith);
    assert((4int * 2int) % 0x459ca7int == 8int) by (nonlinear_arith);
    primes::lemma_pow_table(2int, 4int, 8int, 0x459ca7int);
    let e = 0nat;
    let e = primes::lemma_pow_digit(2int, e, 2, 4int, 0x459ca7int);
    assert(primes::shift(1int, 4int, 0x459ca7int) == 4int) by (nonlinear_arith) {
        reveal(primes::shift);
    }
    let e = primes::lemma_pow_digit(2int, e, 2, 4int, 0x459ca7int);
    assert(primes::shift(4int, 4int, 0x459ca7int) == 0x400int) by (nonlinear_arith) {
        reveal(primes::shift);
    }
    let e = primes::lemma_pow_digit(2int, e, 0, 1int, 0x459ca7int);
    assert(primes::shift(0x400int, 1int, 0x459ca7int) == 0x2e62a2int) by (nonlinear_arith) {
        reveal(primes::shift);
    }
    let e = primes::lemma_pow_digit(2int, e, 3, 8int, 0x459ca7int);
    assert(primes::shift(0x2e62a2int, 8int, 0x459ca7int) == 0x13fe2fint) by (nonlinear_arith) {
        reveal(primes::shift);
    }
    let e = primes::lemma_pow_digit(2int, e, 1, 2int, 0x459ca7int);
    assert(primes::shift(0x13fe2fint, 2int, 0x459ca7int) == 0xf9aa5int) by (nonlinear_arith) {
        reveal(primes::shift);
    }
    let e = primes::lemma_pow_digit(2int, e, 3, 8int, 0x459ca7int);
    assert(primes::shift(0xf9aa5int, 8int, 0x459ca7int) == 0x27cb62int) by (nonlinear_arith) {
        reveal(primes::shift);
    }
    let e = primes::lemma_pow_digit(2int, e, 3, 8int, 0x459ca7int);
    assert(primes::shift(0x27cb62int, 8int, 0x459ca7int) == 0xdf804int) by (nonlinear_arith) {
        reveal(primes::shift);
    }
    let e = primes::lemma_pow_digit(2int, e, 2, 4int, 0x459ca7int);
    assert(primes::shift(0xdf804int, 4int, 0x459ca7int) == 0x2bf718int) by (nonlinear_arith) {
        reveal(primes::shift);
    }
    assert(e == 0xa37eint);
}

proof fn lemma_prime_4562087()
    ensures
        primes::prime(0x459ca7int),
{
    power_4562087();
    power_4562087_over_1231();
    power_4562087_over_109();
    lemma_prime_1231();
    assert((0x441e95int * 0x7552cint) % 0x459ca7int == 1) by (nonlinear_arith);
    assert(0x4cfint * 0xe7aint == 0x459ca6int) by (nonlinear_arith);
    lemma_cofactor(0x459ca7int, 0x4cfint, 0xe7aint, 0x441e96int, 0x7552cint);
    lemma_prime_109();
    assert((0x2bf717int * 0x223318int) % 0x459ca7int == 1) by (nonlinear_arith);
    assert(109int * 0xa37eint == 0x459ca6int) by (nonlinear_arith);
    lemma_cofactor(0x459ca7int, 109int, 0xa37eint, 0x2bf718int, 0x223318int);
    assert(0x4cfint % 109int != 0) by (nonlinear_arith);
    primes::lemma_pocklington_combine(0x459ca7int, 0x4cfint, 109int);
    assert(0x4cfint * 109int == 0x20c23int) by (nonlinear_arith);
    assert((0x20c23int + 1) * (0x20c23int + 1) > 0x459ca7int) by (nonlinear_arith);
    primes::lemma_pocklington(0x459ca7int, 0x20c23int);
}

/// The part of `2^(n-1)`, `n = 13427688667394608761327070753331941386769`, that the certified factors leave.
proof fn root_13427688667394608761327070753331941386769()
    ensures
        pow(2int, 0x1076f4c5dba55410int as nat) % 0x2775dec4d2fd445d02a32aa0f59b66aa11int == 0x18d9d2e3950d85152d22fdcc3155a9d165int,
{
    assert((2int * 2int) % 0x2775dec4d2fd445d02a32aa0f59b66aa11int == 4int) by (nonlinear_arith);
    assert((4int * 2int) % 0x2775dec4d2fd445d02a32aa0f59b66aa11int == 8int) by (nonlinear_arith);
    primes::lemma_pow_table(2int, 4int, 8int, 0x2775dec4d2fd445d02a32aa0f59b66aa11int);
    let e = 0nat;
    let e = primes::lemma_pow_digit(2int, e, 1, 2int, 0x2775dec4d2fd445d02a32aa0f59b66aa11int);
    assert(primes::shift(1int, 2int, 0x2775dec4d2fd445d02a32aa0f59b66aa11int) == 2int) by (nonlinear_arith) {
        reveal(primes::shift);
    }
    let e = primes::lemma_pow_digit(2int, e, 0, 1int, 0x2775dec4d2fd445d02a32aa0f59b66aa11int);
    assert(primes::shift(2int, 1int, 0x2775dec4d2fd445d02a32aa0f59b66aa11int) == 0x10int) by (nonlinear_arith) {
        reveal(primes::shift);
    }
    let e = primes::lemma_pow_digit(2int, e, 0, 1int, 0x2775dec4d2fd445d02a32aa0f59b66aa11int);
    assert(primes::shift(0x10int, 1int, 0x2775dec4d2fd445d02a32aa0f59b66aa11int) == 0x10000int) by (nonlinear_arith) {
        reveal(primes::shift);
    }
    let e = primes::lemma_pow_digit(2int, e, 1, 2int, 0x2775dec4d2fd445d02a32aa0f59b66aa11int);
    assert(primes::shift(0x10000int, 2int, 0x2775dec4d2fd445d02a32aa0f59b66aa11int) == 0x20000000000000000int) by (nonlinear_arith) {
        reveal(primes::shift);
    }
    let e = primes::lemma_pow_digit(2int, e, 3, 8int, 0x2775dec4d2fd445d02a32aa0f59b66aa11int);
    assert(primes::shift(0x20000000000000000int, 8int, 0x2775dec4d2fd445d02a32aa0f59b66aa11int) == 0xe818715af1bfb1f02f19e6ec479ff2d4cint) by (nonlinear_arith) {
        reveal(primes::shift);
    }
    let e = primes::lemma_pow_digit(2int, e, 1, 2int, 0x2775dec4d2fd445d02a32aa0f59b66aa11int);
    assert(primes::shift(0xe818715af1bfb1f02f19e6ec479ff2d4cint, 2int, 0x2775dec4d2fd445d02a32aa0f59b66aa11int) == 0x182ec96aa11ad91f82c3b92f42e9e98f93int) by (nonlinear_arith) {
        reveal(primes::shift);
    }
    let e = primes::lemma_pow_digit(2int, e, 2, 4int, 0x2775dec4d2fd445d02a32aa0f59b66aa11int);
    assert(primes::shift(0x182ec96aa11ad91f82c3b92f42e9e98f93int, 4int, 0x2775dec4d2fd445d02a32aa0f59b66aa11int) == 0x1a0478c2b86252a8b0c3dcd18b18a4214dint) by (nonlinear_arith) {
        reveal(primes::shift);
    }
    let e = primes::lemma_pow_digit(2int, e, 3, 8int, 0x2775dec4d2fd445d02a32aa0f59b66aa11int);
    assert(primes::shift(0x1a0478c2b86252a8b0c3dcd18b18a4214dint, 8int, 0x2775dec4d2fd445d02a32aa0f59b66aa11int) == 0x1f96f535dbf35303f86cee54183566f103int) by (nonlinear_arith) {
        reveal(primes::shift);
    }
    let e = primes::lemma_pow_digit(2int, e, 3, 8int, 0x2775dec4d2fd445d02a32aa0f59b66aa11int);
    assert(primes::shift(0x1f96f535dbf35303f86cee54183566f103int, 8int, 0x2775dec4d2fd445d02a32aa0f59b66aa11int) == 0x10a8e36304a9884c4697688a1b435a8bc0int) by (nonlinear_arith) {
        reveal(primes::shift);
    }
    let e = primes::lemma_pow_digit(2int, e, 1, 2int, 0x2775dec4d2fd445d02a32aa0f59b66aa11int);
    assert(primes::shift(0x10a8e36304a9884c4697688a1b435a8bc0int, 2int, 0x2775dec4d2fd445d02a32aa0f59b66aa11int) == 0x10bbf4e8f0080f4e59a07292e4101dc621int) by (nonlinear_arith) {
        reveal(primes::shift);
    }
    let e = primes::lemma_pow_digit(2int, e, 0, 1int, 0x2775dec4d2fd445d02a32aa0f59b66aa11int);
    assert(primes::shift(0x10bbf4e8f0080f4e59a07292e4101dc621int, 1int, 0x2775dec4d2fd445d02a32aa0f59b66aa11int) == 0x2612c285f5f88e00600fc2875fb6fd64f3int) by (nonlinear_arith) {
        reveal(primes::shift);
    }
    let e = primes::lemma_pow_digit(2int, e, 3, 8int, 0x2775dec4d2fd445d02a32aa0f59b66aa11int);
    assert(primes::shift(0x2612c285f5f88e00600fc2875fb6fd64f3int, 8int, 0x2775dec4d2fd445d02a32aa0f59b66aa11int) == 0xfb6b623cf91e5536b48a18bb36d335686int) by (nonlinear_arith) {
        reveal(primes::shift);
    }
    let e = primes::lemma_pow_digit(2int, e, 0, 1int, 0x2775dec4d2fd445d02a32aa0f59b66aa11int);
    assert(primes::shift(0xfb6b623cf91e5536b48a18bb36d335686int, 1int, 0x2775dec4d2fd445d02a32aa0f59b66aa11int) == 0xa639bc954b854e92b94d92ce03d0c3c8int) by (nonlinear_arith) {
        reveal(primes::shift);
    }
    let e = primes::lemma_pow_digit(2int, e, 1, 2int, 0x2775dec4d2fd445d02a32aa0f59b66aa11int);
    assert(primes::shift(0xa639bc954b854e92b94d92ce03d0c3c8int, 2int, 0x2775dec4d2fd445d02a32aa0f59b66aa11int) == 0x193755ab2b34174de60e57879c7acb99c3int) by (nonlinear_arith) {
        reveal(primes::shift);
    }
    let e = primes::lemma_pow_digit(2int, e, 1, 2int, 0x2775dec4d2fd445d02a32aa0f59b66aa11int);
    assert(primes::shift(0x193755ab2b34174de60e57879c7acb99c3int, 2int, 0x2775dec4d2fd445d02a32aa0f59b66aa11int) == 0x1ac29e6a2d8397fcb860aa686d74f13c0fint) by (nonlinear_arith) {
        reveal(primes::shift);
    }
    let e = primes::lemma_pow_digit(2int, e, 3, 8int, 0x2775dec4d2fd445d02a32aa0f59b66aa11int);
    assert(primes::shift(0x1ac29e6a2d8397fcb860aa686d74f13c0fint, 8int, 0x2775dec4d2fd445d02a32aa0f59b66aa11int) == 0x11035fea332d05b16aad9760466d7cd8daint) by (nonlinear_arith) {
        reveal(primes::shift);
    }
    let e = primes::lemma_pow_digit(2int, e, 1, 2int, 0x2775dec4d2fd445d02a32aa0f59b66aa11int);
    assert(primes::shift(0x11035fea332d05b16aad9760466d7cd8daint, 2int, 0x2775dec4d2fd445d02a32aa0f59b66aa11int) == 0x1137258fa20813a1e1bbb75c6aca3861a7int) by (nonlinear_arith) {
        reveal(primes::shift);
    }
    let e = primes::lemma_pow_digit(2int, e, 2, 4int, 0x2775dec4d2fd445d02a32aa0f59b66aa11int);
    assert(primes::shift(0x1137258fa20813a1e1bbb75c6aca3861a7int, 4int, 0x2775dec4d2fd445d02a32aa0f59b66aa11int) == 0x17574479a72e2b00165f62e0c274cbf089int) by (nonlinear_arith) {
        reveal(primes::shift);
    }
    let e = primes::lemma_pow_digit(2int, e, 3, 8int, 0x2775dec4d2fd445d02a32aa0f59b66aa11int);
    assert(primes::shift(0x17574479a72e2b00165f62e0c274cbf089int, 8int, 0x2775dec4d2fd445d02a32aa0f59b66aa11int) == 0xa9054bc91e7d41e80f777d59ec089d1a6int) by (nonlinear_arith) {
        reveal(primes::shift);
    }
    let e = primes::lemma_pow_digit(2int, e, 2, 4int, 0x2775dec4d2fd445d02a32aa0f59b66aa11int);
    assert(primes::shift(0xa9054bc91e7d41e80f777d59ec089d1a6int, 4int, 0x2775dec4d2fd445d02a32aa0f59b66aa11int) == 0x1a1bbab79422a85bcfc711d02809a7fa6fint) by (nonlinear_arith) {
        reveal(primes::shift);
    }
    let e = primes::lemma_pow_digit(2int, e, 2, 4int, 0x2775dec4d2fd445d02a32aa0f59b66aa11int);
    assert(primes::shift(0x1a1bbab79422a85bcfc711d02809a7fa6fint, 4int, 0x2775dec4d2fd445d02a32aa0f59b66aa11int) == 0x238057aa3e39dfa42f8a83e004e312f825int) by (nonlinear_arith) {
        reveal(primes::shift);
    }
    let e = primes::lemma_pow_digit(2int, e, 1, 2int, 0x2775dec4d2fd445d02a32aa0f59b66aa11int);
    assert(primes::shift(0x238057aa3e39dfa42f8a83e004e312f825int, 2int, 0x2775dec4d2fd445d02a32aa0f59b66aa11int) == 0x20298e29235de22784e4795557c1c5aa01int) by (nonlinear_arith) {
        reveal(primes::shift);
    }
    let e = primes::lemma_pow_digit(2int, e, 1, 2int, 0x2775dec4d2fd445d02a32aa0f59b66aa11int);
    assert(primes::shift(0x20298e29235de22784e4795557c1c5aa01int, 2int, 0x2775dec4d2fd445d02a32aa0f59b66aa11int) == 0x1586a327d927fa362d26d76a1a61dfe9ccint) by (nonlinear_arith) {
        reveal(primes::shift);
    }
    let e = primes::lemma_pow_digit(2int, e, 1, 2int, 0x2775dec4d2fd445d02a32aa0f59b66aa11int);
    assert(primes::shift(0x1586a327d927fa362d26d76a1a61dfe9ccint, 2int, 0x2775dec4d2fd445d02a32aa0f59b66aa11int) == 0x13bba67d760ec2fa6d9d9a1d9adcfc94cdint) by (nonlinear_arith) {
        reveal(primes::shift);
    }
    let e = primes::lemma_pow_digit(2int, e, 1, 2int, 0x2775dec4d2fd445d02a32aa0f59b66aa11int);
    assert(primes::shift(0x13bba67d760ec2fa6d9d9a1d9adcfc94cdint, 2int, 0x2775dec4d2fd445d02a32aa0f59b66aa11int) == 0x10e561732ecc2eb9c01a21c17d1195ae33int) by (nonlinear_arith) {
        reveal(primes::shift);
    }
    let e = primes::lemma_pow_digit(2int, e, 1, 2int, 0x2775dec4d2fd445d02a32aa0f59b66aa11int);
    assert(primes::shift(0x10e561732ecc2eb9c01a21c17d1195ae33int, 2int, 0x2775dec4d2fd445d02a32aa0f59b66aa11int) == 0x2480e431c7f4eb75f07c4f22d6332d425dint) by (nonlinear_arith) {
        reveal(primes::shift);
    }
    let e = primes::lemma_pow_digit(2int, e, 0, 1int, 0x2775dec4d2fd445d02a32aa0f59b66aa11int);
    assert(primes::shift(0x2480e431c7f4eb75f07c4f22d6332d425dint, 1int, 0x2775dec4d2fd445d02a32aa0f59b66aa11int) == 0x1877acc504d2942d847df54d69f7407da2int) by (nonlinear_arith) {
        reveal(primes::shift);
    }
    let e = primes::lemma_pow_digit(2int, e, 0, 1int, 0x2775dec4d2fd445d02a32aa0f59b66aa11int);
    assert(primes::shift(0x1877acc504d2942d847df54d69f7407da2int, 1int, 0x2775dec4d2fd445d02a32aa0f59b66aa11int) == 0xc85df3397bc5ca3ba5ab1b069b29459feint) by (nonlinear_arith) {
        reveal(primes::shift);
    }
    let e = primes::lemma_pow_digit(2int, e, 1, 2int, 0x2775dec4d2fd445d02a32aa0f59b66aa11int);
    assert(primes::shift(0xc85df3397bc5ca3ba5ab1b069b29459feint, 2int, 0x2775dec4d2fd445d02a32aa0f59b66aa11int) == 0x145fff21e55cebfeb7c29ec011119bc995int) by (nonlinear_arith) {
        reveal(primes::shift);
    }
    let e = primes::lemma_pow_digit(2int, e, 0, 1int, 0x2775dec4d2fd445d02a32aa0f59b66aa11int);
    assert(primes::shift(0x145fff21e55cebfeb7c29ec011119bc995int, 1int, 0x2775dec4d2fd445d02a32aa0f59b66aa11int) == 0x22df250f7b349c4151882cfeb8a1cbaea2int) by (nonlinear_arith) {
        reveal(primes::shift);
    }
    let e = primes::lemma_pow_digit(2int, e, 0, 1int, 0x2775dec4d2fd445d02a32aa0f59b66aa11int);
    assert(primes::shift(0x22df250f7b349c4151882cfeb8a1cbaea2int, 1int, 0x2775dec4d2fd445d02a32aa0f59b66aa11int) == 0x18d9d2e3950d85152d22fdcc3155a9d165int) by (nonlinear_arith) {
        reveal(primes::shift);
    }
    assert(e == 0x1076f4c5dba55410int);
}

#[verifier::inline]
spec fn power_13427688667394608761327070753331941386769_over_4562087_base() -> int {
    0x18d9d2e3950d85152d22fdcc3155a9d165int
}

#[verifier::inline]
spec fn power_13427688667394608761327070753331941386769_over_4562087_base2() -> int {
    0x1d0c5af25cb8623f41f21ed69b553a1483int
}

#[verifier::inline]
spec fn power_13427688667394608761327070753331941386769_over_4562087_base3() -> int {
    0x14f4a087032ec0b05adb08c01fed2aa82eint
}

/// `2^((n-1)/4562087)` modulo `n = 13427688667394608761327070753331941386769`.
proof fn power_13427688667394608761327070753331941386769_over_4562087()
    ensures
        pow(power_13427688667394608761327070753331941386769_over_4562087_base(), 0x8d057ad4a4eb7int as nat) % 0x2775dec4d2fd445d02a32aa0f59b66aa11int == 0x10d1fd82a3c8de9c02a037da1cb2f2f043int,
{
    assert((power_13427688667394608761327070753331941386769_over_4562087_base() * power_13427688667394608761327070753331941386769_over_4562087_base()) % 0x2775dec4d2fd445d02a32aa0f59b66aa11int == power_13427688667394608761327070753331941386769_over_4562087_base2()) by (nonlinear_arith);
    assert((power_13427688667394608761327070753331941386769_over_4562087_base2() * power_13427688667394608761327070753331941386769_over_4562087_base()) % 0x2775dec4d2fd445d02a32aa0f59b66aa11int == power_13427688667394608761327070753331941386769_over_4562087_base3()) by (nonlinear_arith);
    primes::lemma_pow_table(power_13427688667394608761327070753331941386769_over_4562087_base(), power_13427688667394608761327070753331941386769_over_4562087_base2(), power_13427688667394608761327070753331941386769_over_4562087_base3(), 0x2775dec4d2fd445d02a32aa0f59b66aa11int);
    let e = 0nat;
    let e = primes::lemma_pow_digit(power_13427688667394608761327070753331941386769_over_4562087_base(), e, 2, power_13427688667394608761327070753331941386769_over_4562087_base2(), 0x2775dec4d2fd445d02a32aa0f59b66aa11int);
    assert(primes::shift(1int, power_13427688667394608761327070753331941386769_over_4562087_base2(), 0x2775dec4d2fd445d02a32aa0f59b66aa11int) == 0x1d0c5af25cb8623f41f21ed69b553a1483int) by (nonlinear_arith) {
        reveal(primes::shift);
    }
    let e = primes::lemma_pow_digit(power_13427688667394608761327070753331941386769_over_4562087_base(), e, 0, 1int, 0x2775dec4d2fd445d02a32aa0f59b66aa11int);
    assert(primes::shift(0x1d0c5af25cb8623f41f21ed69b553a1483int, 1int, 0x2775dec4d2fd445d02a32aa0f59b66aa11int) == 0x78e2c1e454ccbae2d0565d4f60a0cc602int) by (nonlinear_arith) {
        reveal(primes::shift);
    }
    let e = primes::lemma_pow_digit(power_13427688667394608761327070753331941386769_over_4562087_base(), e, 3, power_13427688667394608761327070753331941386769_over_4562087_base3(), 0x2775dec4d2fd445d02a32aa0f59b66aa11int);
    assert(primes::shift(0x78e2c1e454ccbae2d0565d4f60a0cc602int, power_13427688667394608761327070753331941386769_over_4562087_base3(), 0x2775dec4d2fd445d02a32aa0f59b66aa11int) == 0x16ef2f29d6799cfb5334e43686294319c8int) by (nonlinear_arith) {
        reveal(primes::shift);
    }
    let e = primes::lemma_pow_digit(power_13427688667394608761327070753331941386769_over_4562087_base(), e, 1, power_13427688667394608761327070753331941386769_over_4562087_base(), 0x2775dec4d2fd445d02a32aa0f59b66aa11int);
    assert(primes::shift(0x16ef2f29d6799cfb5334e43686294319c8int, power_13427688667394608761327070753331941386769_over_4562087_base(), 0x2775dec4d2fd445d02a32aa0f59b66aa11int) == 0x16c889063949178e21d247f2eaa217b802int) by (nonlinear_arith) {
        reveal(primes::shift);
    }
    let e = primes::lemma_pow_digit(power_13427688667394608761327070753331941386769_over_4562087_base(), e, 0, 1int, 0x2775dec4d2fd445d02a32aa0f59b66aa11int);
    assert(primes::shift(0x16c889063949178e21d247f2eaa217b802int, 1int, 0x2775dec4d2fd445d02a32aa0f59b66aa11int) == 0x82308d7be5a3e7b9e6eef3031e4f256adint) by (nonlinear_arith) {
        reveal(primes::shift);
    }
    let e = primes::lemma_pow_digit(power_13427688667394608761327070753331941386769_over_4562087_base(), e, 0, 1int, 0x2775dec4d2fd445d02a32aa0f59b66aa11int);
    assert(primes::shift(0x82308d7be5a3e7b9e6eef3031e4f256adint, 1int, 0x2775dec4d2fd445d02a32aa0f59b66aa11int) == 0x7c589d9fbbc351ac8d4571a70092e8636int) by (nonlinear_arith) {
        reveal(primes::shift);
    }
    let e = primes::lemma_pow_digit(power_13427688667394608761327070753331941386769_over_4562087_base(), e, 1, power_13427688667394608761327070753331941386769_over_4562087_base(), 0x2775dec4d2fd445d02a32aa0f59b66aa11int);
    assert(primes::shift(0x7c589d9fbbc351ac8d4571a70092e8636int, power_13427688667394608761327070753331941386769_over_4562087_base(), 0x2775dec4d2fd445d02a32aa0f59b66aa11int) == 0x1bfdc6b9112844fcc9aeb11d31a0461faeint) by (nonlinear_arith) {
        reveal(primes::shift);
    }
    let e = primes::lemma_pow_digit(power_13427688667394608761327070753331941386769_over_4562087_base(), e, 1, power_13427688667394608761327070753331941386769_over_4562087_base(), 0x2775dec4d2fd445d02a32aa0f59b66aa11int);
    assert(primes::shift(0x1bfdc6b9112844fcc9aeb11d31a0461faeint, power_13427688667394608761327070753331941386769_over_4562087_base(), 0x2775dec4d2fd445d02a32aa0f59b66aa11int) == 0x14ccf46ca1fd8dc4f5f70790b74331e350int) by (nonlinear_arith) {
        reveal(primes::shift);
    }
    let e = primes::lemma_pow_digit(power_13427688667394608761327070753331941386769_over_4562087_base(), e, 1, power_13427688667394608761327070753331941386769_over_4562087_base(), 0x2775dec4d2fd445d02a32aa0f59b66aa11int);
    assert(primes::shift(0x14ccf46ca1fd8dc4f5f70790b74331e350int, power_13427688667394608761327070753331941386769_over_4562087_base(), 0x2775dec4d2fd445d02a32aa0f59b66aa11int) == 0x18f66783b71cf66b0c6574e95112e8b412int) by (nonlinear_arith) {
        reveal(primes::shift);
    }
    let e = primes::lemma_pow_digit(power_13427688667394608761327070753331941386769_over_4562087_base(), e, 3, power_13427688667394608761327070753331941386769_over_4562087_base3(), 0x2775dec4d2fd445d02a32aa0f59b66aa11int);
    assert(primes::shift(0x18f66783b71cf66b0c6574e95112e8b412int, power_13427688667394608761327070753331941386769_over_4562087_base3(), 0x2775dec4d2fd445d02a32aa0f59b66aa11int) == 0x56b5845c6a082500fc1e9bfcd67aef829int) by (nonlinear_arith) {
        reveal(primes::shift);
    }
    let e = primes::lemma_pow_digit(power_13427688667394608761327070753331941386769_over_4562087_base(), e, 2, power_13427688667394608761327070753331941386769_over_4562087_base2(), 0x2775dec4d2fd445d02a32aa0f59b66aa11int);
    assert(primes::shift(0x56b5845c6a082500fc1e9bfcd67aef829int, power_13427688667394608761327070753331941386769_over_4562087_base2(), 0x2775dec4d2fd445d02a32aa0f59b66aa11int) == 0x727077a027a436b69d78fb0cad18fc7c8int) by (nonlinear_arith) {
        reveal(primes::shift);
    }
    let e = primes::lemma_pow_digit(power_13427688667394608761327070753331941386769_over_4562087_base(), e, 2, power_13427688667394608761327070753331941386769_over_4562087_base2(), 0x2775dec4d2fd445d02a32aa0f59b66aa11int);
    assert(primes::shift(0x727077a027a436b69d78fb0cad18fc7c8int, power_13427688667394608761327070753331941386769_over_4562087_base2(), 0x2775dec4d2fd445d02a32aa0f59b66aa11int) == 0x14f5508776c8b5a4f346507f79a86c2b6int) by (nonlinear_arith) {
        reveal(primes::shift);
    }
    let e = primes::lemma_pow_digit(power_13427688667394608761327070753331941386769_over_4562087_base(), e, 3, power_13427688667394608761327070753331941386769_over_4562087_base3(), 0x2775dec4d2fd445d02a32aa0f59b66aa11int);
    assert(primes::shift(0x14f5508776c8b5a4f346507f79a86c2b6int, power_13427688667394608761327070753331941386769_over_4562087_base3(), 0x2775dec4d2fd445d02a32aa0f59b66aa11int) == 0x5eb006d98164097910708c653c6e6f1bbint) by (nonlinear_arith) {
        reveal(primes::shift);
    }
    let e = primes::lemma_pow_digit(power_13427688667394608761327070753331941386769_over_4562087_base(), e, 1, power_13427688667394608761327070753331941386769_over_4562087_base(), 0x2775dec4d2fd445d02a32aa0f59b66aa11int);
    assert(primes::shift(0x5eb006d98164097910708c653c6e6f1bbint, power_13427688667394608761327070753331941386769_over_4562087_base(), 0x2775dec4d2fd445d02a32aa0f59b66aa11int) == 0x13ea01d9518b46cada4b253628649ee28fint) by (nonlinear_arith) {
        reveal(primes::shift);
    }
    let e = primes::lemma_pow_digit(power_13427688667394608761327070753331941386769_over_4562087_base(), e, 1, power_13427688667394608761327070753331941386769_over_4562087_base(), 0x2775dec4d2fd445d02a32aa0f59b66aa11int);
    assert(primes::shift(0x13ea01d9518b46cada4b253628649ee28fint, power_13427688667394608761327070753331941386769_over_4562087_base(), 0x2775dec4d2fd445d02a32aa0f59b66aa11int) == 0x274de84a7b37df89bc1640ecbcbc54d599int) by (nonlinear_arith) {
        reveal(primes::shift);
    }
    let e = primes::lemma_pow_digit(power_13427688667394608761327070753331941386769_over_4562087_base(), e, 0, 1int, 0x2775dec4d2fd445d02a32aa0f59b66aa11int);
    assert(primes::shift(0x274de84a7b37df89bc1640ecbcbc54d599int, 1int, 0x2775dec4d2fd445d02a32aa0f59b66aa11int) == 0x42b7ce777ff7a479bf5fc278b79c10f5fint) by (nonlinear_arith) {
        reveal(primes::shift);
    }
    let e = primes::lemma_pow_digit(power_13427688667394608761327070753331941386769_over_4562087_base(), e, 2, power_13427688667394608761327070753331941386769_over_4562087_base2(), 0x2775dec4d2fd445d02a32aa0f59b66aa11int);
    assert(primes::shift(0x42b7ce777ff7a479bf5fc278b79c10f5fint, power_13427688667394608761327070753331941386769_over_4562087_base2(), 0x2775dec4d2fd445d02a32aa0f59b66aa11int) == 0x22ea6acb554138f1451ed2d36dd188e3f6int) by (nonlinear_arith) {
        reveal(primes::shift);
    }
    let e = primes::lemma_pow_digit(power_13427688667394608761327070753331941386769_over_4562087_base(), e, 2, power_13427688667394608761327070753331941386769_over_4562087_base2(), 0x2775dec4d2fd445d02a32aa0f59b66aa11int);
    assert(primes::shift(0x22ea6acb554138f1451ed2d36dd188e3f6int, power_13427688667394608761327070753331941386769_over_4562087_base2(), 0x2775dec4d2fd445d02a32aa0f59b66aa11int) == 0x20d6d2b0b07da3ad8846893ce4bea711ffint) by (nonlinear_arith) {
        reveal(primes::shift);
    }
    let e = primes::lemma_pow_digit(power_13427688667394608761327070753331941386769_over_4562087_base(), e, 1, power_13427688667394608761327070753331941386769_over_4562087_base(), 0x2775dec4d2fd445d02a32aa0f59b66aa11int);
    assert(primes::shift(0x20d6d2b0b07da3ad8846893ce4bea711ffint, power_13427688667394608761327070753331941386769_over_4562087_base(), 0x2775dec4d2fd445d02a32aa0f59b66aa11int) == 0x13f3a89416b586025fe282921850236a2bint) by (nonlinear_arith) {
        reveal(primes::shift);
    }
    let e = primes::lemma_pow_digit(power_13427688667394608761327070753331941386769_over_4562087_base(), e, 0, 1int, 0x2775dec4d2fd445d02a32aa0f59b66aa11int);
    assert(primes::shift(0x13f3a89416b586025fe282921850236a2bint, 1int, 0x2775dec4d2fd445d02a32aa0f59b66aa11int) == 0x149449352ab34c680bfa0abd5a733d8aa0int) by (nonlinear_arith) {
        reveal(primes::shift);
    }
    let e = primes::lemma_pow_digit(power_13427688667394608761327070753331941386769_over_4562087_base(), e, 3, power_13427688667394608761327070753331941386769_over_4562087_base3(), 0x2775dec4d2fd445d02a32aa0f59b66aa11int);
    assert(primes::shift(0x149449352ab34c680bfa0abd5a733d8aa0int, power_13427688667394608761327070753331941386769_over_4562087_base3(), 0x2775dec4d2fd445d02a32aa0f59b66aa11int) == 0xa9d1d65c99426f22aea949b504d10716eint) by (nonlinear_arith) {
        reveal(primes::shift);
    }
    let e = primes::lemma_pow_digit(power_13427688667394608761327070753331941386769_over_4562087_base(), e, 2, power_13427688667394608761327070753331941386769_over_4562087_base2(), 0x2775dec4d2fd445d02a32aa0f59b66aa11int);
    assert(primes::shift(0xa9d1d65c99426f22aea949b504d10716eint, power_13427688667394608761327070753331941386769_over_4562087_base2(), 0x2775dec4d2fd445d02a32aa0f59b66aa11int) == 0xd3d3dd8d4b1e8ca6985b479f54530c1dcint) by (nonlinear_arith) {
        reveal(primes::shift);
    }
    let e = primes::lemma_pow_digit(power_13427688667394608761327070753331941386769_over_4562087_base(), e, 2, power_13427688667394608761327070753331941386769_over_4562087_base2(), 0x2775dec4d2fd445d02a32aa0f59b66aa11int);
    assert(primes::shift(0xd3d3dd8d4b1e8ca6985b479f54530c1dcint, power_13427688667394608761327070753331941386769_over_4562087_base2(), 0x2775dec4d2fd445d02a32aa0f59b66aa11int) == 0x239487d43e454bcaea2a750724cd2da00bint) by (nonlinear_arith) {
        reveal(primes::shift);
    }
    let e = primes::lemma_pow_digit(power_13427688667394608761327070753331941386769_over_4562087_base(), e, 3, power_13427688667394608761327070753331941386769_over_4562087_base3(), 0x2775dec4d2fd445d02a32aa0f59b66aa11int);
    assert(primes::shift(0x239487d43e454bcaea2a750724cd2da00bint, power_13427688667394608761327070753331941386769_over_4562087_base3(), 0x2775dec4d2fd445d02a32aa0f59b66aa11int) == 0x1a916880e4d479ca285cdda89f608e9376int) by (nonlinear_arith) {
        reveal(primes::shift);
    }
    let e = primes::lemma_pow_digit(power_13427688667394608761327070753331941386769_over_4562087_base(), e, 1, power_13427688667394608761327070753331941386769_over_4562087_base(), 0x2775dec4d2fd445d02a32aa0f59b66aa11int);
    assert(primes::shift(0x1a916880e4d479ca285cdda89f608e9376int, power_13427688667394608761327070753331941386769_over_4562087_base(), 0x2775dec4d2fd445d02a32aa0f59b66aa11int) == 0x1a6f8f616721c458e7aca0ecb2535dba81int) by (nonlinear_arith) {
        reveal(primes::shift);
    }
    let e = primes::lemma_pow_digit(power_13427688667394608761327070753331941386769_over_4562087_base(), e, 3, power_13427688667394608761327070753331941386769_over_4562087_base3(), 0x2775dec4d2fd445d02a32aa0f59b66aa11int);
    assert(primes::shift(0x1a6f8f616721c458e7aca0ecb2535dba81int, power_13427688667394608761327070753331941386769_over_4562087_base3(), 0x2775dec4d2fd445d02a32aa0f59b66aa11int) == 0x10d1fd82a3c8de9c02a037da1cb2f2f043int) by (nonlinear_arith) {
        reveal(primes::shift);
    }
    assert(e == 0x8d057ad4a4eb7int);
}

#[verifier::inline]
spec fn power_13427688667394608761327070753331941386769_over_2480874801745591_base() -> int {
    0x18d9d2e3950d85152d22fdcc3155a9d165int
}

#[verifier::inline]
spec fn power_13427688667394608761327070753331941386769_over_2480874801745591_base2() -> int {
    0x1d0c5af25cb8623f41f21ed69b553a1483int
}

#[verifier::inline]
spec fn power_13427688667394608761327070753331941386769_over_2480874801745591_base3() -> int {
    0x14f4a087032ec0b05adb08c01fed2aa82eint
}

/// `2^((n-1)/2480874801745591)` modulo `n = 13427688667394608761327070753331941386769`.
proof fn power_13427688667394608761327070753331941386769_over_2480874801745591()
    ensures
        pow(power_13427688667394608761327070753331941386769_over_2480874801745591_base(), 0x459ca7int as nat) % 0x2775dec4d2fd445d02a32aa0f59b66aa11int == 0x208f65b73ce0476d8918a6dce19b6579eaint,
{
    assert((power_13427688667394608761327070753331941386769_over_2480874801745591_base() * power_13427688667394608761327070753331941386769_over_2480874801745591_base()) % 0x2775dec4d2fd445d02a32aa0f59b66aa11int == power_13427688667394608761327070753331941386769_over_2480874801745591_base2()) by (nonlinear_arith);
    assert((power_13427688667394608761327070753331941386769_over_2480874801745591_base2() * power_13427688667394608761327070753331941386769_over_2480874801745591_base()) % 0x2775dec4d2fd445d02a32aa0f59b66aa11int == power_13427688667394608761327070753331941386769_over_2480874801745591_base3()) by (nonlinear_arith);
    primes::lemma_pow_table(power_13427688667394608761327070753331941386769_over_2480874801745591_base(), power_13427688667394608761327070753331941386769_over_2480874801745591_base2(), power_13427688667394608761327070753331941386769_over_2480874801745591_base3(), 0x2775dec4d2fd445d02a32aa0f59b66aa11int);
    let e = 0nat;
    let e = primes::lemma_pow_digit(power_13427688667394608761327070753331941386769_over_2480874801745591_base(), e, 1, power_13427688667394608761327070753331941386769_over_2480874801745591_base(), 0x2775dec4d2fd445d02a32aa0f59b66aa11int);
    assert(primes::shift(1int, power_13427688667394608761327070753331941386769_over_2480874801745591_base(), 0x2775dec4d2fd445d02a32aa0f59b66aa11int) == 0x18d9d2e3950d85152d22fdcc3155a9d165int) by (nonlinear_arith) {
        reveal(primes::shift);
    }
    let e = primes::lemma_pow_digit(power_13427688667394608761327070753331941386769_over_2480874801745591_base(), e, 0, 1int, 0x2775dec4d2fd445d02a32aa0f59b66aa11int);
    assert(primes::shift(0x18d9d2e3950d85152d22fdcc3155a9d165int, 1int, 0x2775dec4d2fd445d02a32aa0f59b66aa11int) == 0x449c06a37f9e704081f6e0e2258bf7768int) by (nonlinear_arith) {
        reveal(primes::shift);
    }
    let e = primes::lemma_pow_digit(power_13427688667394608761327070753331941386769_over_2480874801745591_base(), e, 1, power_13427688667394608761327070753331941386769_over_2480874801745591_base(), 0x2775dec4d2fd445d02a32aa0f59b66aa11int);
    assert(primes::shift(0x449c06a37f9e704081f6e0e2258bf7768int, power_13427688667394608761327070753331941386769_over_2480874801745591_base(), 0x2775dec4d2fd445d02a32aa0f59b66aa11int) == 0x13b9979a6f45e5b4fb6f0fa2e4d64fa055int) by (nonlinear_arith) {
        reveal(primes::shift);
    }
    let e = primes::lemma_pow_digit(power_13427688667394608761327070753331941386769_over_2480874801745591_base(), e, 1, power_13427688667394608761327070753331941386769_over_2480874801745591_base(), 0x2775dec4d2fd445d02a32aa0f59b66aa11int);
    assert(primes::shift(0x13b9979a6f45e5b4fb6f0fa2e4d64fa055int, power_13427688667394608761327070753331941386769_over_2480874801745591_base(), 0x2775dec4d2fd445d02a32aa0f59b66aa11int) == 0x1b1b50070e4cb7849da657f7d453b5f316int) by (nonlinear_arith) {
        reveal(primes::shift);
    }
    let e = primes::lemma_pow_digit(power_13427688667394608761327070753331941386769_over_2480874801745591_base(), e, 2, power_13427688667394608761327070753331941386769_over_2480874801745591_base2(), 0x2775dec4d2fd445d02a32aa0f59b66aa11int);
    assert(primes::shift(0x1b1b50070e4cb7849da657f7d453b5f316int, power_13427688667394608761327070753331941386769_over_2480874801745591_base2(), 0x2775dec4d2fd445d02a32aa0f59b66aa11int) == 0x1bf7fa5cb98374915087042ed9f42329d7int) by (nonlinear_arith) {
        reveal(primes::shift);
    }
    let e = primes::lemma_pow_digit(power_13427688667394608761327070753331941386769_over_2480874801745591_base(), e, 1, power_13427688667394608761327070753331941386769_over_2480874801745591_base(), 0x2775dec4d2fd445d02a32aa0f59b66aa11int);
    assert(primes::shift(0x1bf7fa5cb98374915087042ed9f42329d7int, power_13427688667394608761327070753331941386769_over_2480874801745591_base(), 0x2775dec4d2fd445d02a32aa0f59b66aa11int) == 0xe35ee97058be22d6489fe6b80b80f6d82int) by (nonlinear_arith) {
        reveal(primes::shift);
    }
    let e = primes::lemma_pow_digit(power_13427688667394608761327070753331941386769_over_2480874801745591_base(), e, 3, power_13427688667394608761327070753331941386769_over_2480874801745591_base3(), 0x2775dec4d2fd445d02a32aa0f59b66aa11int);
    assert(primes::shift(0xe35ee97058be22d6489fe6b80b80f6d82int, power_13427688667394608761327070753331941386769_over_2480874801745591_base3(), 0x2775dec4d2fd445d02a32aa0f59b66aa11int) == 0x76492305b8319095f692b1e632e5d3624int) by (nonlinear_arith) {
        reveal(primes::shift);
    }
    let e = primes::lemma_pow_digit(power_13427688667394608761327070753331941386769_over_2480874801745591_base(), e, 0, 1int, 0x2775dec4d2fd445d02a32aa0f59b66aa11int);
    assert(primes::shift(0x76492305b8319095f692b1e632e5d3624int, 1int, 0x2775dec4d2fd445d02a32aa0f59b66aa11int) == 0x25170fd091c490ea75f6a4b5e22b1e9bd1int) by (nonlinear_arith) {
        reveal(primes::shift);
    }
    let e = primes::lemma_pow_digit(power_13427688667394608761327070753331941386769_over_2480874801745591_base(), e, 2, power_13427688667394608761327070753331941386769_over_2480874801745591_base2(), 0x2775dec4d2fd445d02a32aa0f59b66aa11int);
    assert(primes::shift(0x25170fd091c490ea75f6a4b5e22b1e9bd1int, power_13427688667394608761327070753331941386769_over_2480874801745591_base2(), 0x2775dec4d2fd445d02a32aa0f59b66aa11int) == 0xc86604278a7cb5c7d48c31448b20e8253int) by (nonlinear_arith) {
        reveal(primes::shift);
    }
    let e = primes::lemma_pow_digit(power_13427688667394608761327070753331941386769_over_2480874801745591_base(), e, 2, power_13427688667394608761327070753331941386769_over_2480874801745591_base2(), 0x2775dec4d2fd445d02a32aa0f59b66aa11int);
    assert(primes::shift(0xc86604278a7cb5c7d48c31448b20e8253int, power_13427688667394608761327070753331941386769_over_2480874801745591_base2(), 0x2775dec4d2fd445d02a32aa0f59b66aa11int) == 0x23e2db1caca9bb76da97ac4b24093cfda3int) by (nonlinear_arith) {
        reveal(primes::shift);
    }
    let e = primes::lemma_pow_digit(power_13427688667394608761327070753331941386769_over_2480874801745591_base(), e, 1, power_13427688667394608761327070753331941386769_over_2480874801745591_base(), 0x2775dec4d2fd445d02a32aa0f59b66aa11int);
    assert(primes::shift(0x23e2db1caca9bb76da97ac4b24093cfda3int, power_13427688667394608761327070753331941386769_over_2480874801745591_base(), 0x2775dec4d2fd445d02a32aa0f59b66aa11int) == 0x178c04dec6d480a0726e7d6d336385c76bint) by (nonlinear_arith) {
        reveal(primes::shift);
    }
    let e = primes::lemma_pow_digit(power_13427688667394608761327070753331941386769_over_2480874801745591_base(), e, 3, power_13427688667394608761327070753331941386769_over_2480874801745591_base3(), 0x2775dec4d2fd445d02a32aa0f59b66aa11int);
    assert(primes::shift(0x178c04dec6d480a0726e7d6d336385c76bint, power_13427688667394608761327070753331941386769_over_2480874801745591_base3(), 0x2775dec4d2fd445d02a32aa0f59b66aa11int) == 0x208f65b73ce0476d8918a6dce19b6579eaint) by (nonlinear_arith) {
        reveal(primes::shift);
    }
    assert(e == 0x459ca7int);
}

#[verifier::inline]
spec fn power_13427688667394608761327070753331941386769_base() -> int {
    0x10d1fd82a3c8de9c02a037da1cb2f2f043int
}

#[verifier::inline]
spec fn power_13427688667394608761327070753331941386769_base2() -> int {
    0x14b50ed1cf6962d6dbcdaeb638b7a476ceint
}

#[verifier::inline]
spec fn power_13427688667394608761327070753331941386769_base3() -> int {
    0xb49cb12c5f7525714540168bd370ef9bdint
}

/// The rest of `2^(n-1)`.
proof fn power_13427688667394608761327070753331941386769()
    ensures
        pow(power_13427688667394608761327070753331941386769_base(), 0x459ca7int as nat) % 0x2775dec4d2fd445d02a32aa0f59b66aa11int == 1int,
{
    assert((power_13427688667394608761327070753331941386769_base() * power_13427688667394608761327070753331941386769_base()) % 0x2775dec4d2fd445d02a32aa0f59b66aa11int == power_13427688667394608761327070753331941386769_base2()) by (nonlinear_arith);
    assert((power_13427688667394608761327070753331941386769_base2() * power_13427688667394608761327070753331941386769_base()) % 0x2775dec4d2fd445d02a32aa0f59b66aa11int == power_13427688667394608761327070753331941386769_base3()) by (nonlinear_arith);
    primes::lemma_pow_table(power_13427688667394608761327070753331941386769_base(), power_13427688667394608761327070753331941386769_base2(), power_13427688667394608761327070753331941386769_base3(), 0x2775dec4d2fd445d02a32aa0f59b66aa11int);
    let e = 0nat;
    let e = primes::lemma_pow_digit(power_13427688667394608761327070753331941386769_base(), e, 1, power_13427688667394608761327070753331941386769_base(), 0x2775dec4d2fd445d02a32aa0f59b66aa11int);
    assert(primes::shift(1int, power_13427688667394608761327070753331941386769_base(), 0x2775dec4d2fd445d02a32aa0f59b66aa11int) == 0x10d1fd82a3c8de9c02a037da1cb2f2f043int) by (nonlinear_arith) {
        reveal(primes::shift);
    }
    let e = primes::lemma_pow_digit(power_13427688667394608761327070753331941386769_base(), e, 0, 1int, 0x2775dec4d2fd445d02a32aa0f59b66aa11int);
    assert(primes::shift(0x10d1fd82a3c8de9c02a037da1cb2f2f043int, 1int, 0x2775dec4d2fd445d02a32aa0f59b66aa11int) == 0x1f14aa392a92dc35d1cdc3871ac65eedaeint) by (nonlinear_arith) {
        reveal(primes::shift);
    }
    let e = primes::lemma_pow_digit(power_13427688667394608761327070753331941386769_base(), e, 1, power_13427688667394608761327070753331941386769_base(), 0x2775dec4d2fd445d02a32aa0f59b66aa11int);
    assert(primes::shift(0x1f14aa392a92dc35d1cdc3871ac65eedaeint, power_13427688667394608761327070753331941386769_base(), 0x2775dec4d2fd445d02a32aa0f59b66aa11int) == 0x9183f2195a9d34dbf6ceb08c3d706cf3cint) by (nonlinear_arith) {
        reveal(primes::shift);
    }
    let e = primes::lemma_pow_digit(power_13427688667394608761327070753331941386769_base(), e, 1, power_13427688667394608761327070753331941386769_base(), 0x2775dec4d2fd445d02a32aa0f59b66aa11int);
    assert(primes::shift(0x9183f2195a9d34dbf6ceb08c3d706cf3cint, power_13427688667394608761327070753331941386769_base(), 0x2775dec4d2fd445d02a32aa0f59b66aa11int) == 0x16cd85c121c46d5e08a24aa73fdcd9489aint) by (nonlinear_arith) {
        reveal(primes::shift);
    }
    let e = primes::lemma_pow_digit(power_13427688667394608761327070753331941386769_base(), e, 2, power_13427688667394608761327070753331941386769_base2(), 0x2775dec4d2fd445d02a32aa0f59b66aa11int);
    assert(primes::shift(0x16cd85c121c46d5e08a24aa73fdcd9489aint, power_13427688667394608761327070753331941386769_base2(), 0x2775dec4d2fd445d02a32aa0f59b66aa11int) == 0xb0d46ee831cc1f2dfc98be9fae6227c0eint) by (nonlinear_arith) {
        reveal(primes::shift);
    }
    let e = primes::lemma_pow_digit(power_13427688667394608761327070753331941386769_base(), e, 1, power_13427688667394608761327070753331941386769_base(), 0x2775dec4d2fd445d02a32aa0f59b66aa11int);
    assert(primes::shift(0xb0d46ee831cc1f2dfc98be9fae6227c0eint, power_13427688667394608761327070753331941386769_base(), 0x2775dec4d2fd445d02a32aa0f59b66aa11int) == 0x539dcda50be192b5a0ffb94dd8284709aint) by (nonlinear_arith) {
        reveal(primes::shift);
    }
    let e = primes::lemma_pow_digit(power_13427688667394608761327070753331941386769_base(), e, 3, power_13427688667394608761327070753331941386769_base3(), 0x2775dec4d2fd445d02a32aa0f59b66aa11int);
    assert(primes::shift(0x539dcda50be192b5a0ffb94dd8284709aint, power_13427688667394608761327070753331941386769_base3(), 0x2775dec4d2fd445d02a32aa0f59b66aa11int) == 0xdcb17b6889871aaf5499883eb23e3edc0int) by (nonlinear_arith) {
        reveal(primes::shift);
    }
    let e = primes::lemma_pow_digit(power_13427688667394608761327070753331941386769_base(), e, 0, 1int, 0x2775dec4d2fd445d02a32aa0f59b66aa11int);
    assert(primes::shift(0xdcb17b6889871aaf5499883eb23e3edc0int, 1int, 0x2775dec4d2fd445d02a32aa0f59b66aa11int) == 0x264f5a17d1b9fe5c9594e5d0ea11492c22int) by (nonlinear_arith) {
        reveal(primes::shift);
    }
    let e = primes::lemma_pow_digit(power_13427688667394608761327070753331941386769_base(), e, 2, power_13427688667394608761327070753331941386769_base2(), 0x2775dec4d2fd445d02a32aa0f59b66aa11int);
    assert(primes::shift(0x264f5a17d1b9fe5c9594e5d0ea11492c22int, power_13427688667394608761327070753331941386769_base2(), 0x2775dec4d2fd445d02a32aa0f59b66aa11int) == 0x23f3a1ba96b1ac11bfcf439ef74cee1cf9int) by (nonlinear_arith) {
        reveal(primes::shift);
    }
    let e = primes::lemma_pow_digit(power_13427688667394608761327070753331941386769_base(), e, 2, power_13427688667394608761327070753331941386769_base2(), 0x2775dec4d2fd445d02a32aa0f59b66aa11int);
    assert(primes::shift(0x23f3a1ba96b1ac11bfcf439ef74cee1cf9int, power_13427688667394608761327070753331941386769_base2(), 0x2775dec4d2fd445d02a32aa0f59b66aa11int) == 0x102e6b20d91914178adedefc1373a38ae2int) by (nonlinear_arith) {
        reveal(primes::shift);
    }
    let e = primes::lemma_pow_digit(power_13427688667394608761327070753331941386769_base(), e, 1, power_13427688667394608761327070753331941386769_base(), 0x2775dec4d2fd445d02a32aa0f59b66aa11int);
    assert(primes::shift(0x102e6b20d91914178adedefc1373a38ae2int, power_13427688667394608761327070753331941386769_base(), 0x2775dec4d2fd445d02a32aa0f59b66aa11int) == 0x1cf358ada86faccfe2eedf4af4b77f09b4int) by (nonlinear_arith) {
        reveal(primes::shift);
    }
    let e = primes::lemma_pow_digit(power_13427688667394608761327070753331941386769_base(), e, 3, power_13427688667394608761327070753331941386769_base3(), 0x2775dec4d2fd445d02a32aa0f59b66aa11int);
    assert(primes::shift(0x1cf358ada86faccfe2eedf4af4b77f09b4int, power_13427688667394608761327070753331941386769_base3(), 0x2775dec4d2fd445d02a32aa0f59b66aa11int) == 1int) by (nonlinear_arith) {
        reveal(primes::shift);
    }
    assert(e == 0x459ca7int);
}

proof fn lemma_prime_13427688667394608761327070753331941386769()
    ensures
        primes::prime(0x2775dec4d2fd445d02a32aa0f59b66aa11int),
{
    root_13427688667394608761327070753331941386769();
    power_13427688667394608761327070753331941386769_over_4562087();
    primes::lemma_pow_compose(2, 0x1076f4c5dba55410int as nat, 0x18d9d2e3950d85152d22fdcc3155a9d165int, 0x8d057ad4a4eb7int as nat, 0x2775dec4d2fd445d02a32aa0f59b66aa11int);
    assert(0x1076f4c5dba55410int * 0x8d057ad4a4eb7int == 0x911df0a1f9bb143a0b657f6bf770int) by (nonlinear_arith);
    power_13427688667394608761327070753331941386769_over_2480874801745591();
    primes::lemma_pow_compose(2, 0x1076f4c5dba55410int as nat, 0x18d9d2e3950d85152d22fdcc3155a9d165int, 0x459ca7int as nat, 0x2775dec4d2fd445d02a32aa0f59b66aa11int);
    assert(0x1076f4c5dba55410int * 0x459ca7int == 0x47a233416727ab0639670int) by (nonlinear_arith);
    power_13427688667394608761327070753331941386769();
    primes::lemma_pow_compose(2, 0x911df0a1f9bb143a0b657f6bf770int as nat, 0x10d1fd82a3c8de9c02a037da1cb2f2f043int, 0x459ca7int as nat, 0x2775dec4d2fd445d02a32aa0f59b66aa11int);
    assert(0x911df0a1f9bb143a0b657f6bf770int * 0x459ca7int == 0x2775dec4d2fd445d02a32aa0f59b66aa10int) by (nonlinear_arith);
    lemma_prime_2480874801745591();
    assert((0x208f65b73ce0476d8918a6dce19b6579e9int * 0x13f129f8f8fe5ebe53850d6a900049ba87int) % 0x2775dec4d2fd445d02a32aa0f59b66aa11int == 1) by (nonlinear_arith);
    assert(0x8d057ad4a4eb7int * 0x47a233416727ab0639670int == 0x2775dec4d2fd445d02a32aa0f59b66aa10int) by (nonlinear_arith);
    lemma_cofactor(0x2775dec4d2fd445d02a32aa0f59b66aa11int, 0x8d057ad4a4eb7int, 0x47a233416727ab0639670int, 0x208f65b73ce0476d8918a6dce19b6579eaint, 0x13f129f8f8fe5ebe53850d6a900049ba87int);
    lemma_prime_4562087();
    assert((0x10d1fd82a3c8de9c02a037da1cb2f2f042int * 0x1c0e353beecd8b7b756690ebb99522ad4eint) % 0x2775dec4d2fd445d02a32aa0f59b66aa11int == 1) by (nonlinear_arith);
    assert(0x459ca7int * 0x911df0a1f9bb143a0b657f6bf770int == 0x2775dec4d2fd445d02a32aa0f59b66aa10int) by (nonlinear_arith);
    lemma_cofactor(0x2775dec4d2fd445d02a32aa0f59b66aa11int, 0x459ca7int, 0x911df0a1f9bb143a0b657f6bf770int, 0x10d1fd82a3c8de9c02a037da1cb2f2f043int, 0x1c0e353beecd8b7b756690ebb99522ad4eint);
    assert(0x8d057ad4a4eb7int % 0x459ca7int != 0) by (nonlinear_arith);
    primes::lemma_pocklington_combine(0x2775dec4d2fd445d02a32aa0f59b66aa11int, 0x8d057ad4a4eb7int, 0x459ca7int);
    assert(0x8d057ad4a4eb7int * 0x459ca7int == 0x2658c570bd28ac3dd61int) by (nonlinear_arith);
    assert((0x2658c570bd28ac3dd61int + 1) * (0x2658c570bd28ac3dd61int + 1) > 0x2775dec4d2fd445d02a32aa0f59b66aa11int) by (nonlinear_arith);
    primes::lemma_pocklington(0x2775dec4d2fd445d02a32aa0f59b66aa11int, 0x2658c570bd28ac3dd61int);
}

/// The part of `2^(n-1)`, `n = q`, that the certified factors leave.
proof fn root_q()
    ensures
        pow(2int, 0x139f1481c505fe912ac762c6a9b12e6int as nat) % q() == 0x2d5e256c06a868c6e4890a6dab5d8e3a2707ff7ff0369c37a2c8faca0399d771int,
{
    assert((2int * 2int) % q() == 4int) by (nonlinear_arith);
    assert((4int * 2int) % q() == 8int) by (nonlinear_arith);
    primes::lemma_pow_table(2int, 4int, 8int, q());
    let e = 0nat;
    let e = primes::lemma_pow_digit(2int, e, 1, 2int, q());
    assert(primes::shift(1int, 2int, q()) == 2int) by (nonlinear_arith) {
        reveal(primes::shift);
    }
    let e = primes::lemma_pow_digit(2int, e, 0, 1int, q());
    assert(primes::shift(2int, 1int, q()) == 0x10int) by (nonlinear_arith) {
        reveal(primes::shift);
    }
    let e = primes::lemma_pow_digit(2int, e, 3, 8int, q());
    assert(primes::shift(0x10int, 8int, q()) == 0x80000int) by (nonlinear_arith) {
        reveal(primes::shift);
    }
    let e = primes::lemma_pow_digit(2int, e, 2, 4int, q());
    assert(primes::shift(0x80000int, 4int, q()) == 0x40000000000000000000int) by (nonlinear_arith) {
        reveal(primes::shift);
    }
    let e = primes::lemma_pow_digit(2int, e, 1, 2int, q());
    assert(primes::shift(0x40000000000000000000int, 2int, q()) == 0x2e6250cad7d7bef88c52decd922a50557a9f25413f62edf88baa41fc45bad2f4int) by (nonlinear_arith) {
        reveal(primes::shift);
    }
    let e = primes::lemma_pow_digit(2int, e, 3, 8int, q());
    assert(primes::shift(0x2e6250cad7d7bef88c52decd922a50557a9f25413f62edf88baa41fc45bad2f4int, 8int, q()) == 0x15e63b28be95212dd56c5d9797ea374676c7143e3b1882eac73972a4a670c475int) by (nonlinear_arith) {
        reveal(primes::shift);
    }
    let e = primes::lemma_pow_digit(2int, e, 3, 8int, q());
    assert(primes::shift(0x15e63b28be95212dd56c5d9797ea374676c7143e3b1882eac73972a4a670c475int, 8int, q()) == 0xe38de6c40b89df9e07e8cf329bcfc93ba0e2db29974e57204b620d0f6f886cint) by (nonlinear_arith) {
        reveal(primes::shift);
    }
    let e = primes::lemma_pow_digit(2int, e, 0, 1int, q());
    assert(primes::shift(0xe38de6c40b89df9e07e8cf329bcfc93ba0e2db29974e57204b620d0f6f886cint, 1int, q()) == 0x918a2c13228dd290d55ab92f68e29b7c634af6fdf7308a7f680ecf23c022cd1int) by (nonlinear_arith) {
        reveal(primes::shift);
    }
    let e = primes::lemma_pow_digit(2int, e, 1, 2int, q());
    assert(primes::shift(0x918a2c13228dd290d55ab92f68e29b7c634af6fdf7308a7f680ecf23c022cd1int, 2int, q()) == 0x13227daa8478cd3153cefe9aff80be09884b20c0c7a4e6718312a9dfcb6c3a23int) by (nonlinear_arith) {
        reveal(primes::shift);
    }
    let e = primes::lemma_pow_digit(2int, e, 1, 2int, q());
    assert(primes::shift(0x13227daa8478cd3153cefe9aff80be09884b20c0c7a4e6718312a9dfcb6c3a23int, 2int, q()) == 0x8557fc7e50b2f7827e67fb7def184cff4fd3c14d5f82a48d387251303886556int) by (nonlinear_arith) {
        reveal(primes::shift);
    }
    let e = primes::lemma_pow_digit(2int, e, 0, 1int, q());
    assert(primes::shift(0x8557fc7e50b2f7827e67fb7def184cff4fd3c14d5f82a48d387251303886556int, 1int, q()) == 0x27692a0ee9af72a1eb9e393b5917fcb3f12892a29ac16f281eb88d020c10182bint) by (nonlinear_arith) {
        reveal(primes::shift);
    }
    let e = primes::lemma_pow_digit(2int, e, 2, 4int, q());
    assert(primes::shift(0x27692a0ee9af72a1eb9e393b5917fcb3f12892a29ac16f281eb88d020c10182bint, 4int, q()) == 0x25a39a8ff184c535982d6e2dcc37d03dcf582e89f082c903d4df1f8abb0c593fint) by (nonlinear_arith) {
        reveal(primes::shift);
    }
    let e = primes::lemma_pow_digit(2int, e, 0, 1int, q());
    assert(primes::shift(0x25a39a8ff184c535982d6e2dcc37d03dcf582e89f082c903d4df1f8abb0c593fint, 1int, q()) == 0x20545661d64e7e62510b441b7d441393057c282bde086dfc8df66f76939e17a8int) by (nonlinear_arith) {
        reveal(primes::shift);
    }
    let e = primes::lemma_pow_digit(2int, e, 0, 1int, q());
    assert(primes::shift(0x20545661d64e7e62510b441b7d441393057c282bde086dfc8df66f76939e17a8int, 1int, q()) == 0x1b849be56cfe40a447bf4101be5847e4e274b1a9f6cd1c4d35e649624e2d66faint) by (nonlinear_arith) {
        reveal(primes::shift);
    }
    let e = primes::lemma_pow_digit(2int, e, 1, 2int, q());
    assert(primes::shift(0x1b849be56cfe40a447bf4101be5847e4e274b1a9f6cd1c4d35e649624e2d66faint, 2int, q()) == 0x1ebf2ea39197e08c50e7cf77f0f09eccf50af5c9494c6ae79a36a9cc7875957bint) by (nonlinear_arith) {
        reveal(primes::shift);
    }
    let e = primes::lemma_pow_digit(2int, e, 3, 8int, q());
    assert(primes::shift(0x1ebf2ea39197e08c50e7cf77f0f09eccf50af5c9494c6ae79a36a9cc7875957bint, 8int, q()) == 0x1f785f195a1895f020d246040bf260580d8050fbfcd4f24141f46134ac287059int) by (nonlinear_arith) {
        reveal(primes::shift);
    }
    let e = primes::lemma_pow_digit(2int, e, 0, 1int, q());
    assert(primes::shift(0x1f785f195a1895f020d246040bf260580d8050fbfcd4f24141f46134ac287059int, 1int, q()) == 0x17b9adc2696c43389e642889fbe7df0268526076f075d611303db309f4b9ee13int) by (nonlinear_arith) {
        reveal(primes::shift);
    }
    let e = primes::lemma_pow_digit(2int, e, 1, 2int, q());
    assert(primes::shift(0x17b9adc2696c43389e642889fbe7df0268526076f075d611303db309f4b9ee13int, 2int, q()) == 0xd72ca5c0f157a524bd9e48528cde70d99b5f9d04318a5b2e7f3712164c5cae8int) by (nonlinear_arith) {
        reveal(primes::shift);
    }
    let e = primes::lemma_pow_digit(2int, e, 1, 2int, q());
    assert(primes::shift(0xd72ca5c0f157a524bd9e48528cde70d99b5f9d04318a5b2e7f3712164c5cae8int, 2int, q()) == 0x25f1619f90b3583ac40ec74240964d42f5a2252584761bec121308abe99481e6int) by (nonlinear_arith) {
        reveal(primes::shift);
    }
    let e = primes::lemma_pow_digit(2int, e, 0, 1int, q());
    assert(primes::shift(0x25f1619f90b3583ac40ec74240964d42f5a2252584761bec121308abe99481e6int, 1int, q()) == 0x83665a20cccdb067e2f20bb5c57f12d135b2005a598ae2558b3339817369fdint) by (nonlinear_arith) {
        reveal(primes::shift);
    }
    let e = primes::lemma_pow_digit(2int, e, 0, 1int, q());
    assert(primes::shift(0x83665a20cccdb067e2f20bb5c57f12d135b2005a598ae2558b3339817369fdint, 1int, q()) == 0x2079e5540c56c00c07727e100491b0399318bb4287945ee71934679cb8d938b9int) by (nonlinear_arith) {
        reveal(primes::shift);
    }
    let e = primes::lemma_pow_digit(2int, e, 1, 2int, q());
    assert(primes::shift(0x2079e5540c56c00c07727e100491b0399318bb4287945ee71934679cb8d938b9int, 2int, q()) == 0x12eca4375a43317ff53b7b387f413f47b075a4313fc9e01641285530809f7011int) by (nonlinear_arith) {
        reveal(primes::shift);
    }
    let e = primes::lemma_pow_digit(2int, e, 1, 2int, q());
    assert(primes::shift(0x12eca4375a43317ff53b7b387f413f47b075a4313fc9e01641285530809f7011int, 2int, q()) == 0xf17e53f64278d6446b8c9c4f9db2e39da7e275fcbad319e0dec57c74bfdc093int) by (nonlinear_arith) {
        reveal(primes::shift);
    }
    let e = primes::lemma_pow_digit(2int, e, 3, 8int, q());
    assert(primes::shift(0xf17e53f64278d6446b8c9c4f9db2e39da7e275fcbad319e0dec57c74bfdc093int, 8int, q()) == 0xe2db0a9db4270633fe0b704e354607e5981cfce25832ba529f30dda669e5296int) by (nonlinear_arith) {
        reveal(primes::shift);
    }
    let e = primes::lemma_pow_digit(2int, e, 3, 8int, q());
    assert(primes::shift(0xe2db0a9db4270633fe0b704e354607e5981cfce25832ba529f30dda669e5296int, 8int, q()) == 0x15b8f585b4bd8653d44d1565fa7bf67882e4a84fc979c05fadea444408b2cfafint) by (nonlinear_arith) {
        reveal(primes::shift);
    }
    let e = primes::lemma_pow_digit(2int, e, 3, 8int, q());
    assert(primes::shift(0x15b8f585b4bd8653d44d1565fa7bf67882e4a84fc979c05fadea444408b2cfafint, 8int, q()) == 0x6bb70d33b9848238037fc1a649cf3747e865803c93626b66cbabd54e1bebb35int) by (nonlinear_arith) {
        reveal(primes::shift);
    }
    let e = primes::lemma_pow_digit(2int, e, 2, 4int, q());
    assert(primes::shift(0x6bb70d33b9848238037fc1a649cf3747e865803c93626b66cbabd54e1bebb35int, 4int, q()) == 0x1b8da7bd094bc9971b303b7d6dc266eeaf2c684ce11df9bb042d16aef00764acint) by (nonlinear_arith) {
        reveal(primes::shift);
    }
    let e = primes::lemma_pow_digit(2int, e, 2, 4int, q());
    assert(primes::shift(0x1b8da7bd094bc9971b303b7d6dc266eeaf2c684ce11df9bb042d16aef00764acint, 4int, q()) == 0x1aef217c9d587e09c217c67be615112ba19f94ded46eab9f9821626668b9a61dint) by (nonlinear_arith) {
        reveal(primes::shift);
    }
    let e = primes::lemma_pow_digit(2int, e, 1, 2int, q());
    assert(primes::shift(0x1aef217c9d587e09c217c67be615112ba19f94ded46eab9f9821626668b9a61dint, 2int, q()) == 0x1a1cf9e2ef1fbb88ab6f2171bc47f847da6199e1216cf0bdc79933500638f54cint) by (nonlinear_arith) {
        reveal(primes::shift);
    }
    let e = primes::lemma_pow_digit(2int, e, 0, 1int, q());
    assert(primes::shift(0x1a1cf9e2ef1fbb88ab6f2171bc47f847da6199e1216cf0bdc79933500638f54cint, 1int, q()) == 0xb9b7e1e0ee89f8de13044d19e1d3dcb7bae91fbdbc307a129b783301f58be71int) by (nonlinear_arith) {
        reveal(primes::shift);
    }
    let e = primes::lemma_pow_digit(2int, e, 1, 2int, q());
    assert(primes::shift(0xb9b7e1e0ee89f8de13044d19e1d3dcb7bae91fbdbc307a129b783301f58be71int, 2int, q()) == 0x16f676049d6863a7bd36bd557c74e1ecdf53425c63b1b5ec219a662f85719eb2int) by (nonlinear_arith) {
        reveal(primes::shift);
    }
    let e = primes::lemma_pow_digit(2int, e, 0, 1int, q());
    assert(primes::shift(0x16f676049d6863a7bd36bd557c74e1ecdf53425c63b1b5ec219a662f85719eb2int, 1int, q()) == 0xbb8bcace2db26d7eb18354ba2e700d4457dcf230230e868b1965aa911be89ceint) by (nonlinear_arith) {
        reveal(primes::shift);
    }
    let e = primes::lemma_pow_digit(2int, e, 2, 4int, q());
    assert(primes::shift(0xbb8bcace2db26d7eb18354ba2e700d4457dcf230230e868b1965aa911be89ceint, 4int, q()) == 0x1d66df3a70fddfaf2359e3bc5b279cb73f62c67845917b9bb5cab29e58c159d0int) by (nonlinear_arith) {
        reveal(primes::shift);
    }
    let e = primes::lemma_pow_digit(2int, e, 2, 4int, q());
    assert(primes::shift(0x1d66df3a70fddfaf2359e3bc5b279cb73f62c67845917b9bb5cab29e58c159d0int, 4int, q()) == 0x1145a7dcbbae64785e976255323c214b6d9a0ac28758b486d92847e4df889f36int) by (nonlinear_arith) {
        reveal(primes::shift);
    }
    let e = primes::lemma_pow_digit(2int, e, 2, 4int, q());
    assert(primes::shift(0x1145a7dcbbae64785e976255323c214b6d9a0ac28758b486d92847e4df889f36int, 4int, q()) == 0x2fd04f599a291901c264be432bfae413ba7bf0b10c5cced927bed4eceb3dcb50int) by (nonlinear_arith) {
        reveal(primes::shift);
    }
    let e = primes::lemma_pow_digit(2int, e, 3, 8int, q());
    assert(primes::shift(0x2fd04f599a291901c264be432bfae413ba7bf0b10c5cced927bed4eceb3dcb50int, 8int, q()) == 0x82e857c017bc1d38e80876e5bf3153d6b752e1a11b6b165331d154f73a372cbint) by (nonlinear_arith) {
        reveal(primes::shift);
    }
    let e = primes::lemma_pow_digit(2int, e, 0, 1int, q());
    assert(primes::shift(0x82e857c017bc1d38e80876e5bf3153d6b752e1a11b6b165331d154f73a372cbint, 1int, q()) == 0x9b9e0577b37b80bd45e5898c12ae34d33e3f8311a140161e4d937993bc974c3int) by (nonlinear_arith) {
        reveal(primes::shift);
    }
    let e = primes::lemma_pow_digit(2int, e, 1, 2int, q());
    assert(primes::shift(0x9b9e0577b37b80bd45e5898c12ae34d33e3f8311a140161e4d937993bc974c3int, 2int, q()) == 0x1f6b9cb5ac6710c4062013d1454cf9087c96a46c2e622ac982f1e8c0d4c884f7int) by (nonlinear_arith) {
        reveal(primes::shift);
    }
    let e = primes::lemma_pow_digit(2int, e, 3, 8int, q());
    assert(primes::shift(0x1f6b9cb5ac6710c4062013d1454cf9087c96a46c2e622ac982f1e8c0d4c884f7int, 8int, q()) == 0x1a10ab780a137be8f707e307c988095e8ed3e5741711ddb2ac2a32f2efe8ffc0int) by (nonlinear_arith) {
        reveal(primes::shift);
    }
    let e = primes::lemma_pow_digit(2int, e, 1, 2int, q());
    assert(primes::shift(0x1a10ab780a137be8f707e307c988095e8ed3e5741711ddb2ac2a32f2efe8ffc0int, 2int, q()) == 0x29ff89cd4d981b6a0ca95ff05946e768e932b6a491a7bc74cb963e8793d39bd0int) by (nonlinear_arith) {
        reveal(primes::shift);
    }
    let e = primes::lemma_pow_digit(2int, e, 2, 4int, q());
    assert(primes::shift(0x29ff89cd4d981b6a0ca95ff05946e768e932b6a491a7bc74cb963e8793d39bd0int, 4int, q()) == 0x22d666e33e0bcc6fb32319d50f9f4f62a67f39dce71d81ae0ba0a272ef0ec1aint) by (nonlinear_arith) {
        reveal(primes::shift);
    }
    let e = primes::lemma_pow_digit(2int, e, 0, 1int, q());
    assert(primes::shift(0x22d666e33e0bcc6fb32319d50f9f4f62a67f39dce71d81ae0ba0a272ef0ec1aint, 1int, q()) == 0x1259360adf0166f940910ea75ade35fe3796e37c5a995d73cffdf30048ad2510int) by (nonlinear_arith) {
        reveal(primes::shift);
    }
    let e = primes::lemma_pow_digit(2int, e, 2, 4int, q());
    assert(primes::shift(0x1259360adf0166f940910ea75ade35fe3796e37c5a995d73cffdf30048ad2510int, 4int, q()) == 0x1d2759937d09022916d8219cb7b6a4eaf71df16ef9ba257c00c2a003b7ab2b47int) by (nonlinear_arith) {
        reveal(primes::shift);
    }
    let e = primes::lemma_pow_digit(2int, e, 3, 8int, q());
    assert(primes::shift(0x1d2759937d09022916d8219cb7b6a4eaf71df16ef9ba257c00c2a003b7ab2b47int, 8int, q()) == 0x1dc264d26582874de52cd47f0bc5bca03d977eadaaaea9290a37c82527011b4eint) by (nonlinear_arith) {
        reveal(primes::shift);
    }
    let e = primes::lemma_pow_digit(2int, e, 0, 1int, q());
    assert(primes::shift(0x1dc264d26582874de52cd47f0bc5bca03d977eadaaaea9290a37c82527011b4eint, 1int, q()) == 0x2d6a90a807dba4e2dca74e70bb84efa47c957ee68433cc551d8f6debef8402fdint) by (nonlinear_arith) {
        reveal(primes::shift);
    }
    let e = primes::lemma_pow_digit(2int, e, 1, 2int, q());
    assert(primes::shift(0x2d6a90a807dba4e2dca74e70bb84efa47c957ee68433cc551d8f6debef8402fdint, 2int, q()) == 0x305f04d8d45aaa9da1a0fe9220309e118d269800cdf2166b929d1b75b1eff41cint) by (nonlinear_arith) {
        reveal(primes::shift);
    }
    let e = primes::lemma_pow_digit(2int, e, 2, 4int, q());
    assert(primes::shift(0x305f04d8d45aaa9da1a0fe9220309e118d269800cdf2166b929d1b75b1eff41cint, 4int, q()) == 0x11ea72f1145b09c42c72b4a96ff58cb6d101d897392ac8253d16a5afdebefdecint) by (nonlinear_arith) {
        reveal(primes::shift);
    }
    let e = primes::lemma_pow_digit(2int, e, 2, 4int, q());
    assert(primes::shift(0x11ea72f1145b09c42c72b4a96ff58cb6d101d897392ac8253d16a5afdebefdecint, 4int, q()) == 0x50426ef4010865dc1da3ea1582da727787790a4ac4a1c71aabe6c776a0d3a71int) by (nonlinear_arith) {
        reveal(primes::shift);
    }
    let e = primes::lemma_pow_digit(2int, e, 2, 4int, q());
    assert(primes::shift(0x50426ef4010865dc1da3ea1582da727787790a4ac4a1c71aabe6c776a0d3a71int, 4int, q()) == 0x1954ac23ccfce9757b37fe09f666c8e9bbb4e0ae1165ab68d5ed3692cb26d3d6int) by (nonlinear_arith) {
        reveal(primes::shift);
    }
    let e = primes::lemma_pow_digit(2int, e, 2, 4int, q());
    assert(primes::shift(0x1954ac23ccfce9757b37fe09f666c8e9bbb4e0ae1165ab68d5ed3692cb26d3d6int, 4int, q()) == 0x2ef315df5be79474778363501e33c085a7e8281099ad49e1eb2a77250158b4a3int) by (nonlinear_arith) {
        reveal(primes::shift);
    }
    let e = primes::lemma_pow_digit(2int, e, 1, 2int, q());
    assert(primes::shift(0x2ef315df5be79474778363501e33c085a7e8281099ad49e1eb2a77250158b4a3int, 2int, q()) == 0x19a7ba144c042fa02fb4ad1cf6ede3ac3449d7eef1e5713bffec87318bd158c0int) by (nonlinear_arith) {
        reveal(primes::shift);
    }
    let e = primes::lemma_pow_digit(2int, e, 2, 4int, q());
    assert(primes::shift(0x19a7ba144c042fa02fb4ad1cf6ede3ac3449d7eef1e5713bffec87318bd158c0int, 4int, q()) == 0x2f7a48e5171855af5fd8dacbab7b292e65a18a3f67b5b66334b610200e4a5041int) by (nonlinear_arith) {
        reveal(primes::shift);
    }
    let e = primes::lemma_pow_digit(2int, e, 3, 8int, q());
    assert(primes::shift(0x2f7a48e5171855af5fd8dacbab7b292e65a18a3f67b5b66334b610200e4a5041int, 8int, q()) == 0x1d9d1c116a2a3fa58142ad0b54343548088d26c8940dba8658d9f009c1d4d32fint) by (nonlinear_arith) {
        reveal(primes::shift);
    }
    let e = primes::lemma_pow_digit(2int, e, 0, 1int, q());
    assert(primes::shift(0x1d9d1c116a2a3fa58142ad0b54343548088d26c8940dba8658d9f009c1d4d32fint, 1int, q()) == 0x22ec5e304f59c00d90f816fbc69b7b8feb59d49f00bb53b29992fdbd79f1b1b6int) by (nonlinear_arith) {
        reveal(primes::shift);
    }
    let e = primes::lemma_pow_digit(2int, e, 1, 2int, q());
    assert(primes::shift(0x22ec5e304f59c00d90f816fbc69b7b8feb59d49f00bb53b29992fdbd79f1b1b6int, 2int, q()) == 0x2667ff35ba5d5df4fb11b69b2901e47d21098390c939c249c0cb4f364e6fbbd0int) by (nonlinear_arith) {
        reveal(primes::shift);
    }
    let e = primes::lemma_pow_digit(2int, e, 0, 1int, q());
    assert(primes::shift(0x2667ff35ba5d5df4fb11b69b2901e47d21098390c939c249c0cb4f364e6fbbd0int, 1int, q()) == 0xd099ca602ff2581806e66b1458b02ea435c70b209056509761ce540b529d942int) by (nonlinear_arith) {
        reveal(primes::shift);
    }
    let e = primes::lemma_pow_digit(2int, e, 2, 4int, q());
    assert(primes::shift(0xd099ca602ff2581806e66b1458b02ea435c70b209056509761ce540b529d942int, 4int, q()) == 0x3f2c04aef763bc93ab0d1d0b60b4a96703020c0d5879d923bb5287032405a55int) by (nonlinear_arith) {
        reveal(primes::shift);
    }
    let e = primes::lemma_pow_digit(2int, e, 3, 8int, q());
    assert(primes::shift(0x3f2c04aef763bc93ab0d1d0b60b4a96703020c0d5879d923bb5287032405a55int, 8int, q()) == 0x2ae88322620efcc2d986607f91096db2a15fcb0cd81c4fc908503d10a5f52482int) by (nonlinear_arith) {
        reveal(primes::shift);
    }
    let e = primes::lemma_pow_digit(2int, e, 2, 4int, q());
    assert(primes::shift(0x2ae88322620efcc2d986607f91096db2a15fcb0cd81c4fc908503d10a5f52482int, 4int, q()) == 0x1c13cd819fa88c61b94338684a293b3ff1c587509eab4e2d2082292bea7316ccint) by (nonlinear_arith) {
        reveal(primes::shift);
    }
    let e = primes::lemma_pow_digit(2int, e, 1, 2int, q());
    assert(primes::shift(0x1c13cd819fa88c61b94338684a293b3ff1c587509eab4e2d2082292bea7316ccint, 2int, q()) == 0x245a4bcfb86c6a1869054d3119e4d627abebe946e2c01d7abf7110cb6e4138e7int) by (nonlinear_arith) {
        reveal(primes::shift);
    }
    let e = primes::lemma_pow_digit(2int, e, 2, 4int, q());
    assert(primes::shift(0x245a4bcfb86c6a1869054d3119e4d627abebe946e2c01d7abf7110cb6e4138e7int, 4int, q()) == 0x2d5e256c06a868c6e4890a6dab5d8e3a2707ff7ff0369c37a2c8faca0399d771int) by (nonlinear_arith) {
        reveal(primes::shift);
    }
    assert(e == 0x139f1481c505fe912ac762c6a9b12e6int);
}

#[verifier::inline]
spec fn power_q_base() -> int {
    0x2d5e256c06a868c6e4890a6dab5d8e3a2707ff7ff0369c37a2c8faca0399d771int
}

#[verifier::inline]
spec fn power_q_base2() -> int {
    0x295435e7bc3ed85535fc86281580fd1f242ecc7f6144a3bf64fcc809333a1e5int
}

#[verifier::inline]
spec fn power_q_base3() -> int {
    0x1d9fcd8c3dd62710d978b5ad483096dfb49e08ae940953dc5e5c7c39ae12073dint
}

/// The rest of `2^(n-1)`.
proof fn power_q()
    ensures
        pow(power_q_base(), 0x2775dec4d2fd445d02a32aa0f59b66aa11int as nat) % q() == 1int,
{
    assert((power_q_base() * power_q_base()) % q() == power_q_base2()) by (nonlinear_arith);
    assert((power_q_base2() * power_q_base()) % q() == power_q_base3()) by (nonlinear_arith);
    primes::lemma_pow_table(power_q_base(), power_q_base2(), power_q_base3(), q());
    let e = 0nat;
    let e = primes::lemma_pow_digit(power_q_base(), e, 2, power_q_base2(), q());
    assert(primes::shift(1int, power_q_base2(), q()) == 0x295435e7bc3ed85535fc86281580fd1f242ecc7f6144a3bf64fcc809333a1e5int) by (nonlinear_arith) {
        reveal(primes::shift);
    }
    let e = primes::lemma_pow_digit(power_q_base(), e, 1, power_q_base(), q());
    assert(primes::shift(0x295435e7bc3ed85535fc86281580fd1f242ecc7f6144a3bf64fcc809333a1e5int, power_q_base(), q()) == 0x44c524b180770b01809ec70197894bb4664899f48cd7a2cff84362571e4883bint) by (nonlinear_arith) {
        reveal(primes::shift);
    }
    let e = primes::lemma_pow_digit(power_q_base(), e, 3, power_q_base3(), q());
    assert(primes::shift(0x44c524b180770b01809ec70197894bb4664899f48cd7a2cff84362571e4883bint, power_q_base3(), q()) == 0x2e16d3ef57bd0cf0a8221d39cb30b3668016d59b767e476f45c5dadc454a3e73int) by (nonlinear_arith) {
        reveal(primes::shift);
    }
    let e = primes::lemma_pow_digit(power_q_base(), e, 1, power_q_base(), q());
    assert(primes::shift(0x2e16d3ef57bd0cf0a8221d39cb30b3668016d59b767e476f45c5dadc454a3e73int, power_q_base(), q()) == 0x578befc9fb58d94ea71e35be2f6913c3b37c6b4a94ed9b85b80a3915b76555fint) by (nonlinear_arith) {
        reveal(primes::shift);
    }
    let e = primes::lemma_pow_digit(power_q_base(), e, 3, power_q_base3(), q());
    assert(primes::shift(0x578befc9fb58d94ea71e35be2f6913c3b37c6b4a94ed9b85b80a3915b76555fint, power_q_base3(), q()) == 0x191eb0fa3701ef3bb18b6c27e7ff4878b7615dda126276c15f7b5766b4baf9caint) by (nonlinear_arith) {
        reveal(primes::shift);
    }
    let e = primes::lemma_pow_digit(power_q_base(), e, 1, power_q_base(), q());
    assert(primes::shift(0x191eb0fa3701ef3bb18b6c27e7ff4878b7615dda126276c15f7b5766b4baf9caint, power_q_base(), q()) == 0x19d63aa5d3293caa315dbcf548d07c2948ef62b692c6643b45750484b83bc8f1int) by (nonlinear_arith) {
        reveal(primes::shift);
    }
    let e = primes::lemma_pow_digit(power_q_base(), e, 1, power_q_base(), q());
    assert(primes::shift(0x19d63aa5d3293caa315dbcf548d07c2948ef62b692c6643b45750484b83bc8f1int, power_q_base(), q()) == 0x133c2c1aeae8f4e3afd1fb18809b85b53fb49e56b5892c143a3d45d766e97b1fint) by (nonlinear_arith) {
        reveal(primes::shift);
    }
    let e = primes::lemma_pow_digit(power_q_base(), e, 3, power_q_base3(), q());
    assert(primes::shift(0x133c2c1aeae8f4e3afd1fb18809b85b53fb49e56b5892c143a3d45d766e97b1fint, power_q_base3(), q()) == 0x2f9e42de16529391d19d2f2dbf2f0583afcb1b6d338d8bacd251b552489ae3a5int) by (nonlinear_arith) {
        reveal(primes::shift);
    }
    let e = primes::lemma_pow_digit(power_q_base(), e, 1, power_q_base(), q());
    assert(primes::shift(0x2f9e42de16529391d19d2f2dbf2f0583afcb1b6d338d8bacd251b552489ae3a5int, power_q_base(), q()) == 0x16fcb13c837f51a4ff9a660212592c5970254f82d1f1bb7ca9d9628c8cc35e0aint) by (nonlinear_arith) {
        reveal(primes::shift);
    }
    let e = primes::lemma_pow_digit(power_q_base(), e, 3, power_q_base3(), q());
    assert(primes::shift(0x16fcb13c837f51a4ff9a660212592c5970254f82d1f1bb7ca9d9628c8cc35e0aint, power_q_base3(), q()) == 0x16f508fdf04b93c4487ab846b16eaa6cc9e171c944d765ab5a1aa63f2213970bint) by (nonlinear_arith) {
        reveal(primes::shift);
    }
    let e = primes::lemma_pow_digit(power_q_base(), e, 2, power_q_base2(), q());
    assert(primes::shift(0x16f508fdf04b93c4487ab846b16eaa6cc9e171c944d765ab5a1aa63f2213970bint, power_q_base2(), q()) == 0x2f508c727dc8fd2781f6d0075e32fca14acfc69c9e6c5281a24290a23662c64cint) by (nonlinear_arith) {
        reveal(primes::shift);
    }
    let e = primes::lemma_pow_digit(power_q_base(), e, 3, power_q_base3(), q());
    assert(primes::shift(0x2f508c727dc8fd2781f6d0075e32fca14acfc69c9e6c5281a24290a23662c64cint, power_q_base3(), q()) == 0x6f06a6caac839b60df119d362b4f64bd0074513508ff722b2fa6872d42b3138int) by (nonlinear_arith) {
        reveal(primes::shift);
    }
    let e = primes::lemma_pow_digit(power_q_base(), e, 0, 1int, q());
    assert(primes::shift(0x6f06a6caac839b60df119d362b4f64bd0074513508ff722b2fa6872d42b3138int, 1int, q()) == 0x16e126cb8589313d5bd47bdc170bfb4bfd4f7b20a698b26d141a435810ee2fa8int) by (nonlinear_arith) {
        reveal(primes::shift);
    }
    let e = primes::lemma_pow_digit(power_q_base(), e, 1, power_q_base(), q());
    assert(primes::shift(0x16e126cb8589313d5bd47bdc170bfb4bfd4f7b20a698b26d141a435810ee2fa8int, power_q_base(), q()) == 0x296a970baabfea5f149c0057b343945e5e19d4fcf85c47b523ce1012a3280bc3int) by (nonlinear_arith) {
        reveal(primes::shift);
    }
    let e = primes::lemma_pow_digit(power_q_base(), e, 0, 1int, q());
    assert(primes::shift(0x296a970baabfea5f149c0057b343945e5e19d4fcf85c47b523ce1012a3280bc3int, 1int, q()) == 0x1ad23216bd7887c40a3655b69a6bcc00b522f05af9ec44aa6c8eff9cc0b67756int) by (nonlinear_arith) {
        reveal(primes::shift);
    }
    let e = primes::lemma_pow_digit(power_q_base(), e, 3, power_q_base3(), q());
    assert(primes::shift(0x1ad23216bd7887c40a3655b69a6bcc00b522f05af9ec44aa6c8eff9cc0b67756int, power_q_base3(), q()) == 0xfc22363657b67ddb1eb11640e0240f29d3d4c1fc6f74d6486f1551449d07757int) by (nonlinear_arith) {
        reveal(primes::shift);
    }
    let e = primes::lemma_pow_digit(power_q_base(), e, 1, power_q_base(), q());
    assert(primes::shift(0xfc22363657b67ddb1eb11640e0240f29d3d4c1fc6f74d6486f1551449d07757int, power_q_base(), q()) == 0xdfd6e96545390a5459aba17cd48e33b9385739675b76b4bd1fc6391b04fdff7int) by (nonlinear_arith) {
        reveal(primes::shift);
    }
    let e = primes::lemma_pow_digit(power_q_base(), e, 0, 1int, q());
    assert(primes::shift(0xdfd6e96545390a5459aba17cd48e33b9385739675b76b4bd1fc6391b04fdff7int, 1int, q()) == 0x2053c8d26b6c6b51421d3c4b9170e36e0ecfe94a2e55970f08dcb4f2715bf615int) by (nonlinear_arith) {
        reveal(primes::shift);
    }
    let e = primes::lemma_pow_digit(power_q_base(), e, 2, power_q_base2(), q());
    assert(primes::shift(0x2053c8d26b6c6b51421d3c4b9170e36e0ecfe94a2e55970f08dcb4f2715bf615int, power_q_base2(), q()) == 0x98bb67afdb220e450e0dd7afc27ed5cec95b5a43e0079f95efdf66c0f26c4a1int) by (nonlinear_arith) {
        reveal(primes::shift);
    }
    let e = primes::lemma_pow_digit(power_q_base(), e, 3, power_q_base3(), q());
    assert(primes::shift(0x98bb67afdb220e450e0dd7afc27ed5cec95b5a43e0079f95efdf66c0f26c4a1int, power_q_base3(), q()) == 0x2b2a4cdf959250cdf4c459a24aff6bccecb04c72d7b865429ba054314d189971int) by (nonlinear_arith) {
        reveal(primes::shift);
    }
    let e = primes::lemma_pow_digit(power_q_base(), e, 3, power_q_base3(), q());
    assert(primes::shift(0x2b2a4cdf959250cdf4c459a24aff6bccecb04c72d7b865429ba054314d189971int, power_q_base3(), q()) == 0x214f27e41cb8e651afb0d679767a61ddabafcbad5b6f31342e7e476a6d81182int) by (nonlinear_arith) {
        reveal(primes::shift);
    }
    let e = primes::lemma_pow_digit(power_q_base(), e, 3, power_q_base3(), q());
    assert(primes::shift(0x214f27e41cb8e651afb0d679767a61ddabafcbad5b6f31342e7e476a6d81182int, power_q_base3(), q()) == 0x1cdd9be1f72ab4b79d856fc2944267db59279de1959b6ecf381efcf8c259fd80int) by (nonlinear_arith) {
        reveal(primes::shift);
    }
    let e = primes::lemma_pow_digit(power_q_base(), e, 1, power_q_base(), q());
    assert(primes::shift(0x1cdd9be1f72ab4b79d856fc2944267db59279de1959b6ecf381efcf8c259fd80int, power_q_base(), q()) == 0x19ed8a032139f6ad7d6f8a689f7857583963aba8c9abe6f67ae7427fc872b2e8int) by (nonlinear_arith) {
        reveal(primes::shift);
    }
    let e = primes::lemma_pow_digit(power_q_base(), e, 1, power_q_base(), q());
    assert(primes::shift(0x19ed8a032139f6ad7d6f8a689f7857583963aba8c9abe6f67ae7427fc872b2e8int, power_q_base(), q()) == 0x2328ef14819a4473fb414d6c516b77495a27e8382125336821294b6843596c83int) by (nonlinear_arith) {
        reveal(primes::shift);
    }
    let e = primes::lemma_pow_digit(power_q_base(), e, 0, 1int, q());
    assert(primes::shift(0x2328ef14819a4473fb414d6c516b77495a27e8382125336821294b6843596c83int, 1int, q()) == 0x24fb3ae4717a528cbdb398d24a35e0ee27c82f3f9373280abd2cc5be0bab6ffdint) by (nonlinear_arith) {
        reveal(primes::shift);
    }
    let e = primes::lemma_pow_digit(power_q_base(), e, 1, power_q_base(), q());
    assert(primes::shift(0x24fb3ae4717a528cbdb398d24a35e0ee27c82f3f9373280abd2cc5be0bab6ffdint, power_q_base(), q()) == 0x1e0e715895765fd5b365b61dd7e8b05660820153c507742774271cf039afea8int) by (nonlinear_arith) {
        reveal(primes::shift);
    }
    let e = primes::lemma_pow_digit(power_q_base(), e, 0, 1int, q());
    assert(primes::shift(0x1e0e715895765fd5b365b61dd7e8b05660820153c507742774271cf039afea8int, 1int, q()) == 0x1022fe319eb8728bb23944076e7951601e11f9be6d38d49e9a2e03a4f415f5e9int) by (nonlinear_arith) {
        reveal(primes::shift);
    }
    let e = primes::lemma_pow_digit(power_q_base(), e, 1, power_q_base(), q());
    assert(primes::shift(0x1022fe319eb8728bb23944076e7951601e11f9be6d38d49e9a2e03a4f415f5e9int, power_q_base(), q()) == 0x15a880be001aa2988fddf76bcbbb137c7f9c9cfdd5886439e7b10cdca94cae89int) by (nonlinear_arith) {
        reveal(primes::shift);
    }
    let e = primes::lemma_pow_digit(power_q_base(), e, 1, power_q_base(), q());
    assert(primes::shift(0x15a880be001aa2988fddf76bcbbb137c7f9c9cfdd5886439e7b10cdca94cae89int, power_q_base(), q()) == 0x21ce90fdb33a8b7bda582ba52f657b0b430285937357da07478c43baba3c0a82int) by (nonlinear_arith) {
        reveal(primes::shift);
    }
    let e = primes::lemma_pow_digit(power_q_base(), e, 3, power_q_base3(), q());
    assert(primes::shift(0x21ce90fdb33a8b7bda582ba52f657b0b430285937357da07478c43baba3c0a82int, power_q_base3(), q()) == 0x8ed92393ec94907dfb7023d06f1fac3daac5ffa6ea3c733e741255d9db5e083int) by (nonlinear_arith) {
        reveal(primes::shift);
    }
    let e = primes::lemma_pow_digit(power_q_base(), e, 1, power_q_base(), q());
    assert(primes::shift(0x8ed92393ec94907dfb7023d06f1fac3daac5ffa6ea3c733e741255d9db5e083int, power_q_base(), q()) == 0x1d377961b2da7bffb790e648575b7ffacd495e0c3255dc479d3fb72c5933448bint) by (nonlinear_arith) {
        reveal(primes::shift);
    }
    let e = primes::lemma_pow_digit(power_q_base(), e, 0, 1int, q());
    assert(primes::shift(0x1d377961b2da7bffb790e648575b7ffacd495e0c3255dc479d3fb72c5933448bint, 1int, q()) == 0x1ff0a1836044a167b17f0877baeedc48cd50008bc609bbc14ec1cdebe58341d7int) by (nonlinear_arith) {
        reveal(primes::shift);
    }
    let e = primes::lemma_pow_digit(power_q_base(), e, 0, 1int, q());
    assert(primes::shift(0x1ff0a1836044a167b17f0877baeedc48cd50008bc609bbc14ec1cdebe58341d7int, 1int, q()) == 0x9639379ba9eb61a09ec6de04b9bc10e25e50d010938d5c355ac3ac97dcd39a9int) by (nonlinear_arith) {
        reveal(primes::shift);
    }
    let e = primes::lemma_pow_digit(power_q_base(), e, 0, 1int, q());
    assert(primes::shift(0x9639379ba9eb61a09ec6de04b9bc10e25e50d010938d5c355ac3ac97dcd39a9int, 1int, q()) == 0xb6ab0ed2f07b6fe2c55a6a4961a5c12d2870a95c84798ad9f8561c169eee88dint) by (nonlinear_arith) {
        reveal(primes::shift);
    }
    let e = primes::lemma_pow_digit(power_q_base(), e, 2, power_q_base2(), q());
    assert(primes::shift(0xb6ab0ed2f07b6fe2c55a6a4961a5c12d2870a95c84798ad9f8561c169eee88dint, power_q_base2(), q()) == 0x18262e81a32ce83cc65c002f4e4547e3b6a2cfa16a4d05c83507fd4982d2b4b4int) by (nonlinear_arith) {
        reveal(primes::shift);
    }
    let e = primes::lemma_pow_digit(power_q_base(), e, 2, power_q_base2(), q());
    assert(primes::shift(0x18262e81a32ce83cc65c002f4e4547e3b6a2cfa16a4d05c83507fd4982d2b4b4int, power_q_base2(), q()) == 0x2c8b860f6beeb911d6e115f939885974805ffbb7603cad9fc2849d8f0729c4b6int) by (nonlinear_arith) {
        reveal(primes::shift);
    }
    let e = primes::lemma_pow_digit(power_q_base(), e, 2, power_q_base2(), q());
    assert(primes::shift(0x2c8b860f6beeb911d6e115f939885974805ffbb7603cad9fc2849d8f0729c4b6int, power_q_base2(), q()) == 0x1e40879047e2421183c183eb35b103d83074a92b9677e728beac76a70c7edd05int) by (nonlinear_arith) {
        reveal(primes::shift);
    }
    let e = primes::lemma_pow_digit(power_q_base(), e, 0, 1int, q());
    assert(primes::shift(0x1e40879047e2421183c183eb35b103d83074a92b9677e728beac76a70c7edd05int, 1int, q()) == 0x3cbfb98f4598dd6aa9affb57cfee465a208255ba3efda68894f1bec2a39e9cint) by (nonlinear_arith) {
        reveal(primes::shift);
    }
    let e = primes::lemma_pow_digit(power_q_base(), e, 3, power_q_base3(), q());
    assert(primes::shift(0x3cbfb98f4598dd6aa9affb57cfee465a208255ba3efda68894f1bec2a39e9cint, power_q_base3(), q()) == 0x29cd6c014671c247764da3dd1e5b752b0cdea6aae7cde0f2fff12f47b7ac19ffint) by (nonlinear_arith) {
        reveal(primes::shift);
    }
    let e = primes::lemma_pow_digit(power_q_base(), e, 0, 1int, q());
    assert(primes::shift(0x29cd6c014671c247764da3dd1e5b752b0cdea6aae7cde0f2fff12f47b7ac19ffint, 1int, q()) == 0x1a6af7fe33ba93c4f445faa3cc056555b50962676c9dd338267f2d0bc7517448int) by (nonlinear_arith) {
        reveal(primes::shift);
    }
    let e = primes::lemma_pow_digit(power_q_base(), e, 2, power_q_base2(), q());
    assert(primes::shift(0x1a6af7fe33ba93c4f445faa3cc056555b50962676c9dd338267f2d0bc7517448int, power_q_base2(), q()) == 0x2354f0bf321e4115b9539139e6f1e2d6c087862a6d14cccf4345e3f1a829f326int) by (nonlinear_arith) {
        reveal(primes::shift);
    }
    let e = primes::lemma_pow_digit(power_q_base(), e, 2, power_q_base2(), q());
    assert(primes::shift(0x2354f0bf321e4115b9539139e6f1e2d6c087862a6d14cccf4345e3f1a829f326int, power_q_base2(), q()) == 0x11959dd106ddf004ae516be9dac56fb165d481accad33041a8e43daaf5bbb566int) by (nonlinear_arith) {
        reveal(primes::shift);
    }
    let e = primes::lemma_pow_digit(power_q_base(), e, 2, power_q_base2(), q());
    assert(primes::shift(0x11959dd106ddf004ae516be9dac56fb165d481accad33041a8e43daaf5bbb566int, power_q_base2(), q()) == 0xd8f7892117685dc5de441cf2b0e53d96921a2c3298a6dc69e57322be6bca488int) by (nonlinear_arith) {
        reveal(primes::shift);
    }
    let e = primes::lemma_pow_digit(power_q_base(), e, 2, power_q_base2(), q());
    assert(primes::shift(0xd8f7892117685dc5de441cf2b0e53d96921a2c3298a6dc69e57322be6bca488int, power_q_base2(), q()) == 0x26390d09f511201e92e95478a651b122de634a5d9a0553aaf41ff6d467b3d98dint) by (nonlinear_arith) {
        reveal(primes::shift);
    }
    let e = primes::lemma_pow_digit(power_q_base(), e, 2, power_q_base2(), q());
    assert(primes::shift(0x26390d09f511201e92e95478a651b122de634a5d9a0553aaf41ff6d467b3d98dint, power_q_base2(), q()) == 0x2b41b0cc692fa09914e4f593b3859897c72b60e5223b597ed1631e6659d20404int) by (nonlinear_arith) {
        reveal(primes::shift);
    }
    let e = primes::lemma_pow_digit(power_q_base(), e, 0, 1int, q());
    assert(primes::shift(0x2b41b0cc692fa09914e4f593b3859897c72b60e5223b597ed1631e6659d20404int, 1int, q()) == 0x3026d69922c0f06b7bab4af71dc0411680796ad10f46c8cf87bc7b415085fa99int) by (nonlinear_arith) {
        reveal(primes::shift);
    }
    let e = primes::lemma_pow_digit(power_q_base(), e, 0, 1int, q());
    assert(primes::shift(0x3026d69922c0f06b7bab4af71dc0411680796ad10f46c8cf87bc7b415085fa99int, 1int, q()) == 0x5c706095f21f3095bd52359e0a3695e364b41b335647be6bd2a916b4d31915dint) by (nonlinear_arith) {
        reveal(primes::shift);
    }
    let e = primes::lemma_pow_digit(power_q_base(), e, 3, power_q_base3(), q());
    assert(primes::shift(0x5c706095f21f3095bd52359e0a3695e364b41b335647be6bd2a916b4d31915dint, power_q_base3(), q()) == 0x1e98c4f292e69a290c127a73bd92c2f1485db15ae111446adebb1316a65d13int) by (nonlinear_arith) {
        reveal(primes::shift);
    }
    let e = primes::lemma_pow_digit(power_q_base(), e, 3, power_q_base3(), q());
    assert(primes::shift(0x1e98c4f292e69a290c127a73bd92c2f1485db15ae111446adebb1316a65d13int, power_q_base3(), q()) == 0x14f26b0b83783cee546bbfe24f16e14cda61171997b597d272b23e9234e43304int) by (nonlinear_arith) {
        reveal(primes::shift);
    }
    let e = primes::lemma_pow_digit(power_q_base(), e, 1, power_q_base(), q());
    assert(primes::shift(0x14f26b0b83783cee546bbfe24f16e14cda61171997b597d272b23e9234e43304int, power_q_base(), q()) == 0xd6d713f5b6462d6c8c17478706306e19fe8a9c4aef8beb3e6600cd2a72ef85bint) by (nonlinear_arith) {
        reveal(primes::shift);
    }
    let e = primes::lemma_pow_digit(power_q_base(), e, 1, power_q_base(), q());
    assert(primes::shift(0xd6d713f5b6462d6c8c17478706306e19fe8a9c4aef8beb3e6600cd2a72ef85bint, power_q_base(), q()) == 0x11e6691f495fcf548ba601346c9c60a11d202edd78436d6cdbd3dc959469a9e1int) by (nonlinear_arith) {
        reveal(primes::shift);
    }
    let e = primes::lemma_pow_digit(power_q_base(), e, 2, power_q_base2(), q());
    assert(primes::shift(0x11e6691f495fcf548ba601346c9c60a11d202edd78436d6cdbd3dc959469a9e1int, power_q_base2(), q()) == 0x2c7d2d7ddaccf626fae81ec9a913285b4bb5f5bded569d3a6f6527590e7b3742int) by (nonlinear_arith) {
        reveal(primes::shift);
    }
    let e = primes::lemma_pow_digit(power_q_base(), e, 1, power_q_base(), q());
    assert(primes::shift(0x2c7d2d7ddaccf626fae81ec9a913285b4bb5f5bded569d3a6f6527590e7b3742int, power_q_base(), q()) == 0x262d6170185f977b1aeb8e14554ea8a452aa8e844c5bc9abd3b780488d77bb6int) by (nonlinear_arith) {
        reveal(primes::shift);
    }
    let e = primes::lemma_pow_digit(power_q_base(), e, 2, power_q_base2(), q());
    assert(primes::shift(0x262d6170185f977b1aeb8e14554ea8a452aa8e844c5bc9abd3b780488d77bb6int, power_q_base2(), q()) == 0x131e77c54371a4c7c11f6adb1c5f43bc38cf1a01f6bf0a73ed9b38acc806278eint) by (nonlinear_arith) {
        reveal(primes::shift);
    }
    let e = primes::lemma_pow_digit(power_q_base(), e, 3, power_q_base3(), q());
    assert(primes::shift(0x131e77c54371a4c7c11f6adb1c5f43bc38cf1a01f6bf0a73ed9b38acc806278eint, power_q_base3(), q()) == 0x1b6be5860ed5d328fd908c0d349b8eab51b2ec77a904673fd6e589290ee85216int) by (nonlinear_arith) {
        reveal(primes::shift);
    }
    let e = primes::lemma_pow_digit(power_q_base(), e, 1, power_q_base(), q());
    assert(primes::shift(0x1b6be5860ed5d328fd908c0d349b8eab51b2ec77a904673fd6e589290ee85216int, power_q_base(), q()) == 0x278964d0939c30277722002643f36f64ef1037bbf8fbe1880215e0a2e4e905bint) by (nonlinear_arith) {
        reveal(primes::shift);
    }
    let e = primes::lemma_pow_digit(power_q_base(), e, 2, power_q_base2(), q());
    assert(primes::shift(0x278964d0939c30277722002643f36f64ef1037bbf8fbe1880215e0a2e4e905bint, power_q_base2(), q()) == 0x416bc86ff613f7e1e5a36f559777bde3268169fdd93730de50728317e160c83int) by (nonlinear_arith) {
        reveal(primes::shift);
    }
    let e = primes::lemma_pow_digit(power_q_base(), e, 1, power_q_base(), q());
    assert(primes::shift(0x416bc86ff613f7e1e5a36f559777bde3268169fdd93730de50728317e160c83int, power_q_base(), q()) == 0x24685a5fa16ff9f5128eb604c4fbced8aed674cd12a5a772651b008fbd8feb09int) by (nonlinear_arith) {
        reveal(primes::shift);
    }
    let e = primes::lemma_pow_digit(power_q_base(), e, 2, power_q_base2(), q());
    assert(primes::shift(0x24685a5fa16ff9f5128eb604c4fbced8aed674cd12a5a772651b008fbd8feb09int, power_q_base2(), q()) == 0x2a94c2dfb7da97e21a6677cf68c28604e40b7e0dee449a3ae6ad448e25ce7e99int) by (nonlinear_arith) {
        reveal(primes::shift);
    }
    let e = primes::lemma_pow_digit(power_q_base(), e, 2, power_q_base2(), q());
    assert(primes::shift(0x2a94c2dfb7da97e21a6677cf68c28604e40b7e0dee449a3ae6ad448e25ce7e99int, power_q_base2(), q()) == 0x161b90fc3ee9763fb76aef92b9856ccbbec5ed98237c20db7a224836b427e778int) by (nonlinear_arith) {
        reveal(primes::shift);
    }
    let e = primes::lemma_pow_digit(power_q_base(), e, 2, power_q_base2(), q());
    assert(primes::shift(0x161b90fc3ee9763fb76aef92b9856ccbbec5ed98237c20db7a224836b427e778int, power_q_base2(), q()) == 0x23a836009cf77b6e9c7023c07f0d0821ea89bcb2e7b418c0b6ae6607b88b8d2eint) by (nonlinear_arith) {
        reveal(primes::shift);
    }
    let e = primes::lemma_pow_digit(power_q_base(), e, 2, power_q_base2(), q());
    assert(primes::shift(0x23a836009cf77b6e9c7023c07f0d0821ea89bcb2e7b418c0b6ae6607b88b8d2eint, power_q_base2(), q()) == 0x1835ef5232e2eedba84f6b30a68795214540b9ac4d2224deb2c27b94bde1c6dbint) by (nonlinear_arith) {
        reveal(primes::shift);
    }
    let e = primes::lemma_pow_digit(power_q_base(), e, 2, power_q_base2(), q());
    assert(primes::shift(0x1835ef5232e2eedba84f6b30a68795214540b9ac4d2224deb2c27b94bde1c6dbint, power_q_base2(), q()) == 0x7d192e2162ac6b1e62c9fbda9fa4a4acec091be6ce27b76d8ce47a0080c24ceint) by (nonlinear_arith) {
        reveal(primes::shift);
    }
    let e = primes::lemma_pow_digit(power_q_base(), e, 0, 1int, q());
    assert(primes::shift(0x7d192e2162ac6b1e62c9fbda9fa4a4acec091be6ce27b76d8ce47a0080c24ceint, 1int, q()) == 0xba5dc5ed387fa57c5407c0a85b449337fda0493c444624d9903e1ab3092484fint) by (nonlinear_arith) {
        reveal(primes::shift);
    }
    let e = primes::lemma_pow_digit(power_q_base(), e, 1, power_q_base(), q());
    assert(primes::shift(0xba5dc5ed387fa57c5407c0a85b449337fda0493c444624d9903e1ab3092484fint, power_q_base(), q()) == 0x94bc2d5108d6090b8eee4dbc25d83ffce4dcf82c9f73aed7bdee0b4e94813bdint) by (nonlinear_arith) {
        reveal(primes::shift);
    }
    let e = primes::lemma_pow_digit(power_q_base(), e, 0, 1int, q());
    assert(primes::shift(0x94bc2d5108d6090b8eee4dbc25d83ffce4dcf82c9f73aed7bdee0b4e94813bdint, 1int, q()) == 0x13bc9174e9379c4dda44ec3c66f60eef8fe981d92087c5866a15efde87493c69int) by (nonlinear_arith) {
        reveal(primes::shift);
    }
    let e = primes::lemma_pow_digit(power_q_base(), e, 1, power_q_base(), q());
    assert(primes::shift(0x13bc9174e9379c4dda44ec3c66f60eef8fe981d92087c5866a15efde87493c69int, power_q_base(), q()) == 1int) by (nonlinear_arith) {
        reveal(primes::shift);
    }
    assert(e == 0x2775dec4d2fd445d02a32aa0f59b66aa11int);
}

/// The base-field modulus is prime.
pub proof fn lemma_q_prime()
    ensures
        primes::prime(q()),
{
    root_q();
    power_q();
    primes::lemma_pow_compose(2, 0x139f1481c505fe912ac762c6a9b12e6int as nat, 0x2d5e256c06a868c6e4890a6dab5d8e3a2707ff7ff0369c37a2c8faca0399d771int, 0x2775dec4d2fd445d02a32aa0f59b66aa11int as nat, q());
    assert(0x139f1481c505fe912ac762c6a9b12e6int * 0x2775dec4d2fd445d02a32aa0f59b66aa11int == 0x30644e72e131a029b85045b68181585d97816a916871ca8d3c208c16d87cfd46int) by (nonlinear_arith);
    lemma_prime_13427688667394608761327070753331941386769();
    assert((0x2d5e256c06a868c6e4890a6dab5d8e3a2707ff7ff0369c37a2c8faca0399d770int * 0x11280702cece1e1134e5fe9ec88ce193dfcc50edfa655be2c8acda3cb27035f7int) % q() == 1) by (nonlinear_arith);
    assert(0x2775dec4d2fd445d02a32aa0f59b66aa11int * 0x139f1481c505fe912ac762c6a9b12e6int == 0x30644e72e131a029b85045b68181585d97816a916871ca8d3c208c16d87cfd46int) by (nonlinear_arith);
    lemma_cofactor(q(), 0x2775dec4d2fd445d02a32aa0f59b66aa11int, 0x139f1481c505fe912ac762c6a9b12e6int, 0x2d5e256c06a868c6e4890a6dab5d8e3a2707ff7ff0369c37a2c8faca0399d771int, 0x11280702cece1e1134e5fe9ec88ce193dfcc50edfa655be2c8acda3cb27035f7int);
    assert((0x2775dec4d2fd445d02a32aa0f59b66aa11int + 1) * (0x2775dec4d2fd445d02a32aa0f59b66aa11int + 1) > q()) by (nonlinear_arith);
    primes::lemma_pocklington(q(), 0x2775dec4d2fd445d02a32aa0f59b66aa11int);
}

proof fn lemma_prime_71()
    ensures
        primes::prime(71int),
{
    assert forall|d: int| 2 <= d < 9 implies #[trigger] (71int % d) != 0 by {
        assert(d == 2 || d == 3 || d == 4 || d == 5 || d == 6 || d == 7 || d == 8);
    }
    primes::lemma_prime_by_trial(71int, 9);
}

/// `2^(n-1)` modulo `n = 853`.
proof fn power_853()
    ensures
        pow(2int, 0x354int as nat) % 853int == 1int,
{
    assert((2int * 2int) % 853int == 4int) by (nonlinear_arith);
    assert((4int * 2int) % 853int == 8int) by (nonlinear_arith);
    primes::lemma_pow_table(2int, 4int, 8int, 853int);
    let e = 0nat;
    let e = primes::lemma_pow_digit(2int, e, 3, 8int, 853int);
    assert(primes::shift(1int, 8int, 853int) == 8int) by (nonlinear_arith) {
        reveal(primes::shift);
    }
    let e = primes::lemma_pow_digit(2int, e, 1, 2int, 853int);
    assert(primes::shift(8int, 2int, 853int) == 0x203int) by (nonlinear_arith) {
        reveal(primes::shift);
    }
    let e = primes::lemma_pow_digit(2int, e, 1, 2int, 853int);
    assert(primes::shift(0x203int, 2int, 853int) == 0x2f5int) by (nonlinear_arith) {
        reveal(primes::shift);
    }
    let e = primes::lemma_pow_digit(2int, e, 1, 2int, 853int);
    assert(primes::shift(0x2f5int, 2int, 853int) == 0x14dint) by (nonlinear_arith) {
        reveal(primes::shift);
    }
    let e = primes::lemma_pow_digit(2int, e, 0, 1int, 853int);
    assert(primes::shift(0x14dint, 1int, 853int) == 1int) by (nonlinear_arith) {
        reveal(primes::shift);
    }
    assert(e == 0x354int);
}

/// `2^((n-1)/71)` modulo `n = 853`.
proof fn power_853_over_71()
    ensures
        pow(2int, 0xcint as nat) % 853int == 0x2acint,
{
    assert((2int * 2int) % 853int == 4int) by (nonlinear_arith);
    assert((4int * 2int) % 853int == 8int) by (nonlinear_arith);
    primes::lemma_pow_table(2int, 4int, 8int, 853int);
    let e = 0nat;
    let e = primes::lemma_pow_digit(2int, e, 3, 8int, 853int);
    assert(primes::shift(1int, 8int, 853int) == 8int) by (nonlinear_arith) {
        reveal(primes::shift);
    }
    let e = primes::lemma_pow_digit(2int, e, 0, 1int, 853int);
    assert(primes::shift(8int, 1int, 853int) == 0x2acint) by (nonlinear_arith) {
        reveal(primes::shift);
    }
    assert(e == 0xcint);
}

proof fn lemma_prime_853()
    ensures
        primes::prime(853int),
{
    power_853();
    power_853_over_71();
    lemma_prime_71();
    assert((0x2abint * 0x11eint) % 853int == 1) by (nonlinear_arith);
    assert(71int * 0xcint == 0x354int) by (nonlinear_arith);
    lemma_cofactor(853int, 71int, 0xcint, 0x2acint, 0x11eint);
    assert((0x47int + 1) * (0x47int + 1) > 853int) by (nonlinear_arith);
    primes::lemma_pocklington(853int, 0x47int);
}

proof fn lemma_prime_19()
    ensures
        primes::prime(19int),
{
    assert forall|d: int| 2 <= d < 5 implies #[trigger] (19int % d) != 0 by {
        assert(d == 2 || d == 3 || d == 4);
    }
    primes::lemma_prime_by_trial(19int, 5);
}

/// `2^(n-1)` modulo `n = 229`.
proof fn power_229()
    ensures
        pow(2int, 0xe4int as nat) % 229int == 1int,
{
    assert((2int * 2int) % 229int == 4int) by (nonlinear_arith);
    assert((4int * 2int) % 229int == 8int) by (nonlinear_arith);
    primes::lemma_pow_table(2int, 4int, 8int, 229int);
    let e = 0nat;
    let e = primes::lemma_pow_digit(2int, e, 3, 8int, 229int);
    assert(primes::shift(1int, 8int, 229int) == 8int) by (nonlinear_arith) {
        reveal(primes::shift);
    }
    let e = primes::lemma_pow_digit(2int, e, 2, 4int, 229int);
    assert(primes::shift(8int, 4int, 229int) == 0x7dint) by (nonlinear_arith) {
        reveal(primes::shift);
    }
    let e = primes::lemma_pow_digit(2int, e, 1, 2int, 229int);
    assert(primes::shift(0x7dint, 2int, 229int) == 0x7aint) by (nonlinear_arith) {
        reveal(primes::shift);
    }
    let e = primes::lemma_pow_digit(2int, e, 0, 1int, 229int);
    assert(primes::shift(0x7aint, 1int, 229int) == 1int) by (nonlinear_arith) {
        reveal(primes::shift);
    }
    assert(e == 0xe4int);
}

/// `2^((n-1)/19)` modulo `n = 229`.
proof fn power_229_over_19()
    ensures
        pow(2int, 0xcint as nat) % 229int == 0xcbint,
{
    assert((2int * 2int) % 229int == 4int) by (nonlinear_arith);
    assert((4int * 2int) % 229int == 8int) by (nonlinear_arith);
    primes::lemma_pow_table(2int, 4int, 8int, 229int);
    let e = 0nat;
    let e = primes::lemma_pow_digit(2int, e, 3, 8int, 229int);
    assert(primes::shift(1int, 8int, 229int) == 8int) by (nonlinear_arith) {
        reveal(primes::shift);
    }
    let e = primes::lemma_pow_digit(2int, e, 0, 1int, 229int);
    assert(primes::shift(8int, 1int, 229int) == 0xcbint) by (nonlinear_arith) {
        reveal(primes::shift);
    }
    assert(e == 0xcint);
}

proof fn lemma_prime_229()
    ensures
        primes::prime(229int),
{
    power_229();
    power_229_over_19();
    lemma_prime_19();
    assert((0xcaint * 0xd4int) % 229int == 1) by (nonlinear_arith);
    assert(19int * 0xcint == 0xe4int) by (nonlinear_arith);
    lemma_cofactor(229int, 19int, 0xcint, 0xcbint, 0xd4int);
    assert((0x13int + 1) * (0x13int + 1) > 229int) by (nonlinear_arith);
    primes::lemma_pocklington(229int, 0x13int);
}

/// `2^(n-1)` modulo `n = 639533339`.
proof fn power_639533339()
    ensures
        pow(2int, 0x261e811aint as nat) % 0x261e811bint == 1int,
{
    assert((2int * 2int) % 0x261e811bint == 4int) by (nonlinear_arith);
    assert((4int * 2int) % 0x261e811bint == 8int) by (nonlinear_arith);
    primes::lemma_pow_table(2int, 4int, 8int, 0x261e811bint);
    let e = 0nat;
    let e = primes::lemma_pow_digit(2int, e, 2, 4int, 0x261e811bint);
    assert(primes::shift(1int, 4int, 0x261e811bint) == 4int) by (nonlinear_arith) {
        reveal(primes::shift);
    }
    let e = primes::lemma_pow_digit(2int, e, 1, 2int, 0x261e811bint);
    assert(primes::shift(4int, 2int, 0x261e811bint) == 0x200int) by (nonlinear_arith) {
        reveal(primes::shift);
    }
    let e = primes::lemma_pow_digit(2int, e, 2, 4int, 0x261e811bint);
    assert(primes::shift(0x200int, 4int, 0x261e811bint) == 0x1ee1a5c1int) by (nonlinear_arith) {
        reveal(primes::shift);
    }
    let e = primes::lemma_pow_digit(2int, e, 0, 1int, 0x261e811bint);
    assert(primes::shift(0x1ee1a5c1int, 1int, 0x261e811bint) == 0x1571fd03int) by (nonlinear_arith) {
        reveal(primes::shift);
    }
    let e = primes::lemma_pow_digit(2int, e, 1, 2int, 0x261e811bint);
    assert(primes::shift(0x1571fd03int, 2int, 0x261e811bint) == 0x7480096int) by (nonlinear_arith) {
        reveal(primes::shift);
    }
    let e = primes::lemma_pow_digit(2int, e, 3, 8int, 0x261e811bint);
    assert(primes::shift(0x7480096int, 8int, 0x261e811bint) == 0xa5968aeint) by (nonlinear_arith) {
        reveal(primes::shift);
    }
    let e = primes::lemma_pow_digit(2int, e, 2, 4int, 0x261e811bint);
    assert(primes::shift(0xa5968aeint, 4int, 0x261e811bint) == 0x142aaad4int) by (nonlinear_arith) {
        reveal(primes::shift);
    }
    let e = primes::lemma_pow_digit(2int, e, 2, 4int, 0x261e811bint);
    assert(primes::shift(0x142aaad4int, 4int, 0x261e811bint) == 0x84bf3b4int) by (nonlinear_arith) {
        reveal(primes::shift);
    }
    let e = primes::lemma_pow_digit(2int, e, 0, 1int, 0x261e811bint);
    assert(primes::shift(0x84bf3b4int, 1int, 0x261e811bint) == 0x1b8006d5int) by (nonlinear_arith) {
        reveal(primes::shift);
    }
    let e = primes::lemma_pow_digit(2int, e, 0, 1int, 0x261e811bint);
    assert(primes::shift(0x1b8006d5int, 1int, 0x261e811bint) == 0x1a9abec3int) by (nonlinear_arith) {
        reveal(primes::shift);
    }
    let e = primes::lemma_pow_digit(2int, e, 1, 2int, 0x261e811bint);
    assert(primes::shift(0x1a9abec3int, 2int, 0x261e811bint) == 0x15c005e8int) by (nonlinear_arith) {
        reveal(primes::shift);
    }
    let e = primes::lemma_pow_digit(2int, e, 0, 1int, 0x261e811bint);
    assert(primes::shift(0x15c005e8int, 1int, 0x261e811bint) == 0x13be3bd3int) by (nonlinear_arith) {
        reveal(primes::shift);
    }
    let e = primes::lemma_pow_digit(2int, e, 1, 2int, 0x261e811bint);
    assert(primes::shift(0x13be3bd3int, 2int, 0x261e811bint) == 0xc1ce883int) by (nonlinear_arith) {
        reveal(primes::shift);
    }
    let e = primes::lemma_pow_digit(2int, e, 2, 4int, 0x261e811bint);
    assert(primes::shift(0xc1ce883int, 4int, 0x261e811bint) == 0x498d30cint) by (nonlinear_arith) {
        reveal(primes::shift);
    }
    let e = primes::lemma_pow_digit(2int, e, 2, 4int, 0x261e811bint);
    assert(primes::shift(0x498d30cint, 4int, 0x261e811bint) == 1int) by (nonlinear_arith) {
        reveal(primes::shift);
    }
    assert(e == 0x261e811aint);
}

/// `2^((n-1)/853)` modulo `n = 639533339`.
proof fn power_639533339_over_853()
    ensures
        pow(2int, 0xb70b2int as nat) % 0x261e811bint == 0xf4320edint,
{
    assert((2int * 2int) % 0x261e811bint == 4int) by (nonlinear_arith);
    assert((4int * 2int) % 0x261e811bint == 8int) by (nonlinear_arith);
    primes::lemma_pow_table(2int, 4int, 8int, 0x261e811bint);
    let e = 0nat;
    let e = primes::lemma_pow_digit(2int, e, 2, 4int, 0x261e811bint);
    assert(primes::shift(1int, 4int, 0x261e811bint) == 4int) by (nonlinear_arith) {
        reveal(primes::shift);
    }
    let e = primes::lemma_pow_digit(2int, e, 3, 8int, 0x261e811bint);
    assert(primes::shift(4int, 8int, 0x261e811bint) == 0x800int) by (nonlinear_arith) {
        reveal(primes::shift);
    }
    let e = primes::lemma_pow_digit(2int, e, 1, 2int, 0x261e811bint);
    assert(primes::shift(0x800int, 2int, 0x261e811bint) == 0x1a8ceea3int) by (nonlinear_arith) {
        reveal(primes::shift);
    }
    let e = primes::lemma_pow_digit(2int, e, 3, 8int, 0x261e811bint);
    assert(primes::shift(0x1a8ceea3int, 8int, 0x261e811bint) == 0x18f09a26int) by (nonlinear_arith) {
        reveal(primes::shift);
    }
    let e = primes::lemma_pow_digit(2int, e, 0, 1int, 0x261e811bint);
    assert(primes::shift(0x18f09a26int, 1int, 0x261e811bint) == 0x1f1a7d87int) by (nonlinear_arith) {
        reveal(primes::shift);
    }
    let e = primes::lemma_pow_digit(2int, e, 0, 1int, 0x261e811bint);
    assert(primes::shift(0x1f1a7d87int, 1int, 0x261e811bint) == 0x28e4762int) by (nonlinear_arith) {
        reveal(primes::shift);
    }
    let e = primes::lemma_pow_digit(2int, e, 2, 4int, 0x261e811bint);
    assert(primes::shift(0x28e4762int, 4int, 0x261e811bint) == 0x1dd52c0aint) by (nonlinear_arith) {
        reveal(primes::shift);
    }
    let e = primes::lemma_pow_digit(2int, e, 3, 8int, 0x261e811bint);
    assert(primes::shift(0x1dd52c0aint, 8int, 0x261e811bint) == 0x1cff1c56int) by (nonlinear_arith) {
        reveal(primes::shift);
    }
    let e = primes::lemma_pow_digit(2int, e, 0, 1int, 0x261e811bint);
    assert(primes::shift(0x1cff1c56int, 1int, 0x261e811bint) == 0x1abb65afint) by (nonlinear_arith) {
        reveal(primes::shift);
    }
    let e = primes::lemma_pow_digit(2int, e, 2, 4int, 0x261e811bint);
    assert(primes::shift(0x1abb65afint, 4int, 0x261e811bint) == 0xf4320edint) by (nonlinear_arith) {
        reveal(primes::shift);
    }
    assert(e == 0xb70b2int);
}

/// `2^((n-1)/229)` modulo `n = 639533339`.
proof fn power_639533339_over_229()
    ensures
        pow(2int, 0x2a9d12int as nat) % 0x261e811bint == 0x102bafbbint,
{
    assert((2int * 2int) % 0x261e811bint == 4int) by (nonlinear_arith);
    assert((4int * 2int) % 0x261e811bint == 8int) by (nonlinear_arith);
    primes::lemma_pow_table(2int, 4int, 8int, 0x261e811bint);
    let e = 0nat;
    let e = primes::lemma_pow_digit(2int, e, 2, 4int, 0x261e811bint);
    assert(primes::shift(1int, 4int, 0x261e811bint) == 4int) by (nonlinear_arith) {
        reveal(primes::shift);
    }
    let e = primes::lemma_pow_digit(2int, e, 2, 4int, 0x261e811bint);
    assert(primes::shift(4int, 4int, 0x261e811bint) == 0x400int) by (nonlinear_arith) {
        reveal(primes::shift);
    }
    let e = primes::lemma_pow_digit(2int, e, 2, 4int, 0x261e811bint);
    assert(primes::shift(0x400int, 4int, 0x261e811bint) == 0x24ac4eccint) by (nonlinear_arith) {
        reveal(primes::shift);
    }
    let e = primes::lemma_pow_digit(2int, e, 2, 4int, 0x261e811bint);
    assert(primes::shift(0x24ac4eccint, 4int, 0x261e811bint) == 0xaf027aeint) by (nonlinear_arith) {
        reveal(primes::shift);
    }
    let e = primes::lemma_pow_digit(2int, e, 1, 2int, 0x261e811bint);
    assert(primes::shift(0xaf027aeint, 2int, 0x261e811bint) == 0x191d6418int) by (nonlinear_arith) {
        reveal(primes::shift);
    }
    let e = primes::lemma_pow_digit(2int, e, 3, 8int, 0x261e811bint);
    assert(primes::shift(0x191d6418int, 8int, 0x261e811bint) == 0x96aa5fbint) by (nonlinear_arith) {
        reveal(primes::shift);
    }
    let e = primes::lemma_pow_digit(2int, e, 1, 2int, 0x261e811bint);
    assert(primes::shift(0x96aa5fbint, 2int, 0x261e811bint) == 0x19810581int) by (nonlinear_arith) {
        reveal(primes::shift);
    }
    let e = primes::lemma_pow_digit(2int, e, 0, 1int, 0x261e811bint);
    assert(primes::shift(0x19810581int, 1int, 0x261e811bint) == 0x5097e68int) by (nonlinear_arith) {
        reveal(primes::shift);
    }
    let e = primes::lemma_pow_digit(2int, e, 1, 2int, 0x261e811bint);
    assert(primes::shift(0x5097e68int, 2int, 0x261e811bint) == 0x2161486dint) by (nonlinear_arith) {
        reveal(primes::shift);
    }
    let e = primes::lemma_pow_digit(2int, e, 0, 1int, 0x261e811bint);
    assert(primes::shift(0x2161486dint, 1int, 0x261e811bint) == 0xec2c683int) by (nonlinear_arith) {
        reveal(primes::shift);
    }
    let e = primes::lemma_pow_digit(2int, e, 2, 4int, 0x261e811bint);
    assert(primes::shift(0xec2c683int, 4int, 0x261e811bint) == 0x102bafbbint) by (nonlinear_arith) {
        reveal(primes::shift);
    }
    assert(e == 0x2a9d12int);
}

proof fn lemma_prime_639533339()
    ensures
        primes::prime(0x261e811bint),
{
    power_639533339();
    power_639533339_over_853();
    power_639533339_over_229();
    lemma_prime_853();
    assert((0xf4320ecint * 0x121e58afint) % 0x261e811bint == 1) by (nonlinear_arith);
    assert(853int * 0xb70b2int == 0x261e811aint) by (nonlinear_arith);
    lemma_cofactor(0x261e811bint, 853int, 0xb70b2int, 0xf4320edint, 0x121e58afint);
    lemma_prime_229();
    assert((0x102bafbaint * 0xaa69589int) % 0x261e811bint == 1) by (nonlinear_arith);
    assert(229int * 0x2a9d12int == 0x261e811aint) by (nonlinear_arith);
    lemma_cofactor(0x261e811bint, 229int, 0x2a9d12int, 0x102bafbbint, 0xaa69589int);
    assert(0x355int % 229int != 0) by (nonlinear_arith);
    primes::lemma_pocklington_combine(0x261e811bint, 0x355int, 229int);
    assert(0x355int * 229int == 0x2fb09int) by (nonlinear_arith);
    assert((0x2fb09int + 1) * (0x2fb09int + 1) > 0x261e811bint) by (nonlinear_arith);
    primes::lemma_pocklington(0x261e811bint, 0x2fb09int);
}

/// `2^(n-1)` modulo `n = 65865678001877903`.
proof fn power_65865678001877903()
    ensures
        pow(2int, 0xea007c3431338eint as nat) % 0xea007c3431338fint == 1int,
{
    assert((2int * 2int) % 0xea007c3431338fint == 4int) by (nonlinear_arith);
    assert((4int * 2int) % 0xea007c3431338fint == 8int) by (nonlinear_arith);
    primes::lemma_pow_table(2int, 4int, 8int, 0xea007c3431338fint);
    let e = 0nat;
    let e = primes::lemma_pow_digit(2int, e, 3, 8int, 0xea007c3431338fint);
    assert(primes::shift(1int, 8int, 0xea007c3431338fint) == 8int) by (nonlinear_arith) {
        reveal(primes::shift);
    }
    let e = primes::lemma_pow_digit(2int, e, 2, 4int, 0xea007c3431338fint);
    assert(primes::shift(8int, 4int, 0xea007c3431338fint) == 0x4000int) by (nonlinear_arith) {
        reveal(primes::shift);
    }
    let e = primes::lemma_pow_digit(2int, e, 2, 4int, 0xea007c3431338fint);
    assert(primes::shift(0x4000int, 4int, 0xea007c3431338fint) == 0x57fe0f2f3b31c4int) by (nonlinear_arith) {
        reveal(primes::shift);
    }
    let e = primes::lemma_pow_digit(2int, e, 2, 4int, 0xea007c3431338fint);
    assert(primes::shift(0x57fe0f2f3b31c4int, 4int, 0xea007c3431338fint) == 0xb464b9d2198163int) by (nonlinear_arith) {
        reveal(primes::shift);
    }
    let e = primes::lemma_pow_digit(2int, e, 0, 1int, 0xea007c3431338fint);
    assert(primes::shift(0xb464b9d2198163int, 1int, 0xea007c3431338fint) == 0xccce560398361eint) by (nonlinear_arith) {
        reveal(primes::shift);
    }
    let e = primes::lemma_pow_digit(2int, e, 0, 1int, 0xea007c3431338fint);
    assert(primes::shift(0xccce560398361eint, 1int, 0xea007c3431338fint) == 0x8e1199ceb89241int) by (nonlinear_arith) {
        reveal(primes::shift);
    }
    let e = primes::lemma_pow_digit(2int, e, 0, 1int, 0xea007c3431338fint);
    assert(primes::shift(0x8e1199ceb89241int, 1int, 0xea007c3431338fint) == 0x491c5ebe23046int) by (nonlinear_arith) {
        reveal(primes::shift);
    }
    let e = primes::lemma_pow_digit(2int, e, 0, 1int, 0xea007c3431338fint);
    assert(primes::shift(0x491c5ebe23046int, 1int, 0xea007c3431338fint) == 0xc34100a2e0b438int) by (nonlinear_arith) {
        reveal(primes::shift);
    }
    let e = primes::lemma_pow_digit(2int, e, 1, 2int, 0xea007c3431338fint);
    assert(primes::shift(0xc34100a2e0b438int, 2int, 0xea007c3431338fint) == 0xb56d0e2d72305aint) by (nonlinear_arith) {
        reveal(primes::shift);
    }
    let e = primes::lemma_pow_digit(2int, e, 3, 8int, 0xea007c3431338fint);
    assert(primes::shift(0xb56d0e2d72305aint, 8int, 0xea007c3431338fint) == 0x5ef2badc148ff0int) by (nonlinear_arith) {
        reveal(primes::shift);
    }
    let e = primes::lemma_pow_digit(2int, e, 3, 8int, 0xea007c3431338fint);
    assert(primes::shift(0x5ef2badc148ff0int, 8int, 0xea007c3431338fint) == 0x47f9934225f564int) by (nonlinear_arith) {
        reveal(primes::shift);
    }
    let e = primes::lemma_pow_digit(2int, e, 0, 1int, 0xea007c3431338fint);
    assert(primes::shift(0x47f9934225f564int, 1int, 0xea007c3431338fint) == 0xdb594879acb62fint) by (nonlinear_arith) {
        reveal(primes::shift);
    }
    let e = primes::lemma_pow_digit(2int, e, 0, 1int, 0xea007c3431338fint);
    assert(primes::shift(0xdb594879acb62fint, 1int, 0xea007c3431338fint) == 0x590c67e990074bint) by (nonlinear_arith) {
        reveal(primes::shift);
    }
    let e = primes::lemma_pow_digit(2int, e, 3, 8int, 0xea007c3431338fint);
    assert(primes::shift(0x590c67e990074bint, 8int, 0xea007c3431338fint) == 0x6b96012ef8f47aint) by (nonlinear_arith) {
        reveal(primes::shift);
    }
    let e = primes::lemma_pow_digit(2int, e, 1, 2int, 0xea007c3431338fint);
    assert(primes::shift(0x6b96012ef8f47aint, 2int, 0xea007c3431338fint) == 0x124225fb3b3a9int) by (nonlinear_arith) {
        reveal(primes::shift);
    }
    let e = primes::lemma_pow_digit(2int, e, 0, 1int, 0xea007c3431338fint);
    assert(primes::shift(0x124225fb3b3a9int, 1int, 0xea007c3431338fint) == 0x47efc7bd0d68dfint) by (nonlinear_arith) {
        reveal(primes::shift);
    }
    let e = primes::lemma_pow_digit(2int, e, 0, 1int, 0xea007c3431338fint);
    assert(primes::shift(0x47efc7bd0d68dfint, 1int, 0xea007c3431338fint) == 0x3775b459bf9b66int) by (nonlinear_arith) {
        reveal(primes::shift);
    }
    let e = primes::lemma_pow_digit(2int, e, 3, 8int, 0xea007c3431338fint);
    assert(primes::shift(0x3775b459bf9b66int, 8int, 0xea007c3431338fint) == 0xc29ed869d6aaeeint) by (nonlinear_arith) {
        reveal(primes::shift);
    }
    let e = primes::lemma_pow_digit(2int, e, 0, 1int, 0xea007c3431338fint);
    assert(primes::shift(0xc29ed869d6aaeeint, 1int, 0xea007c3431338fint) == 0x6946c8e8f1a4daint) by (nonlinear_arith) {
        reveal(primes::shift);
    }
    let e = primes::lemma_pow_digit(2int, e, 1, 2int, 0xea007c3431338fint);
    assert(primes::shift(0x6946c8e8f1a4daint, 2int, 0xea007c3431338fint) == 0xbc4e8209e32cc9int) by (nonlinear_arith) {
        reveal(primes::shift);
    }
    let e = primes::lemma_pow_digit(2int, e, 0, 1int, 0xea007c3431338fint);
    assert(primes::shift(0xbc4e8209e32cc9int, 1int, 0xea007c3431338fint) == 0x877d917bbfd410int) by (nonlinear_arith) {
        reveal(primes::shift);
    }
    let e = primes::lemma_pow_digit(2int, e, 3, 8int, 0xea007c3431338fint);
    assert(primes::shift(0x877d917bbfd410int, 8int, 0xea007c3431338fint) == 0xb903011cfa7727int) by (nonlinear_arith) {
        reveal(primes::shift);
    }
    let e = primes::lemma_pow_digit(2int, e, 0, 1int, 0xea007c3431338fint);
    assert(primes::shift(0xb903011cfa7727int, 1int, 0xea007c3431338fint) == 0x5ffbad564463fdint) by (nonlinear_arith) {
        reveal(primes::shift);
    }
    let e = primes::lemma_pow_digit(2int, e, 3, 8int, 0xea007c3431338fint);
    assert(primes::shift(0x5ffbad564463fdint, 8int, 0xea007c3431338fint) == 0xbf366f062722e8int) by (nonlinear_arith) {
        reveal(primes::shift);
    }
    let e = primes::lemma_pow_digit(2int, e, 2, 4int, 0xea007c3431338fint);
    assert(primes::shift(0xbf366f062722e8int, 4int, 0xea007c3431338fint) == 0x4f3beda92a0a1cint) by (nonlinear_arith) {
        reveal(primes::shift);
    }
    let e = primes::lemma_pow_digit(2int, e, 0, 1int, 0xea007c3431338fint);
    assert(primes::shift(0x4f3beda92a0a1cint, 1int, 0xea007c3431338fint) == 0x498558ca236571int) by (nonlinear_arith) {
        reveal(primes::shift);
    }
    let e = primes::lemma_pow_digit(2int, e, 3, 8int, 0xea007c3431338fint);
    assert(primes::shift(0x498558ca236571int, 8int, 0xea007c3431338fint) == 0x49db174f8cddf9int) by (nonlinear_arith) {
        reveal(primes::shift);
    }
    let e = primes::lemma_pow_digit(2int, e, 2, 4int, 0xea007c3431338fint);
    assert(primes::shift(0x49db174f8cddf9int, 4int, 0xea007c3431338fint) == 1int) by (nonlinear_arith) {
        reveal(primes::shift);
    }
    assert(e == 0xea007c3431338eint);
}

/// `2^((n-1)/639533339)` modulo `n = 65865678001877903`.
proof fn power_65865678001877903_over_639533339()
    ensures
        pow(2int, 0x623818aint as nat) % 0xea007c3431338fint == 0x1e8949ee7b99cfint,
{
    assert((2int * 2int) % 0xea007c3431338fint == 4int) by (nonlinear_arith);
    assert((4int * 2int) % 0xea007c3431338fint == 8int) by (nonlinear_arith);
    primes::lemma_pow_table(2int, 4int, 8int, 0xea007c3431338fint);
    let e = 0nat;
    let e = primes::lemma_pow_digit(2int, e, 1, 2int, 0xea007c3431338fint);
    assert(primes::shift(1int, 2int, 0xea007c3431338fint) == 2int) by (nonlinear_arith) {
        reveal(primes::shift);
    }
    let e = primes::lemma_pow_digit(2int, e, 2, 4int, 0xea007c3431338fint);
    assert(primes::shift(2int, 4int, 0xea007c3431338fint) == 0x40int) by (nonlinear_arith) {
        reveal(primes::shift);
    }
    let e = primes::lemma_pow_digit(2int, e, 0, 1int, 0xea007c3431338fint);
    assert(primes::shift(0x40int, 1int, 0xea007c3431338fint) == 0x1000000int) by (nonlinear_arith) {
        reveal(primes::shift);
    }
    let e = primes::lemma_pow_digit(2int, e, 2, 4int, 0xea007c3431338fint);
    assert(primes::shift(0x1000000int, 4int, 0xea007c3431338fint) == 0x779e2cffbba270int) by (nonlinear_arith) {
        reveal(primes::shift);
    }
    let e = primes::lemma_pow_digit(2int, e, 0, 1int, 0xea007c3431338fint);
    assert(primes::shift(0x779e2cffbba270int, 1int, 0xea007c3431338fint) == 0x68e58906a7e29dint) by (nonlinear_arith) {
        reveal(primes::shift);
    }
    let e = primes::lemma_pow_digit(2int, e, 3, 8int, 0xea007c3431338fint);
    assert(primes::shift(0x68e58906a7e29dint, 8int, 0xea007c3431338fint) == 0xd2733347613e64int) by (nonlinear_arith) {
        reveal(primes::shift);
    }
    let e = primes::lemma_pow_digit(2int, e, 2, 4int, 0xea007c3431338fint);
    assert(primes::shift(0xd2733347613e64int, 4int, 0xea007c3431338fint) == 0x8206e53f8648eeint) by (nonlinear_arith) {
        reveal(primes::shift);
    }
    let e = primes::lemma_pow_digit(2int, e, 0, 1int, 0xea007c3431338fint);
    assert(primes::shift(0x8206e53f8648eeint, 1int, 0xea007c3431338fint) == 0x564bc81b7ece29int) by (nonlinear_arith) {
        reveal(primes::shift);
    }
    let e = primes::lemma_pow_digit(2int, e, 0, 1int, 0xea007c3431338fint);
    assert(primes::shift(0x564bc81b7ece29int, 1int, 0xea007c3431338fint) == 0xc5394d969e0b7int) by (nonlinear_arith) {
        reveal(primes::shift);
    }
    let e = primes::lemma_pow_digit(2int, e, 1, 2int, 0xea007c3431338fint);
    assert(primes::shift(0xc5394d969e0b7int, 2int, 0xea007c3431338fint) == 0x8734a6f7eb076dint) by (nonlinear_arith) {
        reveal(primes::shift);
    }
    let e = primes::lemma_pow_digit(2int, e, 2, 4int, 0xea007c3431338fint);
    assert(primes::shift(0x8734a6f7eb076dint, 4int, 0xea007c3431338fint) == 0xc21be8056b05c3int) by (nonlinear_arith) {
        reveal(primes::shift);
    }
    let e = primes::lemma_pow_digit(2int, e, 0, 1int, 0xea007c3431338fint);
    assert(primes::shift(0xc21be8056b05c3int, 1int, 0xea007c3431338fint) == 0x9f849272b7b1f0int) by (nonlinear_arith) {
        reveal(primes::shift);
    }
    let e = primes::lemma_pow_digit(2int, e, 2, 4int, 0xea007c3431338fint);
    assert(primes::shift(0x9f849272b7b1f0int, 4int, 0xea007c3431338fint) == 0x294de33a8a8ea8int) by (nonlinear_arith) {
        reveal(primes::shift);
    }
    let e = primes::lemma_pow_digit(2int, e, 2, 4int, 0xea007c3431338fint);
    assert(primes::shift(0x294de33a8a8ea8int, 4int, 0xea007c3431338fint) == 0x1e8949ee7b99cfint) by (nonlinear_arith) {
        reveal(primes::shift);
    }
    assert(e == 0x623818aint);
}

proof fn lemma_prime_65865678001877903()
    ensures
        primes::prime(0xea007c3431338fint),
{
    power_65865678001877903();
    power_65865678001877903_over_639533339();
    lemma_prime_639533339();
    assert((0x1e8949ee7b99ceint * 0x8aac914b371ee1int) % 0xea007c3431338fint == 1) by (nonlinear_arith);
    assert(0x261e811bint * 0x623818aint == 0xea007c3431338eint) by (nonlinear_arith);
    lemma_cofactor(0xea007c3431338fint, 0x261e811bint, 0x623818aint, 0x1e8949ee7b99cfint, 0x8aac914b371ee1int);
    assert((0x261e811bint + 1) * (0x261e811bint + 1) > 0xea007c3431338fint) by (nonlinear_arith);
    primes::lemma_pocklington(0xea007c3431338fint, 0x261e811bint);
}

/// The part of `2^(n-1)`, `n = 13818364434197438864469338081`, that the certified factors leave.
proof fn root_13818364434197438864469338081()
    ensures
        pow(2int, 0x30d8d2ea20int as nat) % 0x2ca6487cfcd795e8729527e1int == 0x19a3e92405bebb4bd6527e50int,
{
    assert((2int * 2int) % 0x2ca6487cfcd795e8729527e1int == 4int) by (nonlinear_arith);
    assert((4int * 2int) % 0x2ca6487cfcd795e8729527e1int == 8int) by (nonlinear_arith);
    primes::lemma_pow_table(2int, 4int, 8int, 0x2ca6487cfcd795e8729527e1int);
    let e = 0nat;
    let e = primes::lemma_pow_digit(2int, e, 3, 8int, 0x2ca6487cfcd795e8729527e1int);
    assert(primes::shift(1int, 8int, 0x2ca6487cfcd795e8729527e1int) == 8int) by (nonlinear_arith) {
        reveal(primes::shift);
    }
    let e = primes::lemma_pow_digit(2int, e, 0, 1int, 0x2ca6487cfcd795e8729527e1int);
    assert(primes::shift(8int, 1int, 0x2ca6487cfcd795e8729527e1int) == 0x1000int) by (nonlinear_arith) {
        reveal(primes::shift);
    }
    let e = primes::lemma_pow_digit(2int, e, 0, 1int, 0x2ca6487cfcd795e8729527e1int);
    assert(primes::shift(0x1000int, 1int, 0x2ca6487cfcd795e8729527e1int) == 0x1000000000000int) by (nonlinear_arith) {
        reveal(primes::shift);
    }
    let e = primes::lemma_pow_digit(2int, e, 3, 8int, 0x2ca6487cfcd795e8729527e1int);
    assert(primes::shift(0x1000000000000int, 8int, 0x2ca6487cfcd795e8729527e1int) == 0xb4ba3a759f65edefd399aeaint) by (nonlinear_arith) {
        reveal(primes::shift);
    }
    let e = primes::lemma_pow_digit(2int, e, 1, 2int, 0x2ca6487cfcd795e8729527e1int);
    assert(primes::shift(0xb4ba3a759f65edefd399aeaint, 2int, 0x2ca6487cfcd795e8729527e1int) == 0x9cda597d362d02ec0376106int) by (nonlinear_arith) {
        reveal(primes::shift);
    }
    let e = primes::lemma_pow_digit(2int, e, 2, 4int, 0x2ca6487cfcd795e8729527e1int);
    assert(primes::shift(0x9cda597d362d02ec0376106int, 4int, 0x2ca6487cfcd795e8729527e1int) == 0x82c4ee832a1dbee2fb183eaint) by (nonlinear_arith) {
        reveal(primes::shift);
    }
    let e = primes::lemma_pow_digit(2int, e, 0, 1int, 0x2ca6487cfcd795e8729527e1int);
    assert(primes::shift(0x82c4ee832a1dbee2fb183eaint, 1int, 0x2ca6487cfcd795e8729527e1int) == 0xa0e6c46e78b6bc96c855d43int) by (nonlinear_arith) {
        reveal(primes::shift);
    }
    let e = primes::lemma_pow_digit(2int, e, 3, 8int, 0x2ca6487cfcd795e8729527e1int);
    assert(primes::shift(0xa0e6c46e78b6bc96c855d43int, 8int, 0x2ca6487cfcd795e8729527e1int) == 0x50f43206f9ad639ffe761f4int) by (nonlinear_arith) {
        reveal(primes::shift);
    }
    let e = primes::lemma_pow_digit(2int, e, 1, 2int, 0x2ca6487cfcd795e8729527e1int);
    assert(primes::shift(0x50f43206f9ad639ffe761f4int, 2int, 0x2ca6487cfcd795e8729527e1int) == 0xbae36be0659c6755704a81bint) by (nonlinear_arith) {
        reveal(primes::shift);
    }
    let e = primes::lemma_pow_digit(2int, e, 0, 1int, 0x2ca6487cfcd795e8729527e1int);
    assert(primes::shift(0xbae36be0659c6755704a81bint, 1int, 0x2ca6487cfcd795e8729527e1int) == 0x15a36daf65b72fa386342e94int) by (nonlinear_arith) {
        reveal(primes::shift);
    }
    let e = primes::lemma_pow_digit(2int, e, 2, 4int, 0x2ca6487cfcd795e8729527e1int);
    assert(primes::shift(0x15a36daf65b72fa386342e94int, 4int, 0x2ca6487cfcd795e8729527e1int) == 0x2089ee5590cc9a8b145737bbint) by (nonlinear_arith) {
        reveal(primes::shift);
    }
    let e = primes::lemma_pow_digit(2int, e, 3, 8int, 0x2ca6487cfcd795e8729527e1int);
    assert(primes::shift(0x2089ee5590cc9a8b145737bbint, 8int, 0x2ca6487cfcd795e8729527e1int) == 0x2232b20da9ae4518ead09591int) by (nonlinear_arith) {
        reveal(primes::shift);
    }
    let e = primes::lemma_pow_digit(2int, e, 2, 4int, 0x2ca6487cfcd795e8729527e1int);
    assert(primes::shift(0x2232b20da9ae4518ead09591int, 4int, 0x2ca6487cfcd795e8729527e1int) == 0x2c473944cbd9b65c281afe40int) by (nonlinear_arith) {
        reveal(primes::shift);
    }
    let e = primes::lemma_pow_digit(2int, e, 2, 4int, 0x2ca6487cfcd795e8729527e1int);
    assert(primes::shift(0x2c473944cbd9b65c281afe40int, 4int, 0x2ca6487cfcd795e8729527e1int) == 0x15a36c0d651fcfd300aa8b08int) by (nonlinear_arith) {
        reveal(primes::shift);
    }
    let e = primes::lemma_pow_digit(2int, e, 2, 4int, 0x2ca6487cfcd795e8729527e1int);
    assert(primes::shift(0x15a36c0d651fcfd300aa8b08int, 4int, 0x2ca6487cfcd795e8729527e1int) == 0x19d45c3ce78d16ebd4e75a28int) by (nonlinear_arith) {
        reveal(primes::shift);
    }
    let e = primes::lemma_pow_digit(2int, e, 0, 1int, 0x2ca6487cfcd795e8729527e1int);
    assert(primes::shift(0x19d45c3ce78d16ebd4e75a28int, 1int, 0x2ca6487cfcd795e8729527e1int) == 0x28265f7889a1f76834186b4int) by (nonlinear_arith) {
        reveal(primes::shift);
    }
    let e = primes::lemma_pow_digit(2int, e, 2, 4int, 0x2ca6487cfcd795e8729527e1int);
    assert(primes::shift(0x28265f7889a1f76834186b4int, 4int, 0x2ca6487cfcd795e8729527e1int) == 0x1d6e4eb57857e18421a46d93int) by (nonlinear_arith) {
        reveal(primes::shift);
    }
    let e = primes::lemma_pow_digit(2int, e, 0, 1int, 0x2ca6487cfcd795e8729527e1int);
    assert(primes::shift(0x1d6e4eb57857e18421a46d93int, 1int, 0x2ca6487cfcd795e8729527e1int) == 0x1fd4e6002d561752456e60aeint) by (nonlinear_arith) {
        reveal(primes::shift);
    }
    let e = primes::lemma_pow_digit(2int, e, 0, 1int, 0x2ca6487cfcd795e8729527e1int);
    assert(primes::shift(0x1fd4e6002d561752456e60aeint, 1int, 0x2ca6487cfcd795e8729527e1int) == 0x19a3e92405bebb4bd6527e50int) by (nonlinear_arith) {
        reveal(primes::shift);
    }
    assert(e == 0x30d8d2ea20int);
}

#[verifier::inline]
spec fn power_13818364434197438864469338081_base() -> int {
    0x19a3e92405bebb4bd6527e50int
}

#[verifier::inline]
spec fn power_13818364434197438864469338081_base2() -> int {
    0x1c3ba0731838bf068f2c2897int
}

#[verifier::inline]
spec fn power_13818364434197438864469338081_base3() -> int {
    0x1377743336b03795709a3dfcint
}

/// The rest of `2^(n-1)`.
proof fn power_13818364434197438864469338081()
    ensures
        pow(power_13818364434197438864469338081_base(), 0xea007c3431338fint as nat) % 0x2ca6487cfcd795e8729527e1int == 1int,
{
    assert((power_13818364434197438864469338081_base() * power_13818364434197438864469338081_base()) % 0x2ca6487cfcd795e8729527e1int == power_13818364434197438864469338081_base2()) by (nonlinear_arith);
    assert((power_13818364434197438864469338081_base2() * power_13818364434197438864469338081_base()) % 0x2ca6487cfcd795e8729527e1int == power_13818364434197438864469338081_base3()) by (nonlinear_arith);
    primes::lemma_pow_table(power_13818364434197438864469338081_base(), power_13818364434197438864469338081_base2(), power_13818364434197438864469338081_base3(), 0x2ca6487cfcd795e8729527e1int);
    let e = 0nat;
    let e = primes::lemma_pow_digit(power_13818364434197438864469338081_base(), e, 3, power_13818364434197438864469338081_base3(), 0x2ca6487cfcd795e8729527e1int);
    assert(primes::shift(1int, power_13818364434197438864469338081_base3(), 0x2ca6487cfcd795e8729527e1int) == 0x1377743336b03795709a3dfcint) by (nonlinear_arith) {
        reveal(primes::shift);
    }
    let e = primes::lemma_pow_digit(power_13818364434197438864469338081_base(), e, 2, power_13818364434197438864469338081_base2(), 0x2ca6487cfcd795e8729527e1int);
    assert(primes::shift(0x1377743336b03795709a3dfcint, power_13818364434197438864469338081_base2(), 0x2ca6487cfcd795e8729527e1int) == 0x2a1ccadc2fe323cbf7f65a7bint) by (nonlinear_arith) {
        reveal(primes::shift);
    }
    let e = primes::lemma_pow_digit(power_13818364434197438864469338081_base(), e, 2, power_13818364434197438864469338081_base2(), 0x2ca6487cfcd795e8729527e1int);
    assert(primes::shift(0x2a1ccadc2fe323cbf7f65a7bint, power_13818364434197438864469338081_base2(), 0x2ca6487cfcd795e8729527e1int) == 0xb447ed7839e5ced0e9416cbint) by (nonlinear_arith) {
        reveal(primes::shift);
    }
    let e = primes::lemma_pow_digit(power_13818364434197438864469338081_base(), e, 2, power_13818364434197438864469338081_base2(), 0x2ca6487cfcd795e8729527e1int);
    assert(primes::shift(0xb447ed7839e5ced0e9416cbint, power_13818364434197438864469338081_base2(), 0x2ca6487cfcd795e8729527e1int) == 0x2a2849632887881fe9aa8518int) by (nonlinear_arith) {
        reveal(primes::shift);
    }
    let e = primes::lemma_pow_digit(power_13818364434197438864469338081_base(), e, 0, 1int, 0x2ca6487cfcd795e8729527e1int);
    assert(primes::shift(0x2a2849632887881fe9aa8518int, 1int, 0x2ca6487cfcd795e8729527e1int) == 0x75c33d0907400032cdc3981int) by (nonlinear_arith) {
        reveal(primes::shift);
    }
    let e = primes::lemma_pow_digit(power_13818364434197438864469338081_base(), e, 0, 1int, 0x2ca6487cfcd795e8729527e1int);
    assert(primes::shift(0x75c33d0907400032cdc3981int, 1int, 0x2ca6487cfcd795e8729527e1int) == 0x256c79b3a74dd54db5dc03a0int) by (nonlinear_arith) {
        reveal(primes::shift);
    }
    let e = primes::lemma_pow_digit(power_13818364434197438864469338081_base(), e, 0, 1int, 0x2ca6487cfcd795e8729527e1int);
    assert(primes::shift(0x256c79b3a74dd54db5dc03a0int, 1int, 0x2ca6487cfcd795e8729527e1int) == 0x1b0aa2759336eca181645bceint) by (nonlinear_arith) {
        reveal(primes::shift);
    }
    let e = primes::lemma_pow_digit(power_13818364434197438864469338081_base(), e, 0, 1int, 0x2ca6487cfcd795e8729527e1int);
    assert(primes::shift(0x1b0aa2759336eca181645bceint, 1int, 0x2ca6487cfcd795e8729527e1int) == 0x21a5825f715c9f16a80314d1int) by (nonlinear_arith) {
        reveal(primes::shift);
    }
    let e = primes::lemma_pow_digit(power_13818364434197438864469338081_base(), e, 1, power_13818364434197438864469338081_base(), 0x2ca6487cfcd795e8729527e1int);
    assert(primes::shift(0x21a5825f715c9f16a80314d1int, power_13818364434197438864469338081_base(), 0x2ca6487cfcd795e8729527e1int) == 0xd367c05503bac9d6419e6a5int) by (nonlinear_arith) {
        reveal(primes::shift);
    }
    let e = primes::lemma_pow_digit(power_13818364434197438864469338081_base(), e, 3, power_13818364434197438864469338081_base3(), 0x2ca6487cfcd795e8729527e1int);
    assert(primes::shift(0xd367c05503bac9d6419e6a5int, power_13818364434197438864469338081_base3(), 0x2ca6487cfcd795e8729527e1int) == 0xce957194f4106347ba8851cint) by (nonlinear_arith) {
        reveal(primes::shift);
    }
    let e = primes::lemma_pow_digit(power_13818364434197438864469338081_base(), e, 3, power_13818364434197438864469338081_base3(), 0x2ca6487cfcd795e8729527e1int);
    assert(primes::shift(0xce957194f4106347ba8851cint, power_13818364434197438864469338081_base3(), 0x2ca6487cfcd795e8729527e1int) == 0xa94bd527b6649b7cab81bfbint) by (nonlinear_arith) {
        reveal(primes::shift);
    }
    let e = primes::lemma_pow_digit(power_13818364434197438864469338081_base(), e, 0, 1int, 0x2ca6487cfcd795e8729527e1int);
    assert(primes::shift(0xa94bd527b6649b7cab81bfbint, 1int, 0x2ca6487cfcd795e8729527e1int) == 0x273788c4a10bc624c6c33619int) by (nonlinear_arith) {
        reveal(primes::shift);
    }
    let e = primes::lemma_pow_digit(power_13818364434197438864469338081_base(), e, 0, 1int, 0x2ca6487cfcd795e8729527e1int);
    assert(primes::shift(0x273788c4a10bc624c6c33619int, 1int, 0x2ca6487cfcd795e8729527e1int) == 0x1ea1aef1dc016f24d376e6e3int) by (nonlinear_arith) {
        reveal(primes::shift);
    }
    let e = primes::lemma_pow_digit(power_13818364434197438864469338081_base(), e, 3, power_13818364434197438864469338081_base3(), 0x2ca6487cfcd795e8729527e1int);
    assert(primes::shift(0x1ea1aef1dc016f24d376e6e3int, power_13818364434197438864469338081_base3(), 0x2ca6487cfcd795e8729527e1int) == 0xa241be77843f0927716a343int) by (nonlinear_arith) {
        reveal(primes::shift);
    }
    let e = primes::lemma_pow_digit(power_13818364434197438864469338081_base(), e, 1, power_13818364434197438864469338081_base(), 0x2ca6487cfcd795e8729527e1int);
    assert(primes::shift(0xa241be77843f0927716a343int, power_13818364434197438864469338081_base(), 0x2ca6487cfcd795e8729527e1int) == 0x75f2340be930d65f861b611int) by (nonlinear_arith) {
        reveal(primes::shift);
    }
    let e = primes::lemma_pow_digit(power_13818364434197438864469338081_base(), e, 0, 1int, 0x2ca6487cfcd795e8729527e1int);
    assert(primes::shift(0x75f2340be930d65f861b611int, 1int, 0x2ca6487cfcd795e8729527e1int) == 0x1e01d89f21bbcb33354f621aint) by (nonlinear_arith) {
        reveal(primes::shift);
    }
    let e = primes::lemma_pow_digit(power_13818364434197438864469338081_base(), e, 0, 1int, 0x2ca6487cfcd795e8729527e1int);
    assert(primes::shift(0x1e01d89f21bbcb33354f621aint, 1int, 0x2ca6487cfcd795e8729527e1int) == 0x2452589b30bf4ec4d0dbca32int) by (nonlinear_arith) {
        reveal(primes::shift);
    }
    let e = primes::lemma_pow_digit(power_13818364434197438864469338081_base(), e, 3, power_13818364434197438864469338081_base3(), 0x2ca6487cfcd795e8729527e1int);
    assert(primes::shift(0x2452589b30bf4ec4d0dbca32int, power_13818364434197438864469338081_base3(), 0x2ca6487cfcd795e8729527e1int) == 0x611cbea0101c8219feaa757int) by (nonlinear_arith) {
        reveal(primes::shift);
    }
    let e = primes::lemma_pow_digit(power_13818364434197438864469338081_base(), e, 0, 1int, 0x2ca6487cfcd795e8729527e1int);
    assert(primes::shift(0x611cbea0101c8219feaa757int, 1int, 0x2ca6487cfcd795e8729527e1int) == 0x1b12d250a91c5ea809f78c5eint) by (nonlinear_arith) {
        reveal(primes::shift);
    }
    let e = primes::lemma_pow_digit(power_13818364434197438864469338081_base(), e, 1, power_13818364434197438864469338081_base(), 0x2ca6487cfcd795e8729527e1int);
    assert(primes::shift(0x1b12d250a91c5ea809f78c5eint, power_13818364434197438864469338081_base(), 0x2ca6487cfcd795e8729527e1int) == 0x2251208b9ca0ee7b6ace2256int) by (nonlinear_arith) {
        reveal(primes::shift);
    }
    let e = primes::lemma_pow_digit(power_13818364434197438864469338081_base(), e, 0, 1int, 0x2ca6487cfcd795e8729527e1int);
    assert(primes::shift(0x2251208b9ca0ee7b6ace2256int, 1int, 0x2ca6487cfcd795e8729527e1int) == 0x4da7b262650460a5798fb7int) by (nonlinear_arith) {
        reveal(primes::shift);
    }
    let e = primes::lemma_pow_digit(power_13818364434197438864469338081_base(), e, 3, power_13818364434197438864469338081_base3(), 0x2ca6487cfcd795e8729527e1int);
    assert(primes::shift(0x4da7b262650460a5798fb7int, power_13818364434197438864469338081_base3(), 0x2ca6487cfcd795e8729527e1int) == 0x127829bc6a9b3d50afa90311int) by (nonlinear_arith) {
        reveal(primes::shift);
    }
    let e = primes::lemma_pow_digit(power_13818364434197438864469338081_base(), e, 0, 1int, 0x2ca6487cfcd795e8729527e1int);
    assert(primes::shift(0x127829bc6a9b3d50afa90311int, 1int, 0x2ca6487cfcd795e8729527e1int) == 0x16668b3d4c5c3d8ee04830ddint) by (nonlinear_arith) {
        reveal(primes::shift);
    }
    let e = primes::lemma_pow_digit(power_13818364434197438864469338081_base(), e, 3, power_13818364434197438864469338081_base3(), 0x2ca6487cfcd795e8729527e1int);
    assert(primes::shift(0x16668b3d4c5c3d8ee04830ddint, power_13818364434197438864469338081_base3(), 0x2ca6487cfcd795e8729527e1int) == 0xa18470a66e409a1ec145373int) by (nonlinear_arith) {
        reveal(primes::shift);
    }
    let e = primes::lemma_pow_digit(power_13818364434197438864469338081_base(), e, 2, power_13818364434197438864469338081_base2(), 0x2ca6487cfcd795e8729527e1int);
    assert(primes::shift(0xa18470a66e409a1ec145373int, power_13818364434197438864469338081_base2(), 0x2ca6487cfcd795e8729527e1int) == 0xc78928c0f6bcc9fcedc74deint) by (nonlinear_arith) {
        reveal(primes::shift);
    }
    let e = primes::lemma_pow_digit(power_13818364434197438864469338081_base(), e, 0, 1int, 0x2ca6487cfcd795e8729527e1int);
    assert(primes::shift(0xc78928c0f6bcc9fcedc74deint, 1int, 0x2ca6487cfcd795e8729527e1int) == 0x18a2fea047d7d0de7989a763int) by (nonlinear_arith) {
        reveal(primes::shift);
    }
    let e = primes::lemma_pow_digit(power_13818364434197438864469338081_base(), e, 3, power_13818364434197438864469338081_base3(), 0x2ca6487cfcd795e8729527e1int);
    assert(primes::shift(0x18a2fea047d7d0de7989a763int, power_13818364434197438864469338081_base3(), 0x2ca6487cfcd795e8729527e1int) == 0x1dd1ccc1a22f7ab9c010bed0int) by (nonlinear_arith) {
        reveal(primes::shift);
    }
    let e = primes::lemma_pow_digit(power_13818364434197438864469338081_base(), e, 3, power_13818364434197438864469338081_base3(), 0x2ca6487cfcd795e8729527e1int);
    assert(primes::shift(0x1dd1ccc1a22f7ab9c010bed0int, power_13818364434197438864469338081_base3(), 0x2ca6487cfcd795e8729527e1int) == 1int) by (nonlinear_arith) {
        reveal(primes::shift);
    }
    assert(e == 0xea007c3431338fint);
}

proof fn lemma_prime_13818364434197438864469338081()
    ensures
        primes::prime(0x2ca6487cfcd795e8729527e1int),
{
    root_13818364434197438864469338081();
    power_13818364434197438864469338081();
    primes::lemma_pow_compose(2, 0x30d8d2ea20int as nat, 0x19a3e92405bebb4bd6527e50int, 0xea007c3431338fint as nat, 0x2ca6487cfcd795e8729527e1int);
    assert(0x30d8d2ea20int * 0xea007c3431338fint == 0x2ca6487cfcd795e8729527e0int) by (nonlinear_arith);
    lemma_prime_65865678001877903();
    assert((0x19a3e92405bebb4bd6527e4fint * 0x27af4995b5c971ff1be1666aint) % 0x2ca6487cfcd795e8729527e1int == 1) by (nonlinear_arith);
    assert(0xea007c3431338fint * 0x30d8d2ea20int == 0x2ca6487cfcd795e8729527e0int) by (nonlinear_arith);
    lemma_cofactor(0x2ca6487cfcd795e8729527e1int, 0xea007c3431338fint, 0x30d8d2ea20int, 0x19a3e92405bebb4bd6527e50int, 0x27af4995b5c971ff1be1666aint);
    assert((0xea007c3431338fint + 1) * (0xea007c3431338fint + 1) > 0x2ca6487cfcd795e8729527e1int) by (nonlinear_arith);
    primes::lemma_pocklington(0x2ca6487cfcd795e8729527e1int, 0xea007c3431338fint);
}

proof fn lemma_prime_31()
    ensures
        primes::prime(31int),
{
    assert forall|d: int| 2 <= d < 6 implies #[trigger] (31int % d) != 0 by {
        assert(d == 2 || d == 3 || d == 4 || d == 5);
    }
    primes::lemma_prime_by_trial(31int, 6);
}

proof fn lemma_prime_5()
    ensures
        primes::prime(5int),
{
    assert forall|d: int| 2 <= d < 3 implies #[trigger] (5int % d) != 0 by {
        assert(d == 2);
    }
    primes::lemma_prime_by_trial(5int, 3);
}

proof fn lemma_prime_3()
    ensures
        primes::prime(3int),
{
    assert forall|d: int| 2 <= d < 2 implies #[trigger] (3int % d) != 0 by {
    }
    primes::lemma_prime_by_trial(3int, 2);
}

/// `2^(n-1)` modulo `n = 93001`.
proof fn power_93001()
    ensures
        pow(2int, 0x16b48int as nat) % 0x16b49int == 1int,
{
    assert((2int * 2int) % 0x16b49int == 4int) by (nonlinear_arith);
    assert((4int * 2int) % 0x16b49int == 8int) by (nonlinear_arith);
    primes::lemma_pow_table(2int, 4int, 8int, 0x16b49int);
    let e = 0nat;
    let e = primes::lemma_pow_digit(2int, e, 1, 2int, 0x16b49int);
    assert(primes::shift(1int, 2int, 0x16b49int) == 2int) by (nonlinear_arith) {
        reveal(primes::shift);
    }
    let e = primes::lemma_pow_digit(2int, e, 1, 2int, 0x16b49int);
    assert(primes::shift(2int, 2int, 0x16b49int) == 0x20int) by (nonlinear_arith) {
        reveal(primes::shift);
    }
    let e = primes::lemma_pow_digit(2int, e, 2, 4int, 0x16b49int);
    assert(primes::shift(0x20int, 4int, 0x16b49int) == 0x242bint) by (nonlinear_arith) {
        reveal(primes::shift);
    }
    let e = primes::lemma_pow_digit(2int, e, 2, 4int, 0x16b49int);
    assert(primes::shift(0x242bint, 4int, 0x16b49int) == 0x53baint) by (nonlinear_arith) {
        reveal(primes::shift);
    }
    let e = primes::lemma_pow_digit(2int, e, 3, 8int, 0x16b49int);
    assert(primes::shift(0x53baint, 8int, 0x16b49int) == 0x9caeint) by (nonlinear_arith) {
        reveal(primes::shift);
    }
    let e = primes::lemma_pow_digit(2int, e, 1, 2int, 0x16b49int);
    assert(primes::shift(0x9caeint, 2int, 0x16b49int) == 0x6d62int) by (nonlinear_arith) {
        reveal(primes::shift);
    }
    let e = primes::lemma_pow_digit(2int, e, 0, 1int, 0x16b49int);
    assert(primes::shift(0x6d62int, 1int, 0x16b49int) == 0x30aint) by (nonlinear_arith) {
        reveal(primes::shift);
    }
    let e = primes::lemma_pow_digit(2int, e, 2, 4int, 0x16b49int);
    assert(primes::shift(0x30aint, 4int, 0x16b49int) == 0x16b48int) by (nonlinear_arith) {
        reveal(primes::shift);
    }
    let e = primes::lemma_pow_digit(2int, e, 0, 1int, 0x16b49int);
    assert(primes::shift(0x16b48int, 1int, 0x16b49int) == 1int) by (nonlinear_arith) {
        reveal(primes::shift);
    }
    assert(e == 0x16b48int);
}

/// `2^((n-1)/31)` modulo `n = 93001`.
proof fn power_93001_over_31()
    ensures
        pow(2int, 0xbb8int as nat) % 0x16b49int == 0xcb51int,
{
    assert((2int * 2int) % 0x16b49int == 4int) by (nonlinear_arith);
    assert((4int * 2int) % 0x16b49int == 8int) by (nonlinear_arith);
    primes::lemma_pow_table(2int, 4int, 8int, 0x16b49int);
    let e = 0nat;
    let e = primes::lemma_pow_digit(2int, e, 2, 4int, 0x16b49int);
    assert(primes::shift(1int, 4int, 0x16b49int) == 4int) by (nonlinear_arith) {
        reveal(primes::shift);
    }
    let e = primes::lemma_pow_digit(2int, e, 3, 8int, 0x16b49int);
    assert(primes::shift(4int, 8int, 0x16b49int) == 0x800int) by (nonlinear_arith) {
        reveal(primes::shift);
    }
    let e = primes::lemma_pow_digit(2int, e, 2, 4int, 0x16b49int);
    assert(primes::shift(0x800int, 4int, 0x16b49int) == 0x5485int) by (nonlinear_arith) {
        reveal(primes::shift);
    }
    let e = primes::lemma_pow_digit(2int, e, 3, 8int, 0x16b49int);
    assert(primes::shift(0x5485int, 8int, 0x16b49int) == 0x436cint) by (nonlinear_arith) {
        reveal(primes::shift);
    }
    let e = primes::lemma_pow_digit(2int, e, 2, 4int, 0x16b49int);
    assert(primes::shift(0x436cint, 4int, 0x16b49int) == 0x15e5fint) by (nonlinear_arith) {
        reveal(primes::shift);
    }
    let e = primes::lemma_pow_digit(2int, e, 0, 1int, 0x16b49int);
    assert(primes::shift(0x15e5fint, 1int, 0x16b49int) == 0xcb51int) by (nonlinear_arith) {
        reveal(primes::shift);
    }
    assert(e == 0xbb8int);
}

/// `2^((n-1)/5)` modulo `n = 93001`.
proof fn power_93001_over_5()
    ensures
        pow(2int, 0x48a8int as nat) % 0x16b49int == 0x6e26int,
{
    assert((2int * 2int) % 0x16b49int == 4int) by (nonlinear_arith);
    assert((4int * 2int) % 0x16b49int == 8int) by (nonlinear_arith);
    primes::lemma_pow_table(2int, 4int, 8int, 0x16b49int);
    let e = 0nat;
    let e = primes::lemma_pow_digit(2int, e, 1, 2int, 0x16b49int);
    assert(primes::shift(1int, 2int, 0x16b49int) == 2int) by (nonlinear_arith) {
        reveal(primes::shift);
    }
    let e = primes::lemma_pow_digit(2int, e, 0, 1int, 0x16b49int);
    assert(primes::shift(2int, 1int, 0x16b49int) == 0x10int) by (nonlinear_arith) {
        reveal(primes::shift);
    }
    let e = primes::lemma_pow_digit(2int, e, 2, 4int, 0x16b49int);
    assert(primes::shift(0x10int, 4int, 0x16b49int) == 0x1296eint) by (nonlinear_arith) {
        reveal(primes::shift);
    }
    let e = primes::lemma_pow_digit(2int, e, 0, 1int, 0x16b49int);
    assert(primes::shift(0x1296eint, 1int, 0x16b49int) == 0x4b3eint) by (nonlinear_arith) {
        reveal(primes::shift);
    }
    let e = primes::lemma_pow_digit(2int, e, 2, 4int, 0x16b49int);
    assert(primes::shift(0x4b3eint, 4int, 0x16b49int) == 0x5a5dint) by (nonlinear_arith) {
        reveal(primes::shift);
    }
    let e = primes::lemma_pow_digit(2int, e, 2, 4int, 0x16b49int);
    assert(primes::shift(0x5a5dint, 4int, 0x16b49int) == 0x27d0int) by (nonlinear_arith) {
        reveal(primes::shift);
    }
    let e = primes::lemma_pow_digit(2int, e, 2, 4int, 0x16b49int);
    assert(primes::shift(0x27d0int, 4int, 0x16b49int) == 0x12c32int) by (nonlinear_arith) {
        reveal(primes::shift);
    }
    let e = primes::lemma_pow_digit(2int, e, 0, 1int, 0x16b49int);
    assert(primes::shift(0x12c32int, 1int, 0x16b49int) == 0x6e26int) by (nonlinear_arith) {
        reveal(primes::shift);
    }
    assert(e == 0x48a8int);
}

/// `2^((n-1)/3)` modulo `n = 93001`.
proof fn power_93001_over_3()
    ensures
        pow(2int, 0x7918int as nat) % 0x16b49int == 0x5902int,
{
    assert((2int * 2int) % 0x16b49int == 4int) by (nonlinear_arith);
    assert((4int * 2int) % 0x16b49int == 8int) by (nonlinear_arith);
    primes::lemma_pow_table(2int, 4int, 8int, 0x16b49int);
    let e = 0nat;
    let e = primes::lemma_pow_digit(2int, e, 1, 2int, 0x16b49int);
    assert(primes::shift(1int, 2int, 0x16b49int) == 2int) by (nonlinear_arith) {
        reveal(primes::shift);
    }
    let e = primes::lemma_pow_digit(2int, e, 3, 8int, 0x16b49int);
    assert(primes::shift(2int, 8int, 0x16b49int) == 0x80int) by (nonlinear_arith) {
        reveal(primes::shift);
    }
    let e = primes::lemma_pow_digit(2int, e, 2, 4int, 0x16b49int);
    assert(primes::shift(0x80int, 4int, 0x16b49int) == 0xb0dfint) by (nonlinear_arith) {
        reveal(primes::shift);
    }
    let e = primes::lemma_pow_digit(2int, e, 1, 2int, 0x16b49int);
    assert(primes::shift(0xb0dfint, 2int, 0x16b49int) == 0x15cd6int) by (nonlinear_arith) {
        reveal(primes::shift);
    }
    let e = primes::lemma_pow_digit(2int, e, 0, 1int, 0x16b49int);
    assert(primes::shift(0x15cd6int, 1int, 0x16b49int) == 0xf4f2int) by (nonlinear_arith) {
        reveal(primes::shift);
    }
    let e = primes::lemma_pow_digit(2int, e, 1, 2int, 0x16b49int);
    assert(primes::shift(0xf4f2int, 2int, 0x16b49int) == 0x86e4int) by (nonlinear_arith) {
        reveal(primes::shift);
    }
    let e = primes::lemma_pow_digit(2int, e, 2, 4int, 0x16b49int);
    assert(primes::shift(0x86e4int, 4int, 0x16b49int) == 0x11247int) by (nonlinear_arith) {
        reveal(primes::shift);
    }
    let e = primes::lemma_pow_digit(2int, e, 0, 1int, 0x16b49int);
    assert(primes::shift(0x11247int, 1int, 0x16b49int) == 0x5902int) by (nonlinear_arith) {
        reveal(primes::shift);
    }
    assert(e == 0x7918int);
}

proof fn lemma_prime_93001()
    ensures
        primes::prime(0x16b49int),
{
    power_93001();
    power_93001_over_31();
    power_93001_over_5();
    power_93001_over_3();
    lemma_prime_31();
    assert((0xcb50int * 0x1362dint) % 0x16b49int == 1) by (nonlinear_arith);
    assert(31int * 0xbb8int == 0x16b48int) by (nonlinear_arith);
    lemma_cofactor(0x16b49int, 31int, 0xbb8int, 0xcb51int, 0x1362dint);
    lemma_prime_5();
    assert((0x6e25int * 0x8a5cint) % 0x16b49int == 1) by (nonlinear_arith);
    assert(5int * 0x48a8int == 0x16b48int) by (nonlinear_arith);
    lemma_cofactor(0x16b49int, 5int, 0x48a8int, 0x6e26int, 0x8a5cint);
    assert(0x1fint % 5int != 0) by (nonlinear_arith);
    primes::lemma_pocklington_combine(0x16b49int, 0x1fint, 5int);
    assert(0x1fint * 5int == 0x9bint) by (nonlinear_arith);
    lemma_prime_3();
    assert((0x5901int * 0x14d9dint) % 0x16b49int == 1) by (nonlinear_arith);
    assert(3int * 0x7918int == 0x16b48int) by (nonlinear_arith);
    lemma_cofactor(0x16b49int, 3int, 0x7918int, 0x5902int, 0x14d9dint);
    assert(0x9bint % 3int != 0) by (nonlinear_arith);
    primes::lemma_pocklington_combine(0x16b49int, 0x9bint, 3int);
    assert(0x9bint * 3int == 0x1d1int) by (nonlinear_arith);
    assert((0x1d1int + 1) * (0x1d1int + 1) > 0x16b49int) by (nonlinear_arith);
    primes::lemma_pocklington(0x16b49int, 0x1d1int);
}

proof fn lemma_prime_7()
    ensures
        primes::prime(7int),
{
    assert forall|d: int| 2 <= d < 3 implies #[trigger] (7int % d) != 0 by {
        assert(d == 2);
    }
    primes::lemma_prime_by_trial(7int, 3);
}

/// `2^(n-1)` modulo `n = 12048837557`.
proof fn power_12048837557()
    ensures
        pow(2int, 0x2ce2aabb4int as nat) % 0x2ce2aabb5int == 1int,
{
    assert((2int * 2int) % 0x2ce2aabb5int == 4int) by (nonlinear_arith);
    assert((4int * 2int) % 0x2ce2aabb5int == 8int) by (nonlinear_arith);
    primes::lemma_pow_table(2int, 4int, 8int, 0x2ce2aabb5int);
    let e = 0nat;
    let e = primes::lemma_pow_digit(2int, e, 2, 4int, 0x2ce2aabb5int);
    assert(primes::shift(1int, 4int, 0x2ce2aabb5int) == 4int) by (nonlinear_arith) {
        reveal(primes::shift);
    }
    let e = primes::lemma_pow_digit(2int, e, 3, 8int, 0x2ce2aabb5int);
    assert(primes::shift(4int, 8int, 0x2ce2aabb5int) == 0x800int) by (nonlinear_arith) {
        reveal(primes::shift);
    }
    let e = primes::lemma_pow_digit(2int, e, 0, 1int, 0x2ce2aabb5int);
    assert(primes::shift(0x800int, 1int, 0x2ce2aabb5int) == 0x34a4bbbcint) by (nonlinear_arith) {
        reveal(primes::shift);
    }
    let e = primes::lemma_pow_digit(2int, e, 3, 8int, 0x2ce2aabb5int);
    assert(primes::shift(0x34a4bbbcint, 8int, 0x2ce2aabb5int) == 0x25fd6340dint) by (nonlinear_arith) {
        reveal(primes::shift);
    }
    let e = primes::lemma_pow_digit(2int, e, 2, 4int, 0x2ce2aabb5int);
    assert(primes::shift(0x25fd6340dint, 4int, 0x2ce2aabb5int) == 0x1dbbcd28eint) by (nonlinear_arith) {
        reveal(primes::shift);
    }
    let e = primes::lemma_pow_digit(2int, e, 0, 1int, 0x2ce2aabb5int);
    assert(primes::shift(0x1dbbcd28eint, 1int, 0x2ce2aabb5int) == 0xfb825c3cint) by (nonlinear_arith) {
        reveal(primes::shift);
    }
    let e = primes::lemma_pow_digit(2int, e, 2, 4int, 0x2ce2aabb5int);
    assert(primes::shift(0xfb825c3cint, 4int, 0x2ce2aabb5int) == 0x1f91c1bb2int) by (nonlinear_arith) {
        reveal(primes::shift);
    }
    let e = primes::lemma_pow_digit(2int, e, 2, 4int, 0x2ce2aabb5int);
    assert(primes::shift(0x1f91c1bb2int, 4int, 0x2ce2aabb5int) == 0xe7c8dbb8int) by (nonlinear_arith) {
        reveal(primes::shift);
    }
    let e = primes::lemma_pow_digit(2int, e, 2, 4int, 0x2ce2aabb5int);
    assert(primes::shift(0xe7c8dbb8int, 4int, 0x2ce2aabb5int) == 0x231d616f1int) by (nonlinear_arith) {
        reveal(primes::shift);
    }
    let e = primes::lemma_pow_digit(2int, e, 2, 4int, 0x2ce2aabb5int);
    assert(primes::shift(0x231d616f1int, 4int, 0x2ce2aabb5int) == 0x1ee2b0c15int) by (nonlinear_arith) {
        reveal(primes::shift);
    }
    let e = primes::lemma_pow_digit(2int, e, 2, 4int, 0x2ce2aabb5int);
    assert(primes::shift(0x1ee2b0c15int, 4int, 0x2ce2aabb5int) == 0x10fafd45int) by (nonlinear_arith) {
        reveal(primes::shift);
    }
    let e = primes::lemma_pow_digit(2int, e, 2, 4int, 0x2ce2aabb5int);
    assert(primes::shift(0x10fafd45int, 4int, 0x2ce2aabb5int) == 0xb39a9ad6int) by (nonlinear_arith) {
        reveal(primes::shift);
    }
    let e = primes::lemma_pow_digit(2int, e, 3, 8int, 0x2ce2aabb5int);
    assert(primes::shift(0xb39a9ad6int, 8int, 0x2ce2aabb5int) == 0xef652df6int) by (nonlinear_arith) {
        reveal(primes::shift);
    }
    let e = primes::lemma_pow_digit(2int, e, 2, 4int, 0x2ce2aabb5int);
    assert(primes::shift(0xef652df6int, 4int, 0x2ce2aabb5int) == 0x29af4a951int) by (nonlinear_arith) {
        reveal(primes::shift);
    }
    let e = primes::lemma_pow_digit(2int, e, 3, 8int, 0x2ce2aabb5int);
    assert(primes::shift(0x29af4a951int, 8int, 0x2ce2aabb5int) == 0x2aa4b112bint) by (nonlinear_arith) {
        reveal(primes::shift);
    }
    let e = primes::lemma_pow_digit(2int, e, 1, 2int, 0x2ce2aabb5int);
    assert(primes::shift(0x2aa4b112bint, 2int, 0x2ce2aabb5int) == 0x29f13bc97int) by (nonlinear_arith) {
        reveal(primes::shift);
    }
    let e = primes::lemma_pow_digit(2int, e, 0, 1int, 0x2ce2aabb5int);
    assert(primes::shift(0x29f13bc97int, 1int, 0x2ce2aabb5int) == 1int) by (nonlinear_arith) {
        reveal(primes::shift);
    }
    assert(e == 0x2ce2aabb4int);
}

/// `2^((n-1)/93001)` modulo `n = 12048837557`.
proof fn power_12048837557_over_93001()
    ensures
        pow(2int, 0x1fa14int as nat) % 0x2ce2aabb5int == 0x11af1660aint,
{
    assert((2int * 2int) % 0x2ce2aabb5int == 4int) by (nonlinear_arith);
    assert((4int * 2int) % 0x2ce2aabb5int == 8int) by (nonlinear_arith);
    primes::lemma_pow_table(2int, 4int, 8int, 0x2ce2aabb5int);
    let e = 0nat;
    let e = primes::lemma_pow_digit(2int, e, 1, 2int, 0x2ce2aabb5int);
    assert(primes::shift(1int, 2int, 0x2ce2aabb5int) == 2int) by (nonlinear_arith) {
        reveal(primes::shift);
    }
    let e = primes::lemma_pow_digit(2int, e, 3, 8int, 0x2ce2aabb5int);
    assert(primes::shift(2int, 8int, 0x2ce2aabb5int) == 0x80int) by (nonlinear_arith) {
        reveal(primes::shift);
    }
    let e = primes::lemma_pow_digit(2int, e, 3, 8int, 0x2ce2aabb5int);
    assert(primes::shift(0x80int, 8int, 0x2ce2aabb5int) == 0x80000000int) by (nonlinear_arith) {
        reveal(primes::shift);
    }
    let e = primes::lemma_pow_digit(2int, e, 2, 4int, 0x2ce2aabb5int);
    assert(primes::shift(0x80000000int, 4int, 0x2ce2aabb5int) == 0x1ab75c054int) by (nonlinear_arith) {
        reveal(primes::shift);
    }
    let e = primes::lemma_pow_digit(2int, e, 2, 4int, 0x2ce2aabb5int);
    assert(primes::shift(0x1ab75c054int, 4int, 0x2ce2aabb5int) == 0x1bde2bef4int) by (nonlinear_arith) {
        reveal(primes::shift);
    }
    let e = primes::lemma_pow_digit(2int, e, 0, 1int, 0x2ce2aabb5int);
    assert(primes::shift(0x1bde2bef4int, 1int, 0x2ce2aabb5int) == 0x77ff981eint) by (nonlinear_arith) {
        reveal(primes::shift);
    }
    let e = primes::lemma_pow_digit(2int, e, 1, 2int, 0x2ce2aabb5int);
    assert(primes::shift(0x77ff981eint, 2int, 0x2ce2aabb5int) == 0x7aea910aint) by (nonlinear_arith) {
        reveal(primes::shift);
    }
    let e = primes::lemma_pow_digit(2int, e, 1, 2int, 0x2ce2aabb5int);
    assert(primes::shift(0x7aea910aint, 2int, 0x2ce2aabb5int) == 0x2540de7efint) by (nonlinear_arith) {
        reveal(primes::shift);
    }
    let e = primes::lemma_pow_digit(2int, e, 0, 1int, 0x2ce2aabb5int);
    assert(primes::shift(0x2540de7efint, 1int, 0x2ce2aabb5int) == 0x11af1660aint) by (nonlinear_arith) {
        reveal(primes::shift);
    }
    assert(e == 0x1fa14int);
}

/// `2^((n-1)/7)` modulo `n = 12048837557`.
proof fn power_12048837557_over_7()
    ensures
        pow(2int, 0x669861acint as nat) % 0x2ce2aabb5int == 0x2720f62int,
{
    assert((2int * 2int) % 0x2ce2aabb5int == 4int) by (nonlinear_arith);
    assert((4int * 2int) % 0x2ce2aabb5int == 8int) by (nonlinear_arith);
    primes::lemma_pow_table(2int, 4int, 8int, 0x2ce2aabb5int);
    let e = 0nat;
    let e = primes::lemma_pow_digit(2int, e, 1, 2int, 0x2ce2aabb5int);
    assert(primes::shift(1int, 2int, 0x2ce2aabb5int) == 2int) by (nonlinear_arith) {
        reveal(primes::shift);
    }
    let e = primes::lemma_pow_digit(2int, e, 2, 4int, 0x2ce2aabb5int);
    assert(primes::shift(2int, 4int, 0x2ce2aabb5int) == 0x40int) by (nonlinear_arith) {
        reveal(primes::shift);
    }
    let e = primes::lemma_pow_digit(2int, e, 1, 2int, 0x2ce2aabb5int);
    assert(primes::shift(0x40int, 2int, 0x2ce2aabb5int) == 0x2000000int) by (nonlinear_arith) {
        reveal(primes::shift);
    }
    let e = primes::lemma_pow_digit(2int, e, 2, 4int, 0x2ce2aabb5int);
    assert(primes::shift(0x2000000int, 4int, 0x2ce2aabb5int) == 0x4145f64bint) by (nonlinear_arith) {
        reveal(primes::shift);
    }
    let e = primes::lemma_pow_digit(2int, e, 2, 4int, 0x2ce2aabb5int);
    assert(primes::shift(0x4145f64bint, 4int, 0x2ce2aabb5int) == 0x7712b5e4int) by (nonlinear_arith) {
        reveal(primes::shift);
    }
    let e = primes::lemma_pow_digit(2int, e, 1, 2int, 0x2ce2aabb5int);
    assert(primes::shift(0x7712b5e4int, 2int, 0x2ce2aabb5int) == 0x1075b2c21int) by (nonlinear_arith) {
        reveal(primes::shift);
    }
    let e = primes::lemma_pow_digit(2int, e, 2, 4int, 0x2ce2aabb5int);
    assert(primes::shift(0x1075b2c21int, 4int, 0x2ce2aabb5int) == 0x2007b6f6eint) by (nonlinear_arith) {
        reveal(primes::shift);
    }
    let e = primes::lemma_pow_digit(2int, e, 0, 1int, 0x2ce2aabb5int);
    assert(primes::shift(0x2007b6f6eint, 1int, 0x2ce2aabb5int) == 0x1d9298803int) by (nonlinear_arith) {
        reveal(primes::shift);
    }
    let e = primes::lemma_pow_digit(2int, e, 1, 2int, 0x2ce2aabb5int);
    assert(primes::shift(0x1d9298803int, 2int, 0x2ce2aabb5int) == 0x28c5d2024int) by (nonlinear_arith) {
        reveal(primes::shift);
    }
    let e = primes::lemma_pow_digit(2int, e, 2, 4int, 0x2ce2aabb5int);
    assert(primes::shift(0x28c5d2024int, 4int, 0x2ce2aabb5int) == 0x295f2d598int) by (nonlinear_arith) {
        reveal(primes::shift);
    }
    let e = primes::lemma_pow_digit(2int, e, 0, 1int, 0x2ce2aabb5int);
    assert(primes::shift(0x295f2d598int, 1int, 0x2ce2aabb5int) == 0x14e95e1a1int) by (nonlinear_arith) {
        reveal(primes::shift);
    }
    let e = primes::lemma_pow_digit(2int, e, 1, 2int, 0x2ce2aabb5int);
    assert(primes::shift(0x14e95e1a1int, 2int, 0x2ce2aabb5int) == 0x1e34b7badint) by (nonlinear_arith) {
        reveal(primes::shift);
    }
    let e = primes::lemma_pow_digit(2int, e, 2, 4int, 0x2ce2aabb5int);
    assert(primes::shift(0x1e34b7badint, 4int, 0x2ce2aabb5int) == 0x23f62f748int) by (nonlinear_arith) {
        reveal(primes::shift);
    }
    let e = primes::lemma_pow_digit(2int, e, 2, 4int, 0x2ce2aabb5int);
    assert(primes::shift(0x23f62f748int, 4int, 0x2ce2aabb5int) == 0x2bbbe061fint) by (nonlinear_arith) {
        reveal(primes::shift);
    }
    let e = primes::lemma_pow_digit(2int, e, 3, 8int, 0x2ce2aabb5int);
    assert(primes::shift(0x2bbbe061fint, 8int, 0x2ce2aabb5int) == 0x212dbd6fint) by (nonlinear_arith) {
        reveal(primes::shift);
    }
    let e = primes::lemma_pow_digit(2int, e, 0, 1int, 0x2ce2aabb5int);
    assert(primes::shift(0x212dbd6fint, 1int, 0x2ce2aabb5int) == 0x2720f62int) by (nonlinear_arith) {
        reveal(primes::shift);
    }
    assert(e == 0x669861acint);
}

proof fn lemma_prime_12048837557()
    ensures
        primes::prime(0x2ce2aabb5int),
{
    power_12048837557();
    power_12048837557_over_93001();
    power_12048837557_over_7();
    lemma_prime_93001();
    assert((0x11af16609int * 0x2662fd159int) % 0x2ce2aabb5int == 1) by (nonlinear_arith);
    assert(0x16b49int * 0x1fa14int == 0x2ce2aabb4int) by (nonlinear_arith);
    lemma_cofactor(0x2ce2aabb5int, 0x16b49int, 0x1fa14int, 0x11af1660aint, 0x2662fd159int);
    lemma_prime_7();
    assert((0x2720f61int * 0x138260083int) % 0x2ce2aabb5int == 1) by (nonlinear_arith);
    assert(7int * 0x669861acint == 0x2ce2aabb4int) by (nonlinear_arith);
    lemma_cofactor(0x2ce2aabb5int, 7int, 0x669861acint, 0x2720f62int, 0x138260083int);
    assert(0x16b49int % 7int != 0) by (nonlinear_arith);
    primes::lemma_pocklington_combine(0x2ce2aabb5int, 0x16b49int, 7int);
    assert(0x16b49int * 7int == 0x9eeffint) by (nonlinear_arith);
    assert((0x9eeffint + 1) * (0x9eeffint + 1) > 0x2ce2aabb5int) by (nonlinear_arith);
    primes::lemma_pocklington(0x2ce2aabb5int, 0x9eeffint);
}

/// `2^(n-1)` modulo `n = 5156902474397`.
proof fn power_5156902474397()
    ensures
        pow(2int, 0x4b0af57129cint as nat) % 0x4b0af57129dint == 1int,
{
    assert((2int * 2int) % 0x4b0af57129dint == 4int) by (nonlinear_arith);
    assert((4int * 2int) % 0x4b0af57129dint == 8int) by (nonlinear_arith);
    primes::lemma_pow_table(2int, 4int, 8int, 0x4b0af57129dint);
    let e = 0nat;
    let e = primes::lemma_pow_digit(2int, e, 1, 2int, 0x4b0af57129dint);
    assert(primes::shift(1int, 2int, 0x4b0af57129dint) == 2int) by (nonlinear_arith) {
        reveal(primes::shift);
    }
    let e = primes::lemma_pow_digit(2int, e, 0, 1int, 0x4b0af57129dint);
    assert(primes::shift(2int, 1int, 0x4b0af57129dint) == 0x10int) by (nonlinear_arith) {
        reveal(primes::shift);
    }
    let e = primes::lemma_pow_digit(2int, e, 2, 4int, 0x4b0af57129dint);
    assert(primes::shift(0x10int, 4int, 0x4b0af57129dint) == 0x40000int) by (nonlinear_arith) {
        reveal(primes::shift);
    }
    let e = primes::lemma_pow_digit(2int, e, 3, 8int, 0x4b0af57129dint);
    assert(primes::shift(0x40000int, 8int, 0x4b0af57129dint) == 0x34911bef67aint) by (nonlinear_arith) {
        reveal(primes::shift);
    }
    let e = primes::lemma_pow_digit(2int, e, 0, 1int, 0x4b0af57129dint);
    assert(primes::shift(0x34911bef67aint, 1int, 0x4b0af57129dint) == 0x287f14e60baint) by (nonlinear_arith) {
        reveal(primes::shift);
    }
    let e = primes::lemma_pow_digit(2int, e, 0, 1int, 0x4b0af57129dint);
    assert(primes::shift(0x287f14e60baint, 1int, 0x4b0af57129dint) == 0x157d539117aint) by (nonlinear_arith) {
        reveal(primes::shift);
    }
    let e = primes::lemma_pow_digit(2int, e, 2, 4int, 0x4b0af57129dint);
    assert(primes::shift(0x157d539117aint, 4int, 0x4b0af57129dint) == 0x3e9bbc67931int) by (nonlinear_arith) {
        reveal(primes::shift);
    }
    let e = primes::lemma_pow_digit(2int, e, 2, 4int, 0x4b0af57129dint);
    assert(primes::shift(0x3e9bbc67931int, 4int, 0x4b0af57129dint) == 0x2c4cf640375int) by (nonlinear_arith) {
        reveal(primes::shift);
    }
    let e = primes::lemma_pow_digit(2int, e, 3, 8int, 0x4b0af57129dint);
    assert(primes::shift(0x2c4cf640375int, 8int, 0x4b0af57129dint) == 0x2b1565683e1int) by (nonlinear_arith) {
        reveal(primes::shift);
    }
    let e = primes::lemma_pow_digit(2int, e, 3, 8int, 0x4b0af57129dint);
    assert(primes::shift(0x2b1565683e1int, 8int, 0x4b0af57129dint) == 0x10ef7311d7dint) by (nonlinear_arith) {
        reveal(primes::shift);
    }
    let e = primes::lemma_pow_digit(2int, e, 1, 2int, 0x4b0af57129dint);
    assert(primes::shift(0x10ef7311d7dint, 2int, 0x4b0af57129dint) == 0x48e3df18e6aint) by (nonlinear_arith) {
        reveal(primes::shift);
    }
    let e = primes::lemma_pow_digit(2int, e, 1, 2int, 0x4b0af57129dint);
    assert(primes::shift(0x48e3df18e6aint, 2int, 0x4b0af57129dint) == 0x251e1331a0bint) by (nonlinear_arith) {
        reveal(primes::shift);
    }
    let e = primes::lemma_pow_digit(2int, e, 1, 2int, 0x4b0af57129dint);
    assert(primes::shift(0x251e1331a0bint, 2int, 0x4b0af57129dint) == 0x3221a805d6dint) by (nonlinear_arith) {
        reveal(primes::shift);
    }
    let e = primes::lemma_pow_digit(2int, e, 3, 8int, 0x4b0af57129dint);
    assert(primes::shift(0x3221a805d6dint, 8int, 0x4b0af57129dint) == 0x5a6c85b18int) by (nonlinear_arith) {
        reveal(primes::shift);
    }
    let e = primes::lemma_pow_digit(2int, e, 0, 1int, 0x4b0af57129dint);
    assert(primes::shift(0x5a6c85b18int, 1int, 0x4b0af57129dint) == 0x3120c23d7b5int) by (nonlinear_arith) {
        reveal(primes::shift);
    }
    let e = primes::lemma_pow_digit(2int, e, 1, 2int, 0x4b0af57129dint);
    assert(primes::shift(0x3120c23d7b5int, 2int, 0x4b0af57129dint) == 0x317aece0246int) by (nonlinear_arith) {
        reveal(primes::shift);
    }
    let e = primes::lemma_pow_digit(2int, e, 0, 1int, 0x4b0af57129dint);
    assert(primes::shift(0x317aece0246int, 1int, 0x4b0af57129dint) == 0x71dae88b2bint) by (nonlinear_arith) {
        reveal(primes::shift);
    }
    let e = primes::lemma_pow_digit(2int, e, 2, 4int, 0x4b0af57129dint);
    assert(primes::shift(0x71dae88b2bint, 4int, 0x4b0af57129dint) == 0x8b9cbea7c7int) by (nonlinear_arith) {
        reveal(primes::shift);
    }
    let e = primes::lemma_pow_digit(2int, e, 2, 4int, 0x4b0af57129dint);
    assert(primes::shift(0x8b9cbea7c7int, 4int, 0x4b0af57129dint) == 0x1f602fcc6b3int) by (nonlinear_arith) {
        reveal(primes::shift);
    }
    let e = primes::lemma_pow_digit(2int, e, 1, 2int, 0x4b0af57129dint);
    assert(primes::shift(0x1f602fcc6b3int, 2int, 0x4b0af57129dint) == 0xf2530e25f1int) by (nonlinear_arith) {
        reveal(primes::shift);
    }
    let e = primes::lemma_pow_digit(2int, e, 3, 8int, 0x4b0af57129dint);
    assert(primes::shift(0xf2530e25f1int, 8int, 0x4b0af57129dint) == 0x395124c712eint) by (nonlinear_arith) {
        reveal(primes::shift);
    }
    let e = primes::lemma_pow_digit(2int, e, 0, 1int, 0x4b0af57129dint);
    assert(primes::shift(0x395124c712eint, 1int, 0x4b0af57129dint) == 1int) by (nonlinear_arith) {
        reveal(primes::shift);
    }
    assert(e == 0x4b0af57129cint);
}

/// `2^((n-1)/12048837557)` modulo `n = 5156902474397`.
proof fn power_5156902474397_over_12048837557()
    ensures
        pow(2int, 0x1acint as nat) % 0x4b0af57129dint == 0x4512e21e802int,
{
    assert((2int * 2int) % 0x4b0af57129dint == 4int) by (nonlinear_arith);
    assert((4int * 2int) % 0x4b0af57129dint == 8int) by (nonlinear_arith);
    primes::lemma_pow_table(2int, 4int, 8int, 0x4b0af57129dint);
    let e = 0nat;
    let e = primes::lemma_pow_digit(2int, e, 1, 2int, 0x4b0af57129dint);
    assert(primes::shift(1int, 2int, 0x4b0af57129dint) == 2int) by (nonlinear_arith) {
        reveal(primes::shift);
    }
    let e = primes::lemma_pow_digit(2int, e, 2, 4int, 0x4b0af57129dint);
    assert(primes::shift(2int, 4int, 0x4b0af57129dint) == 0x40int) by (nonlinear_arith) {
        reveal(primes::shift);
    }
    let e = primes::lemma_pow_digit(2int, e, 2, 4int, 0x4b0af57129dint);
    assert(primes::shift(0x40int, 4int, 0x4b0af57129dint) == 0x4000000int) by (nonlinear_arith) {
        reveal(primes::shift);
    }
    let e = primes::lemma_pow_digit(2int, e, 3, 8int, 0x4b0af57129dint);
    assert(primes::shift(0x4000000int, 8int, 0x4b0af57129dint) == 0x380002818fbint) by (nonlinear_arith) {
        reveal(primes::shift);
    }
    let e = primes::lemma_pow_digit(2int, e, 0, 1int, 0x4b0af57129dint);
    assert(primes::shift(0x380002818fbint, 1int, 0x4b0af57129dint) == 0x4512e21e802int) by (nonlinear_arith) {
        reveal(primes::shift);
    }
    assert(e == 0x1acint);
}

proof fn lemma_prime_5156902474397()
    ensures
        primes::prime(0x4b0af57129dint),
{
    power_5156902474397();
    power_5156902474397_over_12048837557();
    lemma_prime_12048837557();
    assert((0x4512e21e801int * 0x4a0f11df894int) % 0x4b0af57129dint == 1) by (nonlinear_arith);
    assert(0x2ce2aabb5int * 0x1acint == 0x4b0af57129cint) by (nonlinear_arith);
    lemma_cofactor(0x4b0af57129dint, 0x2ce2aabb5int, 0x1acint, 0x4512e21e802int, 0x4a0f11df894int);
    assert((0x2ce2aabb5int + 1) * (0x2ce2aabb5int + 1) > 0x4b0af57129dint) by (nonlinear_arith);
    primes::lemma_pocklington(0x4b0af57129dint, 0x2ce2aabb5int);
}

/// `2^(n-1)` modulo `n = 1670836401704629`.
proof fn power_1670836401704629()
    ensures
        pow(2int, 0x5ef9dea338eb4int as nat) % 0x5ef9dea338eb5int == 1int,
{
    assert((2int * 2int) % 0x5ef9dea338eb5int == 4int) by (nonlinear_arith);
    assert((4int * 2int) % 0x5ef9dea338eb5int == 8int) by (nonlinear_arith);
    primes::lemma_pow_table(2int, 4int, 8int, 0x5ef9dea338eb5int);
    let e = 0nat;
    let e = primes::lemma_pow_digit(2int, e, 1, 2int, 0x5ef9dea338eb5int);
    assert(primes::shift(1int, 2int, 0x5ef9dea338eb5int) == 2int) by (nonlinear_arith) {
        reveal(primes::shift);
    }
    let e = primes::lemma_pow_digit(2int, e, 1, 2int, 0x5ef9dea338eb5int);
    assert(primes::shift(2int, 2int, 0x5ef9dea338eb5int) == 0x20int) by (nonlinear_arith) {
        reveal(primes::shift);
    }
    let e = primes::lemma_pow_digit(2int, e, 3, 8int, 0x5ef9dea338eb5int);
    assert(primes::shift(0x20int, 8int, 0x5ef9dea338eb5int) == 0x800000int) by (nonlinear_arith) {
        reveal(primes::shift);
    }
    let e = primes::lemma_pow_digit(2int, e, 2, 4int, 0x5ef9dea338eb5int);
    assert(primes::shift(0x800000int, 4int, 0x5ef9dea338eb5int) == 0x13045946a0a52int) by (nonlinear_arith) {
        reveal(primes::shift);
    }
    let e = primes::lemma_pow_digit(2int, e, 3, 8int, 0x5ef9dea338eb5int);
    assert(primes::shift(0x13045946a0a52int, 8int, 0x5ef9dea338eb5int) == 0x5c138929e5366int) by (nonlinear_arith) {
        reveal(primes::shift);
    }
    let e = primes::lemma_pow_digit(2int, e, 3, 8int, 0x5ef9dea338eb5int);
    assert(primes::shift(0x5c138929e5366int, 8int, 0x5ef9dea338eb5int) == 0x279ff64fadabdint) by (nonlinear_arith) {
        reveal(primes::shift);
    }
    let e = primes::lemma_pow_digit(2int, e, 2, 4int, 0x5ef9dea338eb5int);
    assert(primes::shift(0x279ff64fadabdint, 4int, 0x5ef9dea338eb5int) == 0x1838732c1baf7int) by (nonlinear_arith) {
        reveal(primes::shift);
    }
    let e = primes::lemma_pow_digit(2int, e, 1, 2int, 0x5ef9dea338eb5int);
    assert(primes::shift(0x1838732c1baf7int, 2int, 0x5ef9dea338eb5int) == 0x3e587bb3038e6int) by (nonlinear_arith) {
        reveal(primes::shift);
    }
    let e = primes::lemma_pow_digit(2int, e, 3, 8int, 0x5ef9dea338eb5int);
    assert(primes::shift(0x3e587bb3038e6int, 8int, 0x5ef9dea338eb5int) == 0x1f332ac402ee8int) by (nonlinear_arith) {
        reveal(primes::shift);
    }
    let e = primes::lemma_pow_digit(2int, e, 1, 2int, 0x5ef9dea338eb5int);
    assert(primes::shift(0x1f332ac402ee8int, 2int, 0x5ef9dea338eb5int) == 0x165d770a3bd87int) by (nonlinear_arith) {
        reveal(primes::shift);
    }
    let e = primes::lemma_pow_digit(2int, e, 3, 8int, 0x5ef9dea338eb5int);
    assert(primes::shift(0x165d770a3bd87int, 8int, 0x5ef9dea338eb5int) == 0x4ea395995872bint) by (nonlinear_arith) {
        reveal(primes::shift);
    }
    let e = primes::lemma_pow_digit(2int, e, 2, 4int, 0x5ef9dea338eb5int);
    assert(primes::shift(0x4ea395995872bint, 4int, 0x5ef9dea338eb5int) == 0x500f1eee7db62int) by (nonlinear_arith) {
        reveal(primes::shift);
    }
    let e = primes::lemma_pow_digit(2int, e, 2, 4int, 0x5ef9dea338eb5int);
    assert(primes::shift(0x500f1eee7db62int, 4int, 0x5ef9dea338eb5int) == 0x1bb68edeae8f7int) by (nonlinear_arith) {
        reveal(primes::shift);
    }
    let e = primes::lemma_pow_digit(2int, e, 2, 4int, 0x5ef9dea338eb5int);
    assert(primes::shift(0x1bb68edeae8f7int, 4int, 0x5ef9dea338eb5int) == 0x13ff5e73ea227int) by (nonlinear_arith) {
        reveal(primes::shift);
    }
    let e = primes::lemma_pow_digit(2int, e, 0, 1int, 0x5ef9dea338eb5int);
    assert(primes::shift(0x13ff5e73ea227int, 1int, 0x5ef9dea338eb5int) == 0x3c74f2041cfe7int) by (nonlinear_arith) {
        reveal(primes::shift);
    }
    let e = primes::lemma_pow_digit(2int, e, 3, 8int, 0x5ef9dea338eb5int);
    assert(primes::shift(0x3c74f2041cfe7int, 8int, 0x5ef9dea338eb5int) == 0x34fe7defede52int) by (nonlinear_arith) {
        reveal(primes::shift);
    }
    let e = primes::lemma_pow_digit(2int, e, 0, 1int, 0x5ef9dea338eb5int);
    assert(primes::shift(0x34fe7defede52int, 1int, 0x5ef9dea338eb5int) == 0x5cdc8695b921cint) by (nonlinear_arith) {
        reveal(primes::shift);
    }
    let e = primes::lemma_pow_digit(2int, e, 3, 8int, 0x5ef9dea338eb5int);
    assert(primes::shift(0x5cdc8695b921cint, 8int, 0x5ef9dea338eb5int) == 0x508cbe5acf699int) by (nonlinear_arith) {
        reveal(primes::shift);
    }
    let e = primes::lemma_pow_digit(2int, e, 2, 4int, 0x5ef9dea338eb5int);
    assert(primes::shift(0x508cbe5acf699int, 4int, 0x5ef9dea338eb5int) == 0x1193e633355b6int) by (nonlinear_arith) {
        reveal(primes::shift);
    }
    let e = primes::lemma_pow_digit(2int, e, 0, 1int, 0x5ef9dea338eb5int);
    assert(primes::shift(0x1193e633355b6int, 1int, 0x5ef9dea338eb5int) == 0x3cffea93d69c8int) by (nonlinear_arith) {
        reveal(primes::shift);
    }
    let e = primes::lemma_pow_digit(2int, e, 3, 8int, 0x5ef9dea338eb5int);
    assert(primes::shift(0x3cffea93d69c8int, 8int, 0x5ef9dea338eb5int) == 0x160cba5c223ceint) by (nonlinear_arith) {
        reveal(primes::shift);
    }
    let e = primes::lemma_pow_digit(2int, e, 2, 4int, 0x5ef9dea338eb5int);
    assert(primes::shift(0x160cba5c223ceint, 4int, 0x5ef9dea338eb5int) == 0x4ab2007d86b3aint) by (nonlinear_arith) {
        reveal(primes::shift);
    }
    let e = primes::lemma_pow_digit(2int, e, 2, 4int, 0x5ef9dea338eb5int);
    assert(primes::shift(0x4ab2007d86b3aint, 4int, 0x5ef9dea338eb5int) == 0x1ba2a75931c43int) by (nonlinear_arith) {
        reveal(primes::shift);
    }
    let e = primes::lemma_pow_digit(2int, e, 3, 8int, 0x5ef9dea338eb5int);
    assert(primes::shift(0x1ba2a75931c43int, 8int, 0x5ef9dea338eb5int) == 0x31fb2a24fd6eeint) by (nonlinear_arith) {
        reveal(primes::shift);
    }
    let e = primes::lemma_pow_digit(2int, e, 1, 2int, 0x5ef9dea338eb5int);
    assert(primes::shift(0x31fb2a24fd6eeint, 2int, 0x5ef9dea338eb5int) == 0x2522d34275799int) by (nonlinear_arith) {
        reveal(primes::shift);
    }
    let e = primes::lemma_pow_digit(2int, e, 0, 1int, 0x5ef9dea338eb5int);
    assert(primes::shift(0x2522d34275799int, 1int, 0x5ef9dea338eb5int) == 1int) by (nonlinear_arith) {
        reveal(primes::shift);
    }
    assert(e == 0x5ef9dea338eb4int);
}

/// `2^((n-1)/5156902474397)` modulo `n = 1670836401704629`.
proof fn power_1670836401704629_over_5156902474397()
    ensures
        pow(2int, 0x144int as nat) % 0x5ef9dea338eb5int == 0xa0be5150fc4int,
{
    assert((2int * 2int) % 0x5ef9dea338eb5int == 4int) by (nonlinear_arith);
    assert((4int * 2int) % 0x5ef9dea338eb5int == 8int) by (nonlinear_arith);
    primes::lemma_pow_table(2int, 4int, 8int, 0x5ef9dea338eb5int);
    let e = 0nat;
    let e = primes::lemma_pow_digit(2int, e, 1, 2int, 0x5ef9dea338eb5int);
    assert(primes::shift(1int, 2int, 0x5ef9dea338eb5int) == 2int) by (nonlinear_arith) {
        reveal(primes::shift);
    }
    let e = primes::lemma_pow_digit(2int, e, 1, 2int, 0x5ef9dea338eb5int);
    assert(primes::shift(2int, 2int, 0x5ef9dea338eb5int) == 0x20int) by (nonlinear_arith) {
        reveal(primes::shift);
    }
    let e = primes::lemma_pow_digit(2int, e, 0, 1int, 0x5ef9dea338eb5int);
    assert(primes::shift(0x20int, 1int, 0x5ef9dea338eb5int) == 0x100000int) by (nonlinear_arith) {
        reveal(primes::shift);
    }
    let e = primes::lemma_pow_digit(2int, e, 1, 2int, 0x5ef9dea338eb5int);
    assert(primes::shift(0x100000int, 2int, 0x5ef9dea338eb5int) == 0x582f3708f61e0int) by (nonlinear_arith) {
        reveal(primes::shift);
    }
    let e = primes::lemma_pow_digit(2int, e, 0, 1int, 0x5ef9dea338eb5int);
    assert(primes::shift(0x582f3708f61e0int, 1int, 0x5ef9dea338eb5int) == 0xa0be5150fc4int) by (nonlinear_arith) {
        reveal(primes::shift);
    }
    assert(e == 0x144int);
}

proof fn lemma_prime_1670836401704629()
    ensures
        primes::prime(0x5ef9dea338eb5int),
{
    power_1670836401704629();
    power_1670836401704629_over_5156902474397();
    lemma_prime_5156902474397();
    assert((0xa0be5150fc3int * 0x29d2d0e172d3fint) % 0x5ef9dea338eb5int == 1) by (nonlinear_arith);
    assert(0x4b0af57129dint * 0x144int == 0x5ef9dea338eb4int) by (nonlinear_arith);
    lemma_cofactor(0x5ef9dea338eb5int, 0x4b0af57129dint, 0x144int, 0xa0be5150fc4int, 0x29d2d0e172d3fint);
    assert((0x4b0af57129dint + 1) * (0x4b0af57129dint + 1) > 0x5ef9dea338eb5int) by (nonlinear_arith);
    primes::lemma_pocklington(0x5ef9dea338eb5int, 0x4b0af57129dint);
}

/// The part of `2^(n-1)`, `n = r`, that the certified factors leave.
proof fn root_r()
    ensures
        pow(2int, 0x2ebdc5c80a962a8ce35030000000int as nat) % r() == 0x8fdf6a009ddb0f44829608cbae4d277cf3727232b632f357b4ae966ddb136a8int,
{
    assert((2int * 2int) % r() == 4int) by (nonlinear_arith);
    assert((4int * 2int) % r() == 8int) by (nonlinear_arith);
    primes::lemma_pow_table(2int, 4int, 8int, r());
    let e = 0nat;
    let e = primes::lemma_pow_digit(2int, e, 2, 4int, r());
    assert(primes::shift(1int, 4int, r()) == 4int) by (nonlinear_arith) {
        reveal(primes::shift);
    }
    let e = primes::lemma_pow_digit(2int, e, 3, 8int, r());
    assert(primes::shift(4int, 8int, r()) == 0x800int) by (nonlinear_arith) {
        reveal(primes::shift);
    }
    let e = primes::lemma_pow_digit(2int, e, 2, 4int, r());
    assert(primes::shift(0x800int, 4int, r()) == 0x400000000000int) by (nonlinear_arith) {
        reveal(primes::shift);
    }
    let e = primes::lemma_pow_digit(2int, e, 2, 4int, r());
    assert(primes::shift(0x400000000000int, 4int, r()) == 0x40000000000000000000000000000000000000000000000int) by (nonlinear_arith) {
        reveal(primes::shift);
    }
    let e = primes::lemma_pow_digit(2int, e, 3, 8int, r());
    assert(primes::shift(0x40000000000000000000000000000000000000000000000int, 8int, r()) == 0x182c212bcee269c709af5d70ed22ccd3706b82cb822c8f986b24add5b1f2da6int) by (nonlinear_arith) {
        reveal(primes::shift);
    }
    let e = primes::lemma_pow_digit(2int, e, 3, 8int, r());
    assert(primes::shift(0x182c212bcee269c709af5d70ed22ccd3706b82cb822c8f986b24add5b1f2da6int, 8int, r()) == 0xd8c935239034585e38e819ec7fd85e65f6c052d36d63ecd778ee987de772ab6int) by (nonlinear_arith) {
        reveal(primes::shift);
    }
    let e = primes::lemma_pow_digit(2int, e, 1, 2int, r());
    assert(primes::shift(0xd8c935239034585e38e819ec7fd85e65f6c052d36d63ecd778ee987de772ab6int, 2int, r()) == 0x2c187ec2b7a53c53a5bbf2bacefb410bd3fa1361862f397c9dca4c1dcd7bd7cfint) by (nonlinear_arith) {
        reveal(primes::shift);
    }
    let e = primes::lemma_pow_digit(2int, e, 3, 8int, r());
    assert(primes::shift(0x2c187ec2b7a53c53a5bbf2bacefb410bd3fa1361862f397c9dca4c1dcd7bd7cfint, 8int, r()) == 0x10e5d1cd9150212062e49f1f08f81e608ac3154fb21529fbc972e9820ff44db8int) by (nonlinear_arith) {
        reveal(primes::shift);
    }
    let e = primes::lemma_pow_digit(2int, e, 0, 1int, r());
    assert(primes::shift(0x10e5d1cd9150212062e49f1f08f81e608ac3154fb21529fbc972e9820ff44db8int, 1int, r()) == 0x10eef5832e606375ec34b7d640d4ccfc17ef7da1d2e32a95ed83d1a0d128b562int) by (nonlinear_arith) {
        reveal(primes::shift);
    }
    let e = primes::lemma_pow_digit(2int, e, 1, 2int, r());
    assert(primes::shift(0x10eef5832e606375ec34b7d640d4ccfc17ef7da1d2e32a95ed83d1a0d128b562int, 2int, r()) == 0x11936fd9993d5c87bed972081ca43e2afbc900c12d2b1f544035974a3cf6f657int) by (nonlinear_arith) {
        reveal(primes::shift);
    }
    let e = primes::lemma_pow_digit(2int, e, 1, 2int, r());
    assert(primes::shift(0x11936fd9993d5c87bed972081ca43e2afbc900c12d2b1f544035974a3cf6f657int, 2int, r()) == 0x2b18dbf05acef80ce17791d1918dd4ea4bd361506a5943428d3ba5dc978aee4dint) by (nonlinear_arith) {
        reveal(primes::shift);
    }
    let e = primes::lemma_pow_digit(2int, e, 3, 8int, r());
    assert(primes::shift(0x2b18dbf05acef80ce17791d1918dd4ea4bd361506a5943428d3ba5dc978aee4dint, 8int, r()) == 0xc4451c06cd44e26726eb8c15505a6fcc3dcb6a19eb23e2af929c40d26dfa3daint) by (nonlinear_arith) {
        reveal(primes::shift);
    }
    let e = primes::lemma_pow_digit(2int, e, 0, 1int, r());
    assert(primes::shift(0xc4451c06cd44e26726eb8c15505a6fcc3dcb6a19eb23e2af929c40d26dfa3daint, 1int, r()) == 0x2d721855ab104da9551e198caa52f9e2b544ec32f2b75a0cd436d0376f2e4f8cint) by (nonlinear_arith) {
        reveal(primes::shift);
    }
    let e = primes::lemma_pow_digit(2int, e, 2, 4int, r());
    assert(primes::shift(0x2d721855ab104da9551e198caa52f9e2b544ec32f2b75a0cd436d0376f2e4f8cint, 4int, r()) == 0x1a050332cec9e6f000f63872493587de067927681d97e976f2b21d1a2186407bint) by (nonlinear_arith) {
        reveal(primes::shift);
    }
    let e = primes::lemma_pow_digit(2int, e, 0, 1int, r());
    assert(primes::shift(0x1a050332cec9e6f000f63872493587de067927681d97e976f2b21d1a2186407bint, 1int, r()) == 0x23a10ff3b69ac44f0ad7786530b9b62ff61a21338ec603506f82440edb9ed763int) by (nonlinear_arith) {
        reveal(primes::shift);
    }
    let e = primes::lemma_pow_digit(2int, e, 0, 1int, r());
    assert(primes::shift(0x23a10ff3b69ac44f0ad7786530b9b62ff61a21338ec603506f82440edb9ed763int, 1int, r()) == 0x864ee12296b2ded1735064c1f23bf881aef7fb6000c0b3a29a6f6ff782036eint) by (nonlinear_arith) {
        reveal(primes::shift);
    }
    let e = primes::lemma_pow_digit(2int, e, 0, 1int, r());
    assert(primes::shift(0x864ee12296b2ded1735064c1f23bf881aef7fb6000c0b3a29a6f6ff782036eint, 1int, r()) == 0x2048222b112ea805293eadc4eef36245c96b0b5ed75572e3b02aa87ad9b92e5aint) by (nonlinear_arith) {
        reveal(primes::shift);
    }
    let e = primes::lemma_pow_digit(2int, e, 2, 4int, r());
    assert(primes::shift(0x2048222b112ea805293eadc4eef36245c96b0b5ed75572e3b02aa87ad9b92e5aint, 4int, r()) == 0x29a194c34f405903facf5b2ba4f8bafcabb14cfc132719ba901bc6229b800bccint) by (nonlinear_arith) {
        reveal(primes::shift);
    }
    let e = primes::lemma_pow_digit(2int, e, 2, 4int, r());
    assert(primes::shift(0x29a194c34f405903facf5b2ba4f8bafcabb14cfc132719ba901bc6229b800bccint, 4int, r()) == 0x15c90fa30f3dc764e6f567e06b869dfbe23a6550ac78851492a7a832580f7ecint) by (nonlinear_arith) {
        reveal(primes::shift);
    }
    let e = primes::lemma_pow_digit(2int, e, 2, 4int, r());
    assert(primes::shift(0x15c90fa30f3dc764e6f567e06b869dfbe23a6550ac78851492a7a832580f7ecint, 4int, r()) == 0x65f1145e6ac1560967f5d50904521002a1280cffac7de4c8b4136fafde25c7dint) by (nonlinear_arith) {
        reveal(primes::shift);
    }
    let e = primes::lemma_pow_digit(2int, e, 1, 2int, r());
    assert(primes::shift(0x65f1145e6ac1560967f5d50904521002a1280cffac7de4c8b4136fafde25c7dint, 2int, r()) == 0x17d312e748d81a73d78d8c2afc863b6649aa530f117145134c4ab02710ba31f9int) by (nonlinear_arith) {
        reveal(primes::shift);
    }
    let e = primes::lemma_pow_digit(2int, e, 1, 2int, r());
    assert(primes::shift(0x17d312e748d81a73d78d8c2afc863b6649aa530f117145134c4ab02710ba31f9int, 2int, r()) == 0x1dbb89d5fac6513abeb0de0319ee555c94b7bf687554a8514a6c96bda4284a77int) by (nonlinear_arith) {
        reveal(primes::shift);
    }
    let e = primes::lemma_pow_digit(2int, e, 2, 4int, r());
    assert(primes::shift(0x1dbb89d5fac6513abeb0de0319ee555c94b7bf687554a8514a6c96bda4284a77int, 4int, r()) == 0x8785cf419bb199604f07dbf6fd4c48d15b56356e67ef9dd0707360bbe93e592int) by (nonlinear_arith) {
        reveal(primes::shift);
    }
    let e = primes::lemma_pow_digit(2int, e, 0, 1int, r());
    assert(primes::shift(0x8785cf419bb199604f07dbf6fd4c48d15b56356e67ef9dd0707360bbe93e592int, 1int, r()) == 0xf1b63eeb3e1eced25dfd43b7a09068b8ff5e135c716e2f7be0710b4b62c45e8int) by (nonlinear_arith) {
        reveal(primes::shift);
    }
    let e = primes::lemma_pow_digit(2int, e, 2, 4int, r());
    assert(primes::shift(0xf1b63eeb3e1eced25dfd43b7a09068b8ff5e135c716e2f7be0710b4b62c45e8int, 4int, r()) == 0xdde7718a51d50931c131c6c22bd288f4d243bd219e9ed1d1bd0d396bc5be480int) by (nonlinear_arith) {
        reveal(primes::shift);
    }
    let e = primes::lemma_pow_digit(2int, e, 2, 4int, r());
    assert(primes::shift(0xdde7718a51d50931c131c6c22bd288f4d243bd219e9ed1d1bd0d396bc5be480int, 4int, r()) == 0x2888de997d3da67570d88be542728cbf0eb5107285de69692ac4f53673df5f49int) by (nonlinear_arith) {
        reveal(primes::shift);
    }
    let e = primes::lemma_pow_digit(2int, e, 2, 4int, r());
    assert(primes::shift(0x2888de997d3da67570d88be542728cbf0eb5107285de69692ac4f53673df5f49int, 4int, r()) == 0x6e6f5752c1c1ea715dd547bd4ab2314169c14b68ba43f812216a8ed09bdb5c9int) by (nonlinear_arith) {
        reveal(primes::shift);
    }
    let e = primes::lemma_pow_digit(2int, e, 2, 4int, r());
    assert(primes::shift(0x6e6f5752c1c1ea715dd547bd4ab2314169c14b68ba43f812216a8ed09bdb5c9int, 4int, r()) == 0x24e0d9c1dfe8bce613efcf4f96783bb834cb5a66fae7042d8c95338dd491d418int) by (nonlinear_arith) {
        reveal(primes::shift);
    }
    let e = primes::lemma_pow_digit(2int, e, 0, 1int, r());
    assert(primes::shift(0x24e0d9c1dfe8bce613efcf4f96783bb834cb5a66fae7042d8c95338dd491d418int, 1int, r()) == 0x168b9e16b900f5ac94620ee409057658961f6562b7af2405ddd9abe06978776eint) by (nonlinear_arith) {
        reveal(primes::shift);
    }
    let e = primes::lemma_pow_digit(2int, e, 3, 8int, r());
    assert(primes::shift(0x168b9e16b900f5ac94620ee409057658961f6562b7af2405ddd9abe06978776eint, 8int, r()) == 0x1542620b89498bac4cd11bf4aa932a58275848bcde1ccfe811e66b4e85fc025bint) by (nonlinear_arith) {
        reveal(primes::shift);
    }
    let e = primes::lemma_pow_digit(2int, e, 0, 1int, r());
    assert(primes::shift(0x1542620b89498bac4cd11bf4aa932a58275848bcde1ccfe811e66b4e85fc025bint, 1int, r()) == 0x185514819be52bd0e7e3b5cdffecd635e53a87c8d3c4f2e72947063964ec84f3int) by (nonlinear_arith) {
        reveal(primes::shift);
    }
    let e = primes::lemma_pow_digit(2int, e, 3, 8int, r());
    assert(primes::shift(0x185514819be52bd0e7e3b5cdffecd635e53a87c8d3c4f2e72947063964ec84f3int, 8int, r()) == 0x2e55e1d57966969df07a8f5f53f07039a967253c115085180ed467da8b687e7fint) by (nonlinear_arith) {
        reveal(primes::shift);
    }
    let e = primes::lemma_pow_digit(2int, e, 2, 4int, r());
    assert(primes::shift(0x2e55e1d57966969df07a8f5f53f07039a967253c115085180ed467da8b687e7fint, 4int, r()) == 0x1daa15618422c4d6d564de6afba08caf27611161001f931300a0d8d6db4c27b3int) by (nonlinear_arith) {
        reveal(primes::shift);
    }
    let e = primes::lemma_pow_digit(2int, e, 0, 1int, r());
    assert(primes::shift(0x1daa15618422c4d6d564de6afba08caf27611161001f931300a0d8d6db4c27b3int, 1int, r()) == 0x155fa116e4c2b0add97516e913c1f02fedebfd31df0e736f67235d06fd682689int) by (nonlinear_arith) {
        reveal(primes::shift);
    }
    let e = primes::lemma_pow_digit(2int, e, 3, 8int, r());
    assert(primes::shift(0x155fa116e4c2b0add97516e913c1f02fedebfd31df0e736f67235d06fd682689int, 8int, r()) == 0xb0d31fbcb44a1c5a56ab4eb55e6d91d581a22dc44e835534db025a50f7d4832int) by (nonlinear_arith) {
        reveal(primes::shift);
    }
    let e = primes::lemma_pow_digit(2int, e, 1, 2int, r());
    assert(primes::shift(0xb0d31fbcb44a1c5a56ab4eb55e6d91d581a22dc44e835534db025a50f7d4832int, 2int, r()) == 0x171c1a353c5c0548e911dacf7c42b25289bb27e61d51107dfaa8e1dc5bb1c75int) by (nonlinear_arith) {
        reveal(primes::shift);
    }
    let e = primes::lemma_pow_digit(2int, e, 1, 2int, r());
    assert(primes::shift(0x171c1a353c5c0548e911dacf7c42b25289bb27e61d51107dfaa8e1dc5bb1c75int, 2int, r()) == 0x22cf815c10c4ce33c7dfa915beab1b7e6e1da3a93dd5b5978485827b141269d9int) by (nonlinear_arith) {
        reveal(primes::shift);
    }
    let e = primes::lemma_pow_digit(2int, e, 0, 1int, r());
    assert(primes::shift(0x22cf815c10c4ce33c7dfa915beab1b7e6e1da3a93dd5b5978485827b141269d9int, 1int, r()) == 0x2ff046aa8206f4dd432378735c71cd91c791015eb26b659eb38dfecf8cdfbcd7int) by (nonlinear_arith) {
        reveal(primes::shift);
    }
    let e = primes::lemma_pow_digit(2int, e, 0, 1int, r());
    assert(primes::shift(0x2ff046aa8206f4dd432378735c71cd91c791015eb26b659eb38dfecf8cdfbcd7int, 1int, r()) == 0x261f08406141b42b3fd2cf5eb5425ef71b369af74f23d30f3229b0cde34ed13cint) by (nonlinear_arith) {
        reveal(primes::shift);
    }
    let e = primes::lemma_pow_digit(2int, e, 0, 1int, r());
    assert(primes::shift(0x261f08406141b42b3fd2cf5eb5425ef71b369af74f23d30f3229b0cde34ed13cint, 1int, r()) == 0x235597291ff7b3a35e5227be143c019d6144e3eb7e7fcafcf9e4ff535169111dint) by (nonlinear_arith) {
        reveal(primes::shift);
    }
    let e = primes::lemma_pow_digit(2int, e, 3, 8int, r());
    assert(primes::shift(0x235597291ff7b3a35e5227be143c019d6144e3eb7e7fcafcf9e4ff535169111dint, 8int, r()) == 0x1a691f2edaedab72252a93ed0328aba3c0f6f383677fd96dcb5c323b0627a16cint) by (nonlinear_arith) {
        reveal(primes::shift);
    }
    let e = primes::lemma_pow_digit(2int, e, 0, 1int, r());
    assert(primes::shift(0x1a691f2edaedab72252a93ed0328aba3c0f6f383677fd96dcb5c323b0627a16cint, 1int, r()) == 0x72e7e7d3f301b0b393541b2c7f86d773b681b1554a70533afa05997e0ea9071int) by (nonlinear_arith) {
        reveal(primes::shift);
    }
    let e = primes::lemma_pow_digit(2int, e, 0, 1int, r());
    assert(primes::shift(0x72e7e7d3f301b0b393541b2c7f86d773b681b1554a70533afa05997e0ea9071int, 1int, r()) == 0xd1330e2f844501a0c9ae453c24d7f5732b3ffaba781af75553583fd8a2aea35int) by (nonlinear_arith) {
        reveal(primes::shift);
    }
    let e = primes::lemma_pow_digit(2int, e, 0, 1int, r());
    assert(primes::shift(0xd1330e2f844501a0c9ae453c24d7f5732b3ffaba781af75553583fd8a2aea35int, 1int, r()) == 0x17f706ccf35f205837d6b3367efa6381b1a52fb3499194b0d11add2f82f0d93fint) by (nonlinear_arith) {
        reveal(primes::shift);
    }
    let e = primes::lemma_pow_digit(2int, e, 0, 1int, r());
    assert(primes::shift(0x17f706ccf35f205837d6b3367efa6381b1a52fb3499194b0d11add2f82f0d93fint, 1int, r()) == 0x239e81f4b337950c35278955523869c1e8f14803d4d60a20166cfc16e81bcf23int) by (nonlinear_arith) {
        reveal(primes::shift);
    }
    let e = primes::lemma_pow_digit(2int, e, 0, 1int, r());
    assert(primes::shift(0x239e81f4b337950c35278955523869c1e8f14803d4d60a20166cfc16e81bcf23int, 1int, r()) == 0x173e25f956d02f06a1026bdb22657565e734d66fc8d143d488216012f762123bint) by (nonlinear_arith) {
        reveal(primes::shift);
    }
    let e = primes::lemma_pow_digit(2int, e, 0, 1int, r());
    assert(primes::shift(0x173e25f956d02f06a1026bdb22657565e734d66fc8d143d488216012f762123bint, 1int, r()) == 0x1ef354195350510a34b16fa0deab2a05829099191714049c94cc4b8c68433afeint) by (nonlinear_arith) {
        reveal(primes::shift);
    }
    let e = primes::lemma_pow_digit(2int, e, 0, 1int, r());
    assert(primes::shift(0x1ef354195350510a34b16fa0deab2a05829099191714049c94cc4b8c68433afeint, 1int, r()) == 0x161f051ded35443bacd274ca00a818359872ba05952a61d27d65aae32af2705aint) by (nonlinear_arith) {
        reveal(primes::shift);
    }
    let e = primes::lemma_pow_digit(2int, e, 0, 1int, r());
    assert(primes::shift(0x161f051ded35443bacd274ca00a818359872ba05952a61d27d65aae32af2705aint, 1int, r()) == 0x1d9f07064f8cfc59d923e52cfb521c98a87c50f2c393b2fe8043d09b08fbda18int) by (nonlinear_arith) {
        reveal(primes::shift);
    }
    let e = primes::lemma_pow_digit(2int, e, 0, 1int, r());
    assert(primes::shift(0x1d9f07064f8cfc59d923e52cfb521c98a87c50f2c393b2fe8043d09b08fbda18int, 1int, r()) == 0x1b92df146fe1a7300841f3ffbfeb0da08d862e8f0ed6e03abf4dd8f8b9674c4aint) by (nonlinear_arith) {
        reveal(primes::shift);
    }
    let e = primes::lemma_pow_digit(2int, e, 0, 1int, r());
    assert(primes::shift(0x1b92df146fe1a7300841f3ffbfeb0da08d862e8f0ed6e03abf4dd8f8b9674c4aint, 1int, r()) == 0x79fe5e213b033832550bdee4ae55eb8eb898f590fd7c14f0fecd9bb5d1ec3f2int) by (nonlinear_arith) {
        reveal(primes::shift);
    }
    let e = primes::lemma_pow_digit(2int, e, 0, 1int, r());
    assert(primes::shift(0x79fe5e213b033832550bdee4ae55eb8eb898f590fd7c14f0fecd9bb5d1ec3f2int, 1int, r()) == 0xd684ce9423c93840331f9c2406d89ed539fe6cf49ee73c0ba5eedaa93e295b5int) by (nonlinear_arith) {
        reveal(primes::shift);
    }
    let e = primes::lemma_pow_digit(2int, e, 0, 1int, r());
    assert(primes::shift(0xd684ce9423c93840331f9c2406d89ed539fe6cf49ee73c0ba5eedaa93e295b5int, 1int, r()) == 0xef18495a63227d18bcd80987914c3c1ea59e9eee49da104ffa55f6fa9fb940eint) by (nonlinear_arith) {
        reveal(primes::shift);
    }
    let e = primes::lemma_pow_digit(2int, e, 0, 1int, r());
    assert(primes::shift(0xef18495a63227d18bcd80987914c3c1ea59e9eee49da104ffa55f6fa9fb940eint, 1int, r()) == 0x13aef6c6b69c2e82ca0b762950755031b53bcf1508e6e9900180b8ef5f3112c2int) by (nonlinear_arith) {
        reveal(primes::shift);
    }
    let e = primes::lemma_pow_digit(2int, e, 0, 1int, r());
    assert(primes::shift(0x13aef6c6b69c2e82ca0b762950755031b53bcf1508e6e9900180b8ef5f3112c2int, 1int, r()) == 0x8fdf6a009ddb0f44829608cbae4d277cf3727232b632f357b4ae966ddb136a8int) by (nonlinear_arith) {
        reveal(primes::shift);
    }
    assert(e == 0x2ebdc5c80a962a8ce35030000000int);
}

#[verifier::inline]
spec fn power_r_over_1670836401704629_base() -> int {
    0x8fdf6a009ddb0f44829608cbae4d277cf3727232b632f357b4ae966ddb136a8int
}

#[verifier::inline]
spec fn power_r_over_1670836401704629_base2() -> int {
    0xe1e6ba2302b44c608f0e8f18de6c2682898b53add1c30d4d2b7d5a1dfb52f80int
}

#[verifier::inline]
spec fn power_r_over_1670836401704629_base3() -> int {
    0x2ce31321f8795603ae76e265c29a0525bab134d3d19c80b21be8810e7310b88cint
}

/// `2^((n-1)/1670836401704629)` modulo `n = r`.
proof fn power_r_over_1670836401704629()
    ensures
        pow(power_r_over_1670836401704629_base(), 0x2ca6487cfcd795e8729527e1int as nat) % r() == 0x2200524a255dbf6af47485a398ccebd619e3d57040f03e65be26ba6bf27f8ff3int,
{
    assert((power_r_over_1670836401704629_base() * power_r_over_1670836401704629_base()) % r() == power_r_over_1670836401704629_base2()) by (nonlinear_arith);
    assert((power_r_over_1670836401704629_base2() * power_r_over_1670836401704629_base()) % r() == power_r_over_1670836401704629_base3()) by (nonlinear_arith);
    primes::lemma_pow_table(power_r_over_1670836401704629_base(), power_r_over_1670836401704629_base2(), power_r_over_1670836401704629_base3(), r());
    let e = 0nat;
    let e = primes::lemma_pow_digit(power_r_over_1670836401704629_base(), e, 2, power_r_over_1670836401704629_base2(), r());
    assert(primes::shift(1int, power_r_over_1670836401704629_base2(), r()) == 0xe1e6ba2302b44c608f0e8f18de6c2682898b53add1c30d4d2b7d5a1dfb52f80int) by (nonlinear_arith) {
        reveal(primes::shift);
    }
    let e = primes::lemma_pow_digit(power_r_over_1670836401704629_base(), e, 3, power_r_over_1670836401704629_base3(), r());
    assert(primes::shift(0xe1e6ba2302b44c608f0e8f18de6c2682898b53add1c30d4d2b7d5a1dfb52f80int, power_r_over_1670836401704629_base3(), r()) == 0x2850c4080a8341d45d54524b04b7dba1bfd29198656dc59a65ed523c6f1cbdfaint) by (nonlinear_arith) {
        reveal(primes::shift);
    }
    let e = primes::lemma_pow_digit(power_r_over_1670836401704629_base(), e, 0, 1int, r());
    assert(primes::shift(0x2850c4080a8341d45d54524b04b7dba1bfd29198656dc59a65ed523c6f1cbdfaint, 1int, r()) == 0x22b0aaab00a2f668e98870325a8a65ea55ca9f3bb68a41d3907cb698168fb5d9int) by (nonlinear_arith) {
        reveal(primes::shift);
    }
    let e = primes::lemma_pow_digit(power_r_over_1670836401704629_base(), e, 2, power_r_over_1670836401704629_base2(), r());
    assert(primes::shift(0x22b0aaab00a2f668e98870325a8a65ea55ca9f3bb68a41d3907cb698168fb5d9int, power_r_over_1670836401704629_base2(), r()) == 0xb66758d229ff3bb3af249bca478c278ddd01a27f8766e091f0e24332dd8f88int) by (nonlinear_arith) {
        reveal(primes::shift);
    }
    let e = primes::lemma_pow_digit(power_r_over_1670836401704629_base(), e, 2, power_r_over_1670836401704629_base2(), r());
    assert(primes::shift(0xb66758d229ff3bb3af249bca478c278ddd01a27f8766e091f0e24332dd8f88int, power_r_over_1670836401704629_base2(), r()) == 0x126b37f43f1200681799d95035a91a48c2af845247721da8d72a6d22ef74d5f7int) by (nonlinear_arith) {
        reveal(primes::shift);
    }
    let e = primes::lemma_pow_digit(power_r_over_1670836401704629_base(), e, 1, power_r_over_1670836401704629_base(), r());
    assert(primes::shift(0x126b37f43f1200681799d95035a91a48c2af845247721da8d72a6d22ef74d5f7int, power_r_over_1670836401704629_base(), r()) == 0x22fe4d9d204d7346bc4b6e300e176e2405ed5d68a697a6395c7ca613e29b88c1int) by (nonlinear_arith) {
        reveal(primes::shift);
    }
    let e = primes::lemma_pow_digit(power_r_over_1670836401704629_base(), e, 2, power_r_over_1670836401704629_base2(), r());
    assert(primes::shift(0x22fe4d9d204d7346bc4b6e300e176e2405ed5d68a697a6395c7ca613e29b88c1int, power_r_over_1670836401704629_base2(), r()) == 0x171f13d01388ee95c34c6acbc02303fdd277bb86ce50ce0f0e0fbfeef06c6931int) by (nonlinear_arith) {
        reveal(primes::shift);
    }
    let e = primes::lemma_pow_digit(power_r_over_1670836401704629_base(), e, 1, power_r_over_1670836401704629_base(), r());
    assert(primes::shift(0x171f13d01388ee95c34c6acbc02303fdd277bb86ce50ce0f0e0fbfeef06c6931int, power_r_over_1670836401704629_base(), r()) == 0x250c0c9e96d73d93e304ebe9d1630ee81f856f2ea027fce5e1a44fcb42b03c32int) by (nonlinear_arith) {
        reveal(primes::shift);
    }
    let e = primes::lemma_pow_digit(power_r_over_1670836401704629_base(), e, 0, 1int, r());
    assert(primes::shift(0x250c0c9e96d73d93e304ebe9d1630ee81f856f2ea027fce5e1a44fcb42b03c32int, 1int, r()) == 0x13e0c0a0e7e4b99346275f0f1f4757b42bce41637bbf09e1dc494b6863bf9198int) by (nonlinear_arith) {
        reveal(primes::shift);
    }
    let e = primes::lemma_pow_digit(power_r_over_1670836401704629_base(), e, 2, power_r_over_1670836401704629_base2(), r());
    assert(primes::shift(0x13e0c0a0e7e4b99346275f0f1f4757b42bce41637bbf09e1dc494b6863bf9198int, power_r_over_1670836401704629_base2(), r()) == 0x1c7bf86252c3a12bd555b59bb15f631f7b424d1dc1e66771ec17493d90615f78int) by (nonlinear_arith) {
        reveal(primes::shift);
    }
    let e = primes::lemma_pow_digit(power_r_over_1670836401704629_base(), e, 0, 1int, r());
    assert(primes::shift(0x1c7bf86252c3a12bd555b59bb15f631f7b424d1dc1e66771ec17493d90615f78int, 1int, r()) == 0x1abde34d51aff1f68a075803054fdae1d579788c63a7bdd5d398f38b46bdf567int) by (nonlinear_arith) {
        reveal(primes::shift);
    }
    let e = primes::lemma_pow_digit(power_r_over_1670836401704629_base(), e, 1, power_r_over_1670836401704629_base(), r());
    assert(primes::shift(0x1abde34d51aff1f68a075803054fdae1d579788c63a7bdd5d398f38b46bdf567int, power_r_over_1670836401704629_base(), r()) == 0x27a54b85fc649567210afccab7a338ca7668444f96aec23c4df3b7cb7e28a450int) by (nonlinear_arith) {
        reveal(primes::shift);
    }
    let e = primes::lemma_pow_digit(power_r_over_1670836401704629_base(), e, 3, power_r_over_1670836401704629_base3(), r());
    assert(primes::shift(0x27a54b85fc649567210afccab7a338ca7668444f96aec23c4df3b7cb7e28a450int, power_r_over_1670836401704629_base3(), r()) == 0xe2516a35b57362d4cb7dea238f23cf799c35bb7b73ff811210f9988c2146c93int) by (nonlinear_arith) {
        reveal(primes::shift);
    }
    let e = primes::lemma_pow_digit(power_r_over_1670836401704629_base(), e, 3, power_r_over_1670836401704629_base3(), r());
    assert(primes::shift(0xe2516a35b57362d4cb7dea238f23cf799c35bb7b73ff811210f9988c2146c93int, power_r_over_1670836401704629_base3(), r()) == 0xf718a68b7b16760f47e43cc14d43dff52314fcae99f2e7c2a9cfec5be64d6b0int) by (nonlinear_arith) {
        reveal(primes::shift);
    }
    let e = primes::lemma_pow_digit(power_r_over_1670836401704629_base(), e, 0, 1int, r());
    assert(primes::shift(0xf718a68b7b16760f47e43cc14d43dff52314fcae99f2e7c2a9cfec5be64d6b0int, 1int, r()) == 0x16cd7595e8df2197b947a7a7d188689b26a4a3e7457640c5ef00a48c491e6c23int) by (nonlinear_arith) {
        reveal(primes::shift);
    }
    let e = primes::lemma_pow_digit(power_r_over_1670836401704629_base(), e, 3, power_r_over_1670836401704629_base3(), r());
    assert(primes::shift(0x16cd7595e8df2197b947a7a7d188689b26a4a3e7457640c5ef00a48c491e6c23int, power_r_over_1670836401704629_base3(), r()) == 0x21863b6d6d3453a298a4d2641ad0beccbf9d3954968eb5f61fa77dabd1f1d651int) by (nonlinear_arith) {
        reveal(primes::shift);
    }
    let e = primes::lemma_pow_digit(power_r_over_1670836401704629_base(), e, 3, power_r_over_1670836401704629_base3(), r());
    assert(primes::shift(0x21863b6d6d3453a298a4d2641ad0beccbf9d3954968eb5f61fa77dabd1f1d651int, power_r_over_1670836401704629_base3(), r()) == 0x9a3bb98ad1482bed703ad0eddacb10d258d70b7d8f95bdeff7d60d1c89b08a2int) by (nonlinear_arith) {
        reveal(primes::shift);
    }
    let e = primes::lemma_pow_digit(power_r_over_1670836401704629_base(), e, 3, power_r_over_1670836401704629_base3(), r());
    assert(primes::shift(0x9a3bb98ad1482bed703ad0eddacb10d258d70b7d8f95bdeff7d60d1c89b08a2int, power_r_over_1670836401704629_base3(), r()) == 0x1c8a257bf6e0f5ec1ec53b0093279eb64e1918db18fb45fc122d14f107ce5581int) by (nonlinear_arith) {
        reveal(primes::shift);
    }
    let e = primes::lemma_pow_digit(power_r_over_1670836401704629_base(), e, 0, 1int, r());
    assert(primes::shift(0x1c8a257bf6e0f5ec1ec53b0093279eb64e1918db18fb45fc122d14f107ce5581int, 1int, r()) == 0xd237577ca9f3a0986562ba48412759531b52dceacca4dd006a7959222323064int) by (nonlinear_arith) {
        reveal(primes::shift);
    }
    let e = primes::lemma_pow_digit(power_r_over_1670836401704629_base(), e, 3, power_r_over_1670836401704629_base3(), r());
    assert(primes::shift(0xd237577ca9f3a0986562ba48412759531b52dceacca4dd006a7959222323064int, power_r_over_1670836401704629_base3(), r()) == 0x13c010c149103f1de36a6ee3341b0160caec486022a165ad6b6384b2d777d040int) by (nonlinear_arith) {
        reveal(primes::shift);
    }
    let e = primes::lemma_pow_digit(power_r_over_1670836401704629_base(), e, 1, power_r_over_1670836401704629_base(), r());
    assert(primes::shift(0x13c010c149103f1de36a6ee3341b0160caec486022a165ad6b6384b2d777d040int, power_r_over_1670836401704629_base(), r()) == 0x129c8d32bbd43f0a227260dd51e0069c825a51464a487e16047e11c4984861a5int) by (nonlinear_arith) {
        reveal(primes::shift);
    }
    let e = primes::lemma_pow_digit(power_r_over_1670836401704629_base(), e, 1, power_r_over_1670836401704629_base(), r());
    assert(primes::shift(0x129c8d32bbd43f0a227260dd51e0069c825a51464a487e16047e11c4984861a5int, power_r_over_1670836401704629_base(), r()) == 0x154bd7b4da09c86bbabe8a8cd134fd9b5ce4e1eb29e15c84815a7a0ac6bdd0ccint) by (nonlinear_arith) {
        reveal(primes::shift);
    }
    let e = primes::lemma_pow_digit(power_r_over_1670836401704629_base(), e, 3, power_r_over_1670836401704629_base3(), r());
    assert(primes::shift(0x154bd7b4da09c86bbabe8a8cd134fd9b5ce4e1eb29e15c84815a7a0ac6bdd0ccint, power_r_over_1670836401704629_base3(), r()) == 0x14db2f233e523efc1a011b9376af1ebd4d5a94e57c7250a9e47ec9019239cd36int) by (nonlinear_arith) {
        reveal(primes::shift);
    }
    let e = primes::lemma_pow_digit(power_r_over_1670836401704629_base(), e, 2, power_r_over_1670836401704629_base2(), r());
    assert(primes::shift(0x14db2f233e523efc1a011b9376af1ebd4d5a94e57c7250a9e47ec9019239cd36int, power_r_over_1670836401704629_base2(), r()) == 0xa80dfe6ff39e1818a0bb6a1c270014ac691fc1816791226b63867134a587e06int) by (nonlinear_arith) {
        reveal(primes::shift);
    }
    let e = primes::lemma_pow_digit(power_r_over_1670836401704629_base(), e, 1, power_r_over_1670836401704629_base(), r());
    assert(primes::shift(0xa80dfe6ff39e1818a0bb6a1c270014ac691fc1816791226b63867134a587e06int, power_r_over_1670836401704629_base(), r()) == 0x22fafcd41ce9cfedd8079a48864f1b2af064adc8577e480dc953d0438796969bint) by (nonlinear_arith) {
        reveal(primes::shift);
    }
    let e = primes::lemma_pow_digit(power_r_over_1670836401704629_base(), e, 1, power_r_over_1670836401704629_base(), r());
    assert(primes::shift(0x22fafcd41ce9cfedd8079a48864f1b2af064adc8577e480dc953d0438796969bint, power_r_over_1670836401704629_base(), r()) == 0x2474507c081fce953f39b38e727feac31eccb1bb9e9dffe50209fe6e874bcb43int) by (nonlinear_arith) {
        reveal(primes::shift);
    }
    let e = primes::lemma_pow_digit(power_r_over_1670836401704629_base(), e, 1, power_r_over_1670836401704629_base(), r());
    assert(primes::shift(0x2474507c081fce953f39b38e727feac31eccb1bb9e9dffe50209fe6e874bcb43int, power_r_over_1670836401704629_base(), r()) == 0x2e8bd58798dd2d2975e41b8fb2a2aa99e9c32983fe72ea0284154278b9c412fint) by (nonlinear_arith) {
        reveal(primes::shift);
    }
    let e = primes::lemma_pow_digit(power_r_over_1670836401704629_base(), e, 3, power_r_over_1670836401704629_base3(), r());
    assert(primes::shift(0x2e8bd58798dd2d2975e41b8fb2a2aa99e9c32983fe72ea0284154278b9c412fint, power_r_over_1670836401704629_base3(), r()) == 0x2a74881ca50dc33fef15667e3e53fe4ae263fc05194f6e3b8cb8df47d2f96b18int) by (nonlinear_arith) {
        reveal(primes::shift);
    }
    let e = primes::lemma_pow_digit(power_r_over_1670836401704629_base(), e, 2, power_r_over_1670836401704629_base2(), r());
    assert(primes::shift(0x2a74881ca50dc33fef15667e3e53fe4ae263fc05194f6e3b8cb8df47d2f96b18int, power_r_over_1670836401704629_base2(), r()) == 0x5a506cd18cd76c24b43de12d906eccf381a5ea6bad4d0d59b2bfd8b0634dd14int) by (nonlinear_arith) {
        reveal(primes::shift);
    }
    let e = primes::lemma_pow_digit(power_r_over_1670836401704629_base(), e, 2, power_r_over_1670836401704629_base2(), r());
    assert(primes::shift(0x5a506cd18cd76c24b43de12d906eccf381a5ea6bad4d0d59b2bfd8b0634dd14int, power_r_over_1670836401704629_base2(), r()) == 0x8423d9aadb24ab87c10633909d575f92e59b970e2f2bb45fdb362acf4afdd93int) by (nonlinear_arith) {
        reveal(primes::shift);
    }
    let e = primes::lemma_pow_digit(power_r_over_1670836401704629_base(), e, 0, 1int, r());
    assert(primes::shift(0x8423d9aadb24ab87c10633909d575f92e59b970e2f2bb45fdb362acf4afdd93int, 1int, r()) == 0x29a9c259294e3c4a0b93861219a8f0f959028eea9ec6d46c808b2e1dc331e84eint) by (nonlinear_arith) {
        reveal(primes::shift);
    }
    let e = primes::lemma_pow_digit(power_r_over_1670836401704629_base(), e, 1, power_r_over_1670836401704629_base(), r());
    assert(primes::shift(0x29a9c259294e3c4a0b93861219a8f0f959028eea9ec6d46c808b2e1dc331e84eint, power_r_over_1670836401704629_base(), r()) == 0x12ade1f1782518827f253adb12c08114e4ada0e65c4af313cb74cf98e54f475cint) by (nonlinear_arith) {
        reveal(primes::shift);
    }
    let e = primes::lemma_pow_digit(power_r_over_1670836401704629_base(), e, 3, power_r_over_1670836401704629_base3(), r());
    assert(primes::shift(0x12ade1f1782518827f253adb12c08114e4ada0e65c4af313cb74cf98e54f475cint, power_r_over_1670836401704629_base3(), r()) == 0x3e64b43d62f1f8ad3e78d44f3726553e8519a661214213e082650c345b02b2bint) by (nonlinear_arith) {
        reveal(primes::shift);
    }
    let e = primes::lemma_pow_digit(power_r_over_1670836401704629_base(), e, 0, 1int, r());
    assert(primes::shift(0x3e64b43d62f1f8ad3e78d44f3726553e8519a661214213e082650c345b02b2bint, 1int, r()) == 0x2dc1409c625114c18a1e7ebfcdd352a61104e7e29236ccc93d7ecc4080503728int) by (nonlinear_arith) {
        reveal(primes::shift);
    }
    let e = primes::lemma_pow_digit(power_r_over_1670836401704629_base(), e, 2, power_r_over_1670836401704629_base2(), r());
    assert(primes::shift(0x2dc1409c625114c18a1e7ebfcdd352a61104e7e29236ccc93d7ecc4080503728int, power_r_over_1670836401704629_base2(), r()) == 0x178603a2735be45b1a609f747df6334ca1123bb2e070d5785d22dcdbe44af403int) by (nonlinear_arith) {
        reveal(primes::shift);
    }
    let e = primes::lemma_pow_digit(power_r_over_1670836401704629_base(), e, 2, power_r_over_1670836401704629_base2(), r());
    assert(primes::shift(0x178603a2735be45b1a609f747df6334ca1123bb2e070d5785d22dcdbe44af403int, power_r_over_1670836401704629_base2(), r()) == 0x344d971db60e764cb45756fde63ab4c18a998c57e0c0f2a4b9c47d95e66e92bint) by (nonlinear_arith) {
        reveal(primes::shift);
    }
    let e = primes::lemma_pow_digit(power_r_over_1670836401704629_base(), e, 1, power_r_over_1670836401704629_base(), r());
    assert(primes::shift(0x344d971db60e764cb45756fde63ab4c18a998c57e0c0f2a4b9c47d95e66e92bint, power_r_over_1670836401704629_base(), r()) == 0xe6a00512a5b9cc63f9c163c505723695a8ff194abfb81c276b671aebf21e697int) by (nonlinear_arith) {
        reveal(primes::shift);
    }
    let e = primes::lemma_pow_digit(power_r_over_1670836401704629_base(), e, 1, power_r_over_1670836401704629_base(), r());
    assert(primes::shift(0xe6a00512a5b9cc63f9c163c505723695a8ff194abfb81c276b671aebf21e697int, power_r_over_1670836401704629_base(), r()) == 0xacd68e2e7f0e6b3719aa71aab61f14569f8968b8260ec8fde3843d603f8851cint) by (nonlinear_arith) {
        reveal(primes::shift);
    }
    let e = primes::lemma_pow_digit(power_r_over_1670836401704629_base(), e, 1, power_r_over_1670836401704629_base(), r());
    assert(primes::shift(0xacd68e2e7f0e6b3719aa71aab61f14569f8968b8260ec8fde3843d603f8851cint, power_r_over_1670836401704629_base(), r()) == 0xdcc2fb670a38e172a6aaaba79ad2c9679b34a0ebf0ab187389906ee2c0ce734int) by (nonlinear_arith) {
        reveal(primes::shift);
    }
    let e = primes::lemma_pow_digit(power_r_over_1670836401704629_base(), e, 0, 1int, r());
    assert(primes::shift(0xdcc2fb670a38e172a6aaaba79ad2c9679b34a0ebf0ab187389906ee2c0ce734int, 1int, r()) == 0x1e67d0c55a595b0c9d035f3607c28b50767dad6895d878a1845d10a1dd2b7c20int) by (nonlinear_arith) {
        reveal(primes::shift);
    }
    let e = primes::lemma_pow_digit(power_r_over_1670836401704629_base(), e, 2, power_r_over_1670836401704629_base2(), r());
    assert(primes::shift(0x1e67d0c55a595b0c9d035f3607c28b50767dad6895d878a1845d10a1dd2b7c20int, power_r_over_1670836401704629_base2(), r()) == 0x160dd019068d7f3dda7750732f5beca3cc7122709209473faa1e536013fb630cint) by (nonlinear_arith) {
        reveal(primes::shift);
    }
    let e = primes::lemma_pow_digit(power_r_over_1670836401704629_base(), e, 1, power_r_over_1670836401704629_base(), r());
    assert(primes::shift(0x160dd019068d7f3dda7750732f5beca3cc7122709209473faa1e536013fb630cint, power_r_over_1670836401704629_base(), r()) == 0x25e4b0f7559c73e62e3a0815f66cea5ca47f8c8ee61e44b350e724c406b3a5b8int) by (nonlinear_arith) {
        reveal(primes::shift);
    }
    let e = primes::lemma_pow_digit(power_r_over_1670836401704629_base(), e, 3, power_r_over_1670836401704629_base3(), r());
    assert(primes::shift(0x25e4b0f7559c73e62e3a0815f66cea5ca47f8c8ee61e44b350e724c406b3a5b8int, power_r_over_1670836401704629_base3(), r()) == 0xcaddb702982d1a5a880c2ad424415df499b417a348a2561ecc6f1ad155eec39int) by (nonlinear_arith) {
        reveal(primes::shift);
    }
    let e = primes::lemma_pow_digit(power_r_over_1670836401704629_base(), e, 3, power_r_over_1670836401704629_base3(), r());
    assert(primes::shift(0xcaddb702982d1a5a880c2ad424415df499b417a348a2561ecc6f1ad155eec39int, power_r_over_1670836401704629_base3(), r()) == 0x21be9b1c300ab61e9c12fbabc11e2ae3e0b8997bfdfe0fb577221db63e785100int) by (nonlinear_arith) {
        reveal(primes::shift);
    }
    let e = primes::lemma_pow_digit(power_r_over_1670836401704629_base(), e, 2, power_r_over_1670836401704629_base2(), r());
    assert(primes::shift(0x21be9b1c300ab61e9c12fbabc11e2ae3e0b8997bfdfe0fb577221db63e785100int, power_r_over_1670836401704629_base2(), r()) == 0x17f95e389f80f635f826fb70c48648235f74c74d5b14993569da5d5ab9ff6896int) by (nonlinear_arith) {
        reveal(primes::shift);
    }
    let e = primes::lemma_pow_digit(power_r_over_1670836401704629_base(), e, 0, 1int, r());
    assert(primes::shift(0x17f95e389f80f635f826fb70c48648235f74c74d5b14993569da5d5ab9ff6896int, 1int, r()) == 0x839295cfbd1a6da3b7791dc221ba0534ed2709bcf00b4fd080cfb4537805ffbint) by (nonlinear_arith) {
        reveal(primes::shift);
    }
    let e = primes::lemma_pow_digit(power_r_over_1670836401704629_base(), e, 1, power_r_over_1670836401704629_base(), r());
    assert(primes::shift(0x839295cfbd1a6da3b7791dc221ba0534ed2709bcf00b4fd080cfb4537805ffbint, power_r_over_1670836401704629_base(), r()) == 0x2200524a255dbf6af47485a398ccebd619e3d57040f03e65be26ba6bf27f8ff3int) by (nonlinear_arith) {
        reveal(primes::shift);
    }
    assert(e == 0x2ca6487cfcd795e8729527e1int);
}

#[verifier::inline]
spec fn power_r_over_13818364434197438864469338081_base() -> int {
    0x8fdf6a009ddb0f44829608cbae4d277cf3727232b632f357b4ae966ddb136a8int
}

#[verifier::inline]
spec fn power_r_over_13818364434197438864469338081_base2() -> int {
    0xe1e6ba2302b44c608f0e8f18de6c2682898b53add1c30d4d2b7d5a1dfb52f80int
}

#[verifier::inline]
spec fn power_r_over_13818364434197438864469338081_base3() -> int {
    0x2ce31321f8795603ae76e265c29a0525bab134d3d19c80b21be8810e7310b88cint
}

/// `2^((n-1)/13818364434197438864469338081)` modulo `n = r`.
proof fn power_r_over_13818364434197438864469338081()
    ensures
        pow(power_r_over_13818364434197438864469338081_base(), 0x5ef9dea338eb5int as nat) % r() == 0x299662f9e8574586530237c7b2e285cc00b75b8c63b1d725b7ffc6d604e94fc8int,
{
    assert((power_r_over_13818364434197438864469338081_base() * power_r_over_13818364434197438864469338081_base()) % r() == power_r_over_13818364434197438864469338081_base2()) by (nonlinear_arith);
    assert((power_r_over_13818364434197438864469338081_base2() * power_r_over_13818364434197438864469338081_base()) % r() == power_r_over_13818364434197438864469338081_base3()) by (nonlinear_arith);
    primes::lemma_pow_table(power_r_over_13818364434197438864469338081_base(), power_r_over_13818364434197438864469338081_base2(), power_r_over_13818364434197438864469338081_base3(), r());
    let e = 0nat;
    let e = primes::lemma_pow_digit(power_r_over_13818364434197438864469338081_base(), e, 1, power_r_over_13818364434197438864469338081_base(), r());
    assert(primes::shift(1int, power_r_over_13818364434197438864469338081_base(), r()) == 0x8fdf6a009ddb0f44829608cbae4d277cf3727232b632f357b4ae966ddb136a8int) by (nonlinear_arith) {
        reveal(primes::shift);
    }
    let e = primes::lemma_pow_digit(power_r_over_13818364434197438864469338081_base(), e, 1, power_r_over_13818364434197438864469338081_base(), r());
    assert(primes::shift(0x8fdf6a009ddb0f44829608cbae4d277cf3727232b632f357b4ae966ddb136a8int, power_r_over_13818364434197438864469338081_base(), r()) == 0x1d44ddd89101748239baed92f2d1f8da6571bde0728453b77f287a47cd9705d4int) by (nonlinear_arith) {
        reveal(primes::shift);
    }
    let e = primes::lemma_pow_digit(power_r_over_13818364434197438864469338081_base(), e, 3, power_r_over_13818364434197438864469338081_base3(), r());
    assert(primes::shift(0x1d44ddd89101748239baed92f2d1f8da6571bde0728453b77f287a47cd9705d4int, power_r_over_13818364434197438864469338081_base3(), r()) == 0xca60ba9e75b26c0aee9ff7133998f3f198b84fd5092d9ddcf59c3d56b47f1b1int) by (nonlinear_arith) {
        reveal(primes::shift);
    }
    let e = primes::lemma_pow_digit(power_r_over_13818364434197438864469338081_base(), e, 2, power_r_over_13818364434197438864469338081_base2(), r());
    assert(primes::shift(0xca60ba9e75b26c0aee9ff7133998f3f198b84fd5092d9ddcf59c3d56b47f1b1int, power_r_over_13818364434197438864469338081_base2(), r()) == 0x2250eb8205a9551f8d0c3486150db5dfd9ce352cea74b6d0c3c0738f6f3d8408int) by (nonlinear_arith) {
        reveal(primes::shift);
    }
    let e = primes::lemma_pow_digit(power_r_over_13818364434197438864469338081_base(), e, 3, power_r_over_13818364434197438864469338081_base3(), r());
    assert(primes::shift(0x2250eb8205a9551f8d0c3486150db5dfd9ce352cea74b6d0c3c0738f6f3d8408int, power_r_over_13818364434197438864469338081_base3(), r()) == 0x523ec220d9d056a66c7e11ec2bd6c0a3bb5595ca9d8fba868ca697ce849429eint) by (nonlinear_arith) {
        reveal(primes::shift);
    }
    let e = primes::lemma_pow_digit(power_r_over_13818364434197438864469338081_base(), e, 3, power_r_over_13818364434197438864469338081_base3(), r());
    assert(primes::shift(0x523ec220d9d056a66c7e11ec2bd6c0a3bb5595ca9d8fba868ca697ce849429eint, power_r_over_13818364434197438864469338081_base3(), r()) == 0xbbad1eecb70e89b5fc26658c59e6bbce68f21ad891c461c94d2d03a01e6b29cint) by (nonlinear_arith) {
        reveal(primes::shift);
    }
    let e = primes::lemma_pow_digit(power_r_over_13818364434197438864469338081_base(), e, 2, power_r_over_13818364434197438864469338081_base2(), r());
    assert(primes::shift(0xbbad1eecb70e89b5fc26658c59e6bbce68f21ad891c461c94d2d03a01e6b29cint, power_r_over_13818364434197438864469338081_base2(), r()) == 0x1e5e3eace33af87ad3d7d5899fb4307867dacd135f909a635881294abad8459eint) by (nonlinear_arith) {
        reveal(primes::shift);
    }
    let e = primes::lemma_pow_digit(power_r_over_13818364434197438864469338081_base(), e, 1, power_r_over_13818364434197438864469338081_base(), r());
    assert(primes::shift(0x1e5e3eace33af87ad3d7d5899fb4307867dacd135f909a635881294abad8459eint, power_r_over_13818364434197438864469338081_base(), r()) == 0x150b3f478bbd41c2a5ba02a3a2051a58ec99a3ab4bfb110e2883f60ad29ab711int) by (nonlinear_arith) {
        reveal(primes::shift);
    }
    let e = primes::lemma_pow_digit(power_r_over_13818364434197438864469338081_base(), e, 3, power_r_over_13818364434197438864469338081_base3(), r());
    assert(primes::shift(0x150b3f478bbd41c2a5ba02a3a2051a58ec99a3ab4bfb110e2883f60ad29ab711int, power_r_over_13818364434197438864469338081_base3(), r()) == 0xed4506ec8812472a8b71bca92ead075e792979181cdc8c25a281bc683abeb96int) by (nonlinear_arith) {
        reveal(primes::shift);
    }
    let e = primes::lemma_pow_digit(power_r_over_13818364434197438864469338081_base(), e, 1, power_r_over_13818364434197438864469338081_base(), r());
    assert(primes::shift(0xed4506ec8812472a8b71bca92ead075e792979181cdc8c25a281bc683abeb96int, power_r_over_13818364434197438864469338081_base(), r()) == 0x2784ec32db16a8d197c036744b2241a70028f7a9d68026b3261564cd4a0943fcint) by (nonlinear_arith) {
        reveal(primes::shift);
    }
    let e = primes::lemma_pow_digit(power_r_over_13818364434197438864469338081_base(), e, 3, power_r_over_13818364434197438864469338081_base3(), r());
    assert(primes::shift(0x2784ec32db16a8d197c036744b2241a70028f7a9d68026b3261564cd4a0943fcint, power_r_over_13818364434197438864469338081_base3(), r()) == 0x10d15787f14f24874d7ac079734666a9d34d88fc1dfd1ec8cbb84d6698e4af48int) by (nonlinear_arith) {
        reveal(primes::shift);
    }
    let e = primes::lemma_pow_digit(power_r_over_13818364434197438864469338081_base(), e, 2, power_r_over_13818364434197438864469338081_base2(), r());
    assert(primes::shift(0x10d15787f14f24874d7ac079734666a9d34d88fc1dfd1ec8cbb84d6698e4af48int, power_r_over_13818364434197438864469338081_base2(), r()) == 0x133054faaad60b9d0b56f3963bd99e16024ecab2f9fe116cc9eb7720e997c0a7int) by (nonlinear_arith) {
        reveal(primes::shift);
    }
    let e = primes::lemma_pow_digit(power_r_over_13818364434197438864469338081_base(), e, 2, power_r_over_13818364434197438864469338081_base2(), r());
    assert(primes::shift(0x133054faaad60b9d0b56f3963bd99e16024ecab2f9fe116cc9eb7720e997c0a7int, power_r_over_13818364434197438864469338081_base2(), r()) == 0x2c50be7a703a8ec06633ed18ec86a7d22a3cae572d1142445078663695e26b87int) by (nonlinear_arith) {
        reveal(primes::shift);
    }
    let e = primes::lemma_pow_digit(power_r_over_13818364434197438864469338081_base(), e, 2, power_r_over_13818364434197438864469338081_base2(), r());
    assert(primes::shift(0x2c50be7a703a8ec06633ed18ec86a7d22a3cae572d1142445078663695e26b87int, power_r_over_13818364434197438864469338081_base2(), r()) == 0x131464c000009688675be04eb2861e70d6dd88dd1521913cc90665a3c9d50429int) by (nonlinear_arith) {
        reveal(primes::shift);
    }
    let e = primes::lemma_pow_digit(power_r_over_13818364434197438864469338081_base(), e, 0, 1int, r());
    assert(primes::shift(0x131464c000009688675be04eb2861e70d6dd88dd1521913cc90665a3c9d50429int, 1int, r()) == 0x185635f29f35b9d35262acdc73bb7f1c097cc2544b1d604ebf3afa945493466eint) by (nonlinear_arith) {
        reveal(primes::shift);
    }
    let e = primes::lemma_pow_digit(power_r_over_13818364434197438864469338081_base(), e, 3, power_r_over_13818364434197438864469338081_base3(), r());
    assert(primes::shift(0x185635f29f35b9d35262acdc73bb7f1c097cc2544b1d604ebf3afa945493466eint, power_r_over_13818364434197438864469338081_base3(), r()) == 0x1e70d70b3042473db3c88ee00840ee77f1b28b1d6460496ed32e93741eb389f6int) by (nonlinear_arith) {
        reveal(primes::shift);
    }
    let e = primes::lemma_pow_digit(power_r_over_13818364434197438864469338081_base(), e, 0, 1int, r());
    assert(primes::shift(0x1e70d70b3042473db3c88ee00840ee77f1b28b1d6460496ed32e93741eb389f6int, 1int, r()) == 0x21a1032066275666540fc79fa5fbb5afd0cbec5048c690aad865105ba443cfdeint) by (nonlinear_arith) {
        reveal(primes::shift);
    }
    let e = primes::lemma_pow_digit(power_r_over_13818364434197438864469338081_base(), e, 3, power_r_over_13818364434197438864469338081_base3(), r());
    assert(primes::shift(0x21a1032066275666540fc79fa5fbb5afd0cbec5048c690aad865105ba443cfdeint, power_r_over_13818364434197438864469338081_base3(), r()) == 0x193fc38bdc24f8b04909ae4c56c16ff2567872c6bea93f3c551480e08fe2b043int) by (nonlinear_arith) {
        reveal(primes::shift);
    }
    let e = primes::lemma_pow_digit(power_r_over_13818364434197438864469338081_base(), e, 2, power_r_over_13818364434197438864469338081_base2(), r());
    assert(primes::shift(0x193fc38bdc24f8b04909ae4c56c16ff2567872c6bea93f3c551480e08fe2b043int, power_r_over_13818364434197438864469338081_base2(), r()) == 0x4f21ba1d1469cd3e5761ca4e9ff612515fbf991a0e97569d409b5d650bb957bint) by (nonlinear_arith) {
        reveal(primes::shift);
    }
    let e = primes::lemma_pow_digit(power_r_over_13818364434197438864469338081_base(), e, 0, 1int, r());
    assert(primes::shift(0x4f21ba1d1469cd3e5761ca4e9ff612515fbf991a0e97569d409b5d650bb957bint, 1int, r()) == 0x33cf3c77635feadd8fcb7118be89058ef0b0933455d104ee51be00c5e174b84int) by (nonlinear_arith) {
        reveal(primes::shift);
    }
    let e = primes::lemma_pow_digit(power_r_over_13818364434197438864469338081_base(), e, 3, power_r_over_13818364434197438864469338081_base3(), r());
    assert(primes::shift(0x33cf3c77635feadd8fcb7118be89058ef0b0933455d104ee51be00c5e174b84int, power_r_over_13818364434197438864469338081_base3(), r()) == 0x3019c50b2cd5842434f97d00834e3352dc88b95bf152a5ca62f77e42a6669118int) by (nonlinear_arith) {
        reveal(primes::shift);
    }
    let e = primes::lemma_pow_digit(power_r_over_13818364434197438864469338081_base(), e, 2, power_r_over_13818364434197438864469338081_base2(), r());
    assert(primes::shift(0x3019c50b2cd5842434f97d00834e3352dc88b95bf152a5ca62f77e42a6669118int, power_r_over_13818364434197438864469338081_base2(), r()) == 0x2673c66d9e636ef60c5c18db7fe32d670f3aea1071ac50890292a4b63349afecint) by (nonlinear_arith) {
        reveal(primes::shift);
    }
    let e = primes::lemma_pow_digit(power_r_over_13818364434197438864469338081_base(), e, 2, power_r_over_13818364434197438864469338081_base2(), r());
    assert(primes::shift(0x2673c66d9e636ef60c5c18db7fe32d670f3aea1071ac50890292a4b63349afecint, power_r_over_13818364434197438864469338081_base2(), r()) == 0x29358463a760abf850c46d1db50ce847a093581dd41f56bdc0220ced30801dacint) by (nonlinear_arith) {
        reveal(primes::shift);
    }
    let e = primes::lemma_pow_digit(power_r_over_13818364434197438864469338081_base(), e, 3, power_r_over_13818364434197438864469338081_base3(), r());
    assert(primes::shift(0x29358463a760abf850c46d1db50ce847a093581dd41f56bdc0220ced30801dacint, power_r_over_13818364434197438864469338081_base3(), r()) == 0x8ec0269a8c9313dc4d47abb493f3e33421d484bb887cb0de1c8bd3dd0e3d7ceint) by (nonlinear_arith) {
        reveal(primes::shift);
    }
    let e = primes::lemma_pow_digit(power_r_over_13818364434197438864469338081_base(), e, 1, power_r_over_13818364434197438864469338081_base(), r());
    assert(primes::shift(0x8ec0269a8c9313dc4d47abb493f3e33421d484bb887cb0de1c8bd3dd0e3d7ceint, power_r_over_13818364434197438864469338081_base(), r()) == 0x21877a33e59e4d6baddd6b243f2eef07d7367167687079a0694411bddebe1d3aint) by (nonlinear_arith) {
        reveal(primes::shift);
    }
    let e = primes::lemma_pow_digit(power_r_over_13818364434197438864469338081_base(), e, 1, power_r_over_13818364434197438864469338081_base(), r());
    assert(primes::shift(0x21877a33e59e4d6baddd6b243f2eef07d7367167687079a0694411bddebe1d3aint, power_r_over_13818364434197438864469338081_base(), r()) == 0x299662f9e8574586530237c7b2e285cc00b75b8c63b1d725b7ffc6d604e94fc8int) by (nonlinear_arith) {
        reveal(primes::shift);
    }
    assert(e == 0x5ef9dea338eb5int);
}

#[verifier::inline]
spec fn power_r_base() -> int {
    0x2200524a255dbf6af47485a398ccebd619e3d57040f03e65be26ba6bf27f8ff3int
}

#[verifier::inline]
spec fn power_r_base2() -> int {
    0x2acdbea3c5d2e746fb67e131fa516a7ed25bb8e97da235d0e8ff4ecb7a45b440int
}

#[verifier::inline]
spec fn power_r_base3() -> int {
    0x46075a1e1d0ec1a1f3101ba5241197d6fff4b05999fce6a878c0db547e39155int
}

/// The rest of `2^(n-1)`.
proof fn power_r()
    ensures
        pow(power_r_base(), 0x5ef9dea338eb5int as nat) % r() == 1int,
{
    assert((power_r_base() * power_r_base()) % r() == power_r_base2()) by (nonlinear_arith);
    assert((power_r_base2() * power_r_base()) % r() == power_r_base3()) by (nonlinear_arith);
    primes::lemma_pow_table(power_r_base(), power_r_base2(), power_r_base3(), r());
    let e = 0nat;
    let e = primes::lemma_pow_digit(power_r_base(), e, 1, power_r_base(), r());
    assert(primes::shift(1int, power_r_base(), r()) == 0x2200524a255dbf6af47485a398ccebd619e3d57040f03e65be26ba6bf27f8ff3int) by (nonlinear_arith) {
        reveal(primes::shift);
    }
    let e = primes::lemma_pow_digit(power_r_base(), e, 1, power_r_base(), r());
    assert(primes::shift(0x2200524a255dbf6af47485a398ccebd619e3d57040f03e65be26ba6bf27f8ff3int, power_r_base(), r()) == 0x96b71f34b730b36061c8ed4331f084641cb1122b36c6944200d8488b2bf3e95int) by (nonlinear_arith) {
        reveal(primes::shift);
    }
    let e = primes::lemma_pow_digit(power_r_base(), e, 3, power_r_base3(), r());
    assert(primes::shift(0x96b71f34b730b36061c8ed4331f084641cb1122b36c6944200d8488b2bf3e95int, power_r_base3(), r()) == 0x11eebb9f9245ad5eb31da4a028bbcdebf54a84acf8258cc08000592d396e2decint) by (nonlinear_arith) {
        reveal(primes::shift);
    }
    let e = primes::lemma_pow_digit(power_r_base(), e, 2, power_r_base2(), r());
    assert(primes::shift(0x11eebb9f9245ad5eb31da4a028bbcdebf54a84acf8258cc08000592d396e2decint, power_r_base2(), r()) == 0x723488d1d5509ebd9d924cbae1995d192e4c8fbf3a1ad4313dea2e1910c28daint) by (nonlinear_arith) {
        reveal(primes::shift);
    }
    let e = primes::lemma_pow_digit(power_r_base(), e, 3, power_r_base3(), r());
    assert(primes::shift(0x723488d1d5509ebd9d924cbae1995d192e4c8fbf3a1ad4313dea2e1910c28daint, power_r_base3(), r()) == 0x21826ec1d81d44b29f5610aab954c629bc4a513ba65100841806c0db1bba3504int) by (nonlinear_arith) {
        reveal(primes::shift);
    }
    let e = primes::lemma_pow_digit(power_r_base(), e, 3, power_r_base3(), r());
    assert(primes::shift(0x21826ec1d81d44b29f5610aab954c629bc4a513ba65100841806c0db1bba3504int, power_r_base3(), r()) == 0x222549e549ac1af71e0bd5a1b03ead31917e1bf9bcb81ce8c02b7ca70d7de58aint) by (nonlinear_arith) {
        reveal(primes::shift);
    }
    let e = primes::lemma_pow_digit(power_r_base(), e, 2, power_r_base2(), r());
    assert(primes::shift(0x222549e549ac1af71e0bd5a1b03ead31917e1bf9bcb81ce8c02b7ca70d7de58aint, power_r_base2(), r()) == 0x9734583a2192652a254c224c8dc72bed931d0f8a68132a3df73d74a844fd2ceint) by (nonlinear_arith) {
        reveal(primes::shift);
    }
    let e = primes::lemma_pow_digit(power_r_base(), e, 1, power_r_base(), r());
    assert(primes::shift(0x9734583a2192652a254c224c8dc72bed931d0f8a68132a3df73d74a844fd2ceint, power_r_base(), r()) == 0x1cbc9671676b8de134057e0ef39860495985221589c94910e79e4465cf62cadaint) by (nonlinear_arith) {
        reveal(primes::shift);
    }
    let e = primes::lemma_pow_digit(power_r_base(), e, 3, power_r_base3(), r());
    assert(primes::shift(0x1cbc9671676b8de134057e0ef39860495985221589c94910e79e4465cf62cadaint, power_r_base3(), r()) == 0x174678f505ed93e359dca7d24bd48975a2ad784b523d9a052204272e755d1dd4int) by (nonlinear_arith) {
        reveal(primes::shift);
    }
    let e = primes::lemma_pow_digit(power_r_base(), e, 1, power_r_base(), r());
    assert(primes::shift(0x174678f505ed93e359dca7d24bd48975a2ad784b523d9a052204272e755d1dd4int, power_r_base(), r()) == 0x6c0386a63a1031c52fe56a67b5698030b5ea23a2741be59b61a12a436af2ba6int) by (nonlinear_arith) {
        reveal(primes::shift);
    }
    let e = primes::lemma_pow_digit(power_r_base(), e, 3, power_r_base3(), r());
    assert(primes::shift(0x6c0386a63a1031c52fe56a67b5698030b5ea23a2741be59b61a12a436af2ba6int, power_r_base3(), r()) == 0x1f406814fb0c92855027f60c30d71da27ab63aed880d8f632ad0414eb4cd1facint) by (nonlinear_arith) {
        reveal(primes::shift);
    }
    let e = primes::lemma_pow_digit(power_r_base(), e, 2, power_r_base2(), r());
    assert(primes::shift(0x1f406814fb0c92855027f60c30d71da27ab63aed880d8f632ad0414eb4cd1facint, power_r_base2(), r()) == 0x207eb9754cf90b268bc0e1fd134e480331d6328f5ddd1b26aabad2be02bcb4d9int) by (nonlinear_arith) {
        reveal(primes::shift);
    }
    let e = primes::lemma_pow_digit(power_r_base(), e, 2, power_r_base2(), r());
    assert(primes::shift(0x207eb9754cf90b268bc0e1fd134e480331d6328f5ddd1b26aabad2be02bcb4d9int, power_r_base2(), r()) == 0x6e919b9a5f4e37103f33c885bfad10396e2269e6be88f5bc9d5c492e95f0137int) by (nonlinear_arith) {
        reveal(primes::shift);
    }
    let e = primes::lemma_pow_digit(power_r_base(), e, 2, power_r_base2(), r());
    assert(primes::shift(0x6e919b9a5f4e37103f33c885bfad10396e2269e6be88f5bc9d5c492e95f0137int, power_r_base2(), r()) == 0x688c2bfdf14ad8d79bd22e03317df1ee76de92668ae1f5c654715f8bfb8efbcint) by (nonlinear_arith) {
        reveal(primes::shift);
    }
    let e = primes::lemma_pow_digit(power_r_base(), e, 0, 1int, r());
    assert(primes::shift(0x688c2bfdf14ad8d79bd22e03317df1ee76de92668ae1f5c654715f8bfb8efbcint, 1int, r()) == 0x1af6d116cde7e704e7a5c2b7dde63cdea32ad39da541baa922303f3e1873f3f9int) by (nonlinear_arith) {
        reveal(primes::shift);
    }
    let e = primes::lemma_pow_digit(power_r_base(), e, 3, power_r_base3(), r());
    assert(primes::shift(0x1af6d116cde7e704e7a5c2b7dde63cdea32ad39da541baa922303f3e1873f3f9int, power_r_base3(), r()) == 0x55c58e25937ee4bf3b03617ac95ee5372b4312fabeead105b7c3bc3c1ab1449int) by (nonlinear_arith) {
        reveal(primes::shift);
    }
    let e = primes::lemma_pow_digit(power_r_base(), e, 0, 1int, r());
    assert(primes::shift(0x55c58e25937ee4bf3b03617ac95ee5372b4312fabeead105b7c3bc3c1ab1449int, 1int, r()) == 0xafa615d887f18b3ecd3fde847129641b38526ce34ecac3d964ff2a88e733a1eint) by (nonlinear_arith) {
        reveal(primes::shift);
    }
    let e = primes::lemma_pow_digit(power_r_base(), e, 3, power_r_base3(), r());
    assert(primes::shift(0xafa615d887f18b3ecd3fde847129641b38526ce34ecac3d964ff2a88e733a1eint, power_r_base3(), r()) == 0x2d6b25b948ad8c05c33dc8dd5272edf88dd4ca068b80f6dab707641c52302d5int) by (nonlinear_arith) {
        reveal(primes::shift);
    }
    let e = primes::lemma_pow_digit(power_r_base(), e, 2, power_r_base2(), r());
    assert(primes::shift(0x2d6b25b948ad8c05c33dc8dd5272edf88dd4ca068b80f6dab707641c52302d5int, power_r_base2(), r()) == 0xad8a194e3b34b00dc5f3581f0c3f3e1c8c12bc86b0dfa9ab3985cd0b7efe340int) by (nonlinear_arith) {
        reveal(primes::shift);
    }
    let e = primes::lemma_pow_digit(power_r_base(), e, 0, 1int, r());
    assert(primes::shift(0xad8a194e3b34b00dc5f3581f0c3f3e1c8c12bc86b0dfa9ab3985cd0b7efe340int, 1int, r()) == 0x1d4474536330649921f7164c1f26588f8eb779c1b911afe2367346a80dc91adeint) by (nonlinear_arith) {
        reveal(primes::shift);
    }
    let e = primes::lemma_pow_digit(power_r_base(), e, 3, power_r_base3(), r());
    assert(primes::shift(0x1d4474536330649921f7164c1f26588f8eb779c1b911afe2367346a80dc91adeint, power_r_base3(), r()) == 0x24aaa683e7f59cc1c1bc7883b29bffc41a85f992d9bd0f285261158569155625int) by (nonlinear_arith) {
        reveal(primes::shift);
    }
    let e = primes::lemma_pow_digit(power_r_base(), e, 2, power_r_base2(), r());
    assert(primes::shift(0x24aaa683e7f59cc1c1bc7883b29bffc41a85f992d9bd0f285261158569155625int, power_r_base2(), r()) == 0x14301cefa952f444889bfbdadbf32f48c3ac806bcc51084246c65974c6d35ec0int) by (nonlinear_arith) {
        reveal(primes::shift);
    }
    let e = primes::lemma_pow_digit(power_r_base(), e, 2, power_r_base2(), r());
    assert(primes::shift(0x14301cefa952f444889bfbdadbf32f48c3ac806bcc51084246c65974c6d35ec0int, power_r_base2(), r()) == 0x2d056fad7f257663aae9ba2f03b7304c6600298187274876be2353f10ff70b2fint) by (nonlinear_arith) {
        reveal(primes::shift);
    }
    let e = primes::lemma_pow_digit(power_r_base(), e, 3, power_r_base3(), r());
    assert(primes::shift(0x2d056fad7f257663aae9ba2f03b7304c6600298187274876be2353f10ff70b2fint, power_r_base3(), r()) == 0x12f85116896839ae56c6232304a95d8f7364f6fecd938c4b3e2c7a9f327b5c2int) by (nonlinear_arith) {
        reveal(primes::shift);
    }
    let e = primes::lemma_pow_digit(power_r_base(), e, 1, power_r_base(), r());
    assert(primes::shift(0x12f85116896839ae56c6232304a95d8f7364f6fecd938c4b3e2c7a9f327b5c2int, power_r_base(), r()) == 0x27453dd309c17eb67daf2f4254fec7073de9d5e582f256ac7fa2390132c95ea6int) by (nonlinear_arith) {
        reveal(primes::shift);
    }
    let e = primes::lemma_pow_digit(power_r_base(), e, 1, power_r_base(), r());
    assert(primes::shift(0x27453dd309c17eb67daf2f4254fec7073de9d5e582f256ac7fa2390132c95ea6int, power_r_base(), r()) == 1int) by (nonlinear_arith) {
        reveal(primes::shift);
    }
    assert(e == 0x5ef9dea338eb5int);
}

/// The scalar-field modulus is prime.
pub proof fn lemma_r_prime()
    ensures
        primes::prime(r()),
{
    root_r();
    power_r_over_1670836401704629();
    primes::lemma_pow_compose(2, 0x2ebdc5c80a962a8ce35030000000int as nat, 0x8fdf6a009ddb0f44829608cbae4d277cf3727232b632f357b4ae966ddb136a8int, 0x2ca6487cfcd795e8729527e1int as nat, r());
    assert(0x2ebdc5c80a962a8ce35030000000int * 0x2ca6487cfcd795e8729527e1int == 0x826fa48d33ee800159289ae6358fe5bac4c5f80f0ca30000000int) by (nonlinear_arith);
    power_r_over_13818364434197438864469338081();
    primes::lemma_pow_compose(2, 0x2ebdc5c80a962a8ce35030000000int as nat, 0x8fdf6a009ddb0f44829608cbae4d277cf3727232b632f357b4ae966ddb136a8int, 0x5ef9dea338eb5int as nat, r());
    assert(0x2ebdc5c80a962a8ce35030000000int * 0x5ef9dea338eb5int == 0x11574ddb3232514fb3c4e3e9c408cc251f0000000int) by (nonlinear_arith);
    power_r();
    primes::lemma_pow_compose(2, 0x826fa48d33ee800159289ae6358fe5bac4c5f80f0ca30000000int as nat, 0x2200524a255dbf6af47485a398ccebd619e3d57040f03e65be26ba6bf27f8ff3int, 0x5ef9dea338eb5int as nat, r());
    assert(0x826fa48d33ee800159289ae6358fe5bac4c5f80f0ca30000000int * 0x5ef9dea338eb5int == 0x30644e72e131a029b85045b68181585d2833e84879b9709143e1f593f0000000int) by (nonlinear_arith);
    lemma_prime_13818364434197438864469338081();
    assert((0x299662f9e8574586530237c7b2e285cc00b75b8c63b1d725b7ffc6d604e94fc7int * 0x29a1d6cdff4615644953694b0908408f070056350f6009ad0924c654e07a589dint) % r() == 1) by (nonlinear_arith);
    assert(0x2ca6487cfcd795e8729527e1int * 0x11574ddb3232514fb3c4e3e9c408cc251f0000000int == 0x30644e72e131a029b85045b68181585d2833e84879b9709143e1f593f0000000int) by (nonlinear_arith);
    lemma_cofactor(r(), 0x2ca6487cfcd795e8729527e1int, 0x11574ddb3232514fb3c4e3e9c408cc251f0000000int, 0x299662f9e8574586530237c7b2e285cc00b75b8c63b1d725b7ffc6d604e94fc8int, 0x29a1d6cdff4615644953694b0908408f070056350f6009ad0924c654e07a589dint);
    lemma_prime_1670836401704629();
    assert((0x2200524a255dbf6af47485a398ccebd619e3d57040f03e65be26ba6bf27f8ff2int * 0x30b43c635b2375e9f82f247135e791541018e190295925392ce8c12f2bea62int) % r() == 1) by (nonlinear_arith);
    assert(0x5ef9dea338eb5int * 0x826fa48d33ee800159289ae6358fe5bac4c5f80f0ca30000000int == 0x30644e72e131a029b85045b68181585d2833e84879b9709143e1f593f0000000int) by (nonlinear_arith);
    lemma_cofactor(r(), 0x5ef9dea338eb5int, 0x826fa48d33ee800159289ae6358fe5bac4c5f80f0ca30000000int, 0x2200524a255dbf6af47485a398ccebd619e3d57040f03e65be26ba6bf27f8ff3int, 0x30b43c635b2375e9f82f247135e791541018e190295925392ce8c12f2bea62int);
    assert(0x2ca6487cfcd795e8729527e1int % 0x5ef9dea338eb5int != 0) by (nonlinear_arith);
    primes::lemma_pocklington_combine(r(), 0x2ca6487cfcd795e8729527e1int, 0x5ef9dea338eb5int);
    assert(0x2ca6487cfcd795e8729527e1int * 0x5ef9dea338eb5int == 0x1090a32f11130c07f3208fcb89b0f5b670015int) by (nonlinear_arith);
    assert((0x1090a32f11130c07f3208fcb89b0f5b670015int + 1) * (0x1090a32f11130c07f3208fcb89b0f5b670015int + 1) > r()) by (nonlinear_arith);
    primes::lemma_pocklington(r(), 0x1090a32f11130c07f3208fcb89b0f5b670015int);
}

} // verus!
