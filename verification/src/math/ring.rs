//! Commutative rings and a transfer principle: a polynomial identity that
//! holds for all integers holds for all members of every commutative ring.
//! Curve and field identities are therefore proved once, over the integers.

use vstd::arithmetic::mul::*;
use vstd::prelude::*;

verus! {

/// A commutative ring with one, carried by the values of a type that satisfy
/// [`Ring::wf`].
pub trait Ring: Sized {
    /// Membership: the value is a ring element.
    spec fn wf(self) -> bool;

    /// Zero.
    spec fn zero_spec() -> Self;

    /// One.
    spec fn one_spec() -> Self;

    /// Addition, written `a + b`.
    spec fn spec_add(self, other: Self) -> Self;

    /// Subtraction, written `a - b`.
    spec fn spec_sub(self, other: Self) -> Self;

    /// Multiplication, written `a * b`.
    spec fn spec_mul(self, other: Self) -> Self;

    /// Negation, written `-a`.
    spec fn spec_neg(self) -> Self;

    /// Zero and one are members.
    proof fn constants_wf()
        ensures
            Self::zero_spec().wf(),
            Self::one_spec().wf(),
    ;

    /// The operations stay inside the ring.
    proof fn closed(a: Self, b: Self)
        requires
            a.wf(),
            b.wf(),
        ensures
            (a + b).wf(),
            (a - b).wf(),
            (a * b).wf(),
            (-a).wf(),
    ;

    /// The additive laws.
    proof fn additive(a: Self, b: Self, c: Self)
        requires
            a.wf(),
            b.wf(),
            c.wf(),
        ensures
            a + b == b + a,
            (a + b) + c == a + (b + c),
            a + Self::zero_spec() == a,
            a + (-a) == Self::zero_spec(),
            a - b == a + (-b),
    ;

    /// The multiplicative laws.
    proof fn multiplicative(a: Self, b: Self, c: Self)
        requires
            a.wf(),
            b.wf(),
            c.wf(),
        ensures
            a * b == b * a,
            (a * b) * c == a * (b * c),
            a * Self::one_spec() == a,
            a * (b + c) == a * b + a * c,
    ;
}

/// The integers as a ring.
pub struct Z(pub int);

impl Ring for Z {
    open spec fn wf(self) -> bool {
        true
    }

    open spec fn zero_spec() -> Self {
        Z(0)
    }

    open spec fn one_spec() -> Self {
        Z(1)
    }

    open spec fn spec_add(self, other: Self) -> Self {
        Z(self.0 + other.0)
    }

    open spec fn spec_sub(self, other: Self) -> Self {
        Z(self.0 - other.0)
    }

    open spec fn spec_mul(self, other: Self) -> Self {
        Z(self.0 * other.0)
    }

    open spec fn spec_neg(self) -> Self {
        Z(-self.0)
    }

    proof fn constants_wf() {
    }

    proof fn closed(a: Self, b: Self) {
    }

    proof fn additive(a: Self, b: Self, c: Self) {
    }

    proof fn multiplicative(a: Self, b: Self, c: Self) {
        lemma_mul_is_commutative(a.0, b.0);
        lemma_mul_is_associative(a.0, b.0, c.0);
        lemma_mul_is_distributive_add(a.0, b.0, c.0);
    }
}

// ---- membership -------------------------------------------------------------------

/// Zero is a member.
pub broadcast proof fn lemma_wf_zero<R: Ring>()
    ensures
        (#[trigger] R::zero_spec()).wf(),
{
    R::constants_wf();
}

/// One is a member.
pub broadcast proof fn lemma_wf_one<R: Ring>()
    ensures
        (#[trigger] R::one_spec()).wf(),
{
    R::constants_wf();
}

/// Sums are members.
pub broadcast proof fn lemma_wf_add<R: Ring>(a: R, b: R)
    requires
        a.wf(),
        b.wf(),
    ensures
        (#[trigger] (a + b)).wf(),
{
    R::closed(a, b);
}

/// Differences are members.
pub broadcast proof fn lemma_wf_sub<R: Ring>(a: R, b: R)
    requires
        a.wf(),
        b.wf(),
    ensures
        (#[trigger] (a - b)).wf(),
{
    R::closed(a, b);
}

/// Products are members.
pub broadcast proof fn lemma_wf_mul<R: Ring>(a: R, b: R)
    requires
        a.wf(),
        b.wf(),
    ensures
        (#[trigger] (a * b)).wf(),
{
    R::closed(a, b);
}

/// Negatives are members.
pub broadcast proof fn lemma_wf_neg<R: Ring>(a: R)
    requires
        a.wf(),
    ensures
        (#[trigger] (-a)).wf(),
{
    R::closed(a, a);
}

/// Membership of every value built by the ring operations.
pub broadcast group group_wf {
    lemma_wf_zero,
    lemma_wf_one,
    lemma_wf_add,
    lemma_wf_sub,
    lemma_wf_mul,
    lemma_wf_neg,
}

// ---- basic consequences of the laws -------------------------------------------

/// Zero annihilates.
pub proof fn lemma_mul_zero<R: Ring>(a: R)
    requires
        a.wf(),
    ensures
        a * R::zero_spec() == R::zero_spec(),
        R::zero_spec() * a == R::zero_spec(),
{
    let z = R::zero_spec();
    R::constants_wf();
    R::closed(a, z);
    let x = a * z;
    R::additive(z, z, z);
    R::multiplicative(a, z, z);
    assert(x + x == x);
    R::closed(x, x);
    R::additive(x, x, -x);
    R::additive(x, z, z);
    assert(x == x + (x + (-x)));
}

/// Negation is multiplication by minus one.
pub proof fn lemma_neg_one<R: Ring>(a: R)
    requires
        a.wf(),
    ensures
        -a == (-R::one_spec()) * a,
{
    let one = R::one_spec();
    let z = R::zero_spec();
    R::constants_wf();
    R::closed(one, one);
    R::closed(a, a);
    let m = -one;
    R::closed(m, a);
    R::additive(one, one, one);
    R::multiplicative(a, one, m);
    R::multiplicative(m, a, a);
    lemma_mul_zero(a);
    // a + (-1)a = 0
    assert(a + m * a == z);
    R::additive(-a, a, m * a);
    R::additive(a, a, a);
    R::additive(-a, z, z);
    R::additive(m * a, z, z);
    R::additive(z, m * a, z);
    assert((-a + a) + m * a == -a + (a + m * a));
}

/// A difference is zero exactly when its terms are equal.
pub proof fn lemma_sub_zero<R: Ring>(a: R, b: R)
    requires
        a.wf(),
        b.wf(),
    ensures
        a - b == R::zero_spec() <==> a == b,
{
    broadcast use group_wf;

    let z = R::zero_spec();
    R::additive(a, b, b);
    R::additive(a, -b, b);
    R::additive(b, -b, z);
    R::additive(b, b, b);
    R::additive(a, z, z);
    R::additive(z, b, z);
    R::additive(-b, b, z);
}

/// The negative is the only complement.
pub proof fn lemma_neg_unique<R: Ring>(a: R, c: R)
    requires
        a.wf(),
        c.wf(),
        a + c == R::zero_spec(),
    ensures
        c == -a,
        a == -c,
{
    broadcast use group_wf;

    let z = R::zero_spec();
    R::additive(a, c, -a);
    R::additive(c, a, -a);
    R::additive(z, -a, z);
    R::additive(-a, z, z);
    R::additive(c, z, z);
    R::additive(c, c, c);
    R::additive(a, c, -c);
    R::additive(a, z, z);
    R::additive(z, -c, z);
    R::additive(-c, z, z);
}

/// Negation undoes itself.
pub proof fn lemma_neg_neg<R: Ring>(a: R)
    requires
        a.wf(),
    ensures
        -(-a) == a,
{
    broadcast use group_wf;

    R::additive(a, -a, a);
    lemma_neg_unique(a, -a);
}

/// Zero is its own negative.
pub proof fn lemma_neg_zero<R: Ring>()
    ensures
        -R::zero_spec() == R::zero_spec(),
{
    broadcast use group_wf;

    let z = R::zero_spec();
    R::additive(z, z, z);
    lemma_neg_unique(z, z);
}

/// Signs in products.
pub proof fn lemma_neg_mul<R: Ring>(a: R, b: R)
    requires
        a.wf(),
        b.wf(),
    ensures
        (-a) * b == -(a * b),
        a * (-b) == -(a * b),
        (-a) * (-b) == a * b,
{
    broadcast use group_wf;

    R::multiplicative(b, a, -a);
    R::multiplicative(a, b, -b);
    R::multiplicative(-a, b, b);
    R::additive(a, a, a);
    R::additive(b, b, b);
    lemma_mul_zero(a);
    lemma_mul_zero(b);
    lemma_neg_unique(a * b, (-a) * b);
    lemma_neg_unique(a * b, a * (-b));
    R::multiplicative(-a, b, -b);
    lemma_mul_zero(-a);
    lemma_neg_unique((-a) * b, (-a) * (-b));
    lemma_neg_neg(a * b);
}

/// Signs in sums.
pub proof fn lemma_neg_add<R: Ring>(a: R, b: R)
    requires
        a.wf(),
        b.wf(),
    ensures
        (-a) + (-b) == -(a + b),
{
    broadcast use group_wf;

    let z = R::zero_spec();
    R::additive(a + b, -a, -b);
    R::additive(a, b, -a);
    R::additive(b, -a, z);
    R::additive(b, a, -a);
    R::additive(a, a, a);
    R::additive(b, z, z);
    R::additive(b, b, b);
    R::additive(a, b, b);
    lemma_neg_unique(a + b, (-a) + (-b));
}

// ---- fields -------------------------------------------------------------------------

/// A field of characteristic other than two.
pub trait FieldLaws: Ring {
    /// The inverse of a nonzero element.
    spec fn inv_spec(self) -> Self;

    /// The inverse law.
    proof fn inverse_law(a: Self)
        requires
            a.wf(),
            a != Self::zero_spec(),
        ensures
            a.inv_spec().wf(),
            a * a.inv_spec() == Self::one_spec(),
    ;

    /// Two is not zero.
    proof fn two_nonzero()
        ensures
            Self::one_spec() + Self::one_spec() != Self::zero_spec(),
    ;

    /// Three is not zero.
    proof fn three_nonzero()
        ensures
            Self::one_spec() + Self::one_spec() + Self::one_spec() != Self::zero_spec(),
    ;
}

/// A field has no zero divisors.
pub proof fn lemma_domain<K: FieldLaws>(a: K, b: K)
    requires
        a.wf(),
        b.wf(),
        a * b == K::zero_spec(),
    ensures
        a == K::zero_spec() || b == K::zero_spec(),
{
    broadcast use group_wf;

    if a != K::zero_spec() {
        K::inverse_law(a);
        let i = a.inv_spec();
        K::multiplicative(i, a, b);
        K::multiplicative(a, i, b);
        K::multiplicative(b, K::one_spec(), b);
        lemma_mul_zero(i);
    }
}

/// Nonzero factors cancel.
pub proof fn lemma_cancel<K: FieldLaws>(c: K, a: K, b: K)
    requires
        a.wf(),
        b.wf(),
        c.wf(),
        c != K::zero_spec(),
        c * a == c * b,
    ensures
        a == b,
{
    broadcast use group_wf;

    K::inverse_law(c);
    let i = c.inv_spec();
    K::multiplicative(i, c, a);
    K::multiplicative(i, c, b);
    K::multiplicative(a, K::one_spec(), a);
    K::multiplicative(b, K::one_spec(), b);
}

/// A quotient times its divisor.
pub proof fn lemma_quotient<K: FieldLaws>(a: K, d: K)
    requires
        a.wf(),
        d.wf(),
        d != K::zero_spec(),
    ensures
        (a * d.inv_spec()) * d == a,
        (a * d.inv_spec()).wf(),
{
    broadcast use group_wf;

    K::inverse_law(d);
    let i = d.inv_spec();
    K::multiplicative(a, i, d);
    K::multiplicative(d, i, d);
    K::multiplicative(a, K::one_spec(), a);
}

/// The quotient is the only solution.
pub proof fn lemma_quotient_unique<K: FieldLaws>(l: K, d: K, a: K)
    requires
        l.wf(),
        d.wf(),
        d != K::zero_spec(),
        l * d == a,
    ensures
        a * d.inv_spec() == l,
{
    broadcast use group_wf;

    K::inverse_law(d);
    let i = d.inv_spec();
    K::multiplicative(l, d, i);
    K::multiplicative(l, K::one_spec(), l);
}

/// Twice a nonzero element is nonzero.
pub proof fn lemma_double_nonzero<K: FieldLaws>(y: K)
    requires
        y.wf(),
        y != K::zero_spec(),
    ensures
        y + y != K::zero_spec(),
{
    broadcast use group_wf;

    let one = K::one_spec();
    K::multiplicative(y, one, one);
    K::two_nonzero();
    if y + y == K::zero_spec() {
        lemma_domain(y, one + one);
    }
}

/// `3y` is nonzero with `y`.
pub proof fn lemma_triple_nonzero<K: FieldLaws>(y: K)
    requires
        y.wf(),
        y != K::zero_spec(),
    ensures
        y + y + y != K::zero_spec(),
{
    broadcast use group_wf;

    let one = K::one_spec();
    K::multiplicative(y, one, one);
    K::multiplicative(y, one + one, one);
    K::three_nonzero();
    if y + y + y == K::zero_spec() {
        lemma_domain(y, one + one + one);
    }
}

/// Zero and one differ.
pub proof fn lemma_one_nonzero<K: FieldLaws>()
    ensures
        K::one_spec() != K::zero_spec(),
{
    broadcast use group_wf;

    K::two_nonzero();
    K::additive(K::zero_spec(), K::zero_spec(), K::zero_spec());
}

// ---- powers -----------------------------------------------------------------------------

/// `a^n`.
pub open spec fn power<R: Ring>(a: R, n: nat) -> R
    decreases n,
{
    if n == 0 {
        R::one_spec()
    } else {
        power(a, (n - 1) as nat) * a
    }
}

/// `a^n` by squaring and multiplying, from the highest bit of `n` down. For members this is the
/// power; elsewhere the order of the products may matter.
pub open spec fn binary_power<R: Ring>(a: R, n: nat) -> R
    decreases n,
{
    if n == 0 {
        R::one_spec()
    } else {
        let h = binary_power(a, n / 2);
        if n % 2 == 1 {
            h * h * a
        } else {
            h * h
        }
    }
}

/// One bit more of the exponent.
pub proof fn lemma_binary_power_step<R: Ring>(a: R, h: nat, bit: bool)
    ensures
        binary_power(
            a,
            2 * h + (if bit {
                1nat
            } else {
                0nat
            }),
        ) == (if bit {
            binary_power(a, h) * binary_power(a, h) * a
        } else {
            binary_power(a, h) * binary_power(a, h)
        }),
{
    let one = R::one_spec();
    if h == 0 && !bit {
        R::constants_wf();
        R::multiplicative(one, one, one);
    } else {
        let n = 2 * h + (if bit {
            1nat
        } else {
            0nat
        });
        assert(n / 2 == h);
        assert(n % 2 == (if bit {
            1nat
        } else {
            0nat
        }));
    }
}

/// Squaring and multiplying gives the power.
pub proof fn lemma_binary_power<R: Ring>(a: R, n: nat)
    requires
        a.wf(),
    ensures
        binary_power(a, n) == power(a, n),
    decreases n,
{
    if n > 0 {
        let h = n / 2;
        lemma_binary_power(a, h);
        lemma_power_adds(a, h, h);
        if n % 2 == 1 {
            assert(n - 1 == h + h);
        } else {
            assert(n == h + h);
        }
    }
}

/// Powers are members.
pub broadcast proof fn lemma_wf_power<R: Ring>(a: R, n: nat)
    requires
        a.wf(),
    ensures
        (#[trigger] power(a, n)).wf(),
    decreases n,
{
    R::constants_wf();
    if n > 0 {
        lemma_wf_power(a, (n - 1) as nat);
        R::closed(power(a, (n - 1) as nat), a);
    }
}

/// Exponents add.
pub proof fn lemma_power_adds<R: Ring>(a: R, m: nat, n: nat)
    requires
        a.wf(),
    ensures
        power(a, m + n) == power(a, m) * power(a, n),
    decreases n,
{
    broadcast use {group_wf, lemma_wf_power};

    let x = power(a, m);
    R::multiplicative(x, x, x);
    if n > 0 {
        lemma_power_adds(a, m, (n - 1) as nat);
        R::multiplicative(x, power(a, (n - 1) as nat), a);
    }
}

/// Exponents multiply.
pub proof fn lemma_power_multiplies<R: Ring>(a: R, m: nat, n: nat)
    requires
        a.wf(),
    ensures
        power(a, m * n) == power(power(a, m), n),
    decreases n,
{
    broadcast use {group_wf, lemma_wf_power};

    if n > 0 {
        lemma_power_multiplies(a, m, (n - 1) as nat);
        lemma_power_adds(a, m * (n - 1) as nat, m);
        lemma_mul_is_distributive_sub(m as int, n as int, 1);
        lemma_mul_basics(m as int);
        assert(m * (n - 1) as nat + m == m * n);
    } else {
        lemma_mul_basics(m as int);
    }
}

/// Powers of products.
pub proof fn lemma_power_distributes<R: Ring>(a: R, b: R, n: nat)
    requires
        a.wf(),
        b.wf(),
    ensures
        power(a * b, n) == power(a, n) * power(b, n),
    decreases n,
{
    broadcast use {group_wf, lemma_wf_power};

    let one = R::one_spec();
    R::multiplicative(one, one, one);
    if n > 0 {
        let m = (n - 1) as nat;
        lemma_power_distributes(a, b, m);
        let (x, y) = (power(a, m), power(b, m));
        // (x y)(a b) == (x a)(y b)
        R::multiplicative(x, y, a * b);
        R::multiplicative(y, a, b);
        R::multiplicative(a, y, b);
        R::multiplicative(x, a, y * b);
    }
}

/// Powers of one.
pub proof fn lemma_power_one<R: Ring>(n: nat)
    ensures
        power(R::one_spec(), n) == R::one_spec(),
    decreases n,
{
    R::constants_wf();
    if n > 0 {
        lemma_power_one::<R>((n - 1) as nat);
        R::multiplicative(R::one_spec(), R::one_spec(), R::one_spec());
    }
}

/// The first powers.
pub proof fn lemma_power_small<R: Ring>(a: R)
    requires
        a.wf(),
    ensures
        power(a, 0) == R::one_spec(),
        power(a, 1) == a,
        power(a, 2) == a * a,
{
    R::constants_wf();
    reveal_with_fuel(power, 3);
    R::multiplicative(a, R::one_spec(), a);
    R::multiplicative(R::one_spec(), a, a);
}

/// Powers of minus one.
pub proof fn lemma_power_minus_one<R: Ring>(k: nat)
    ensures
        power(-R::one_spec(), 2 * k) == R::one_spec(),
        power(-R::one_spec(), 2 * k + 1) == -R::one_spec(),
{
    broadcast use {group_wf, lemma_wf_power};

    let one = R::one_spec();
    let m = -one;
    lemma_power_small(m);
    lemma_power_multiplies(m, 2, k);
    lemma_neg_mul(one, one);
    R::multiplicative(one, m, one);
    R::multiplicative(m, one, one);
    lemma_power_one::<R>(k);
    lemma_power_adds(m, 2 * k, 1);
}

// ---- integers in a ring ---------------------------------------------------------

/// The image of an integer.
pub open spec fn embed<R: Ring>(n: int) -> R
    decreases
        (if n < 0 {
            -n
        } else {
            n
        }),
{
    if n == 0 {
        R::zero_spec()
    } else if n > 0 {
        embed::<R>(n - 1) + R::one_spec()
    } else {
        embed::<R>(n + 1) - R::one_spec()
    }
}

/// The image of one.
pub proof fn lemma_embed_one<R: Ring>()
    ensures
        embed::<R>(1) == R::one_spec(),
{
    R::constants_wf();
    let (one, z) = (R::one_spec(), R::zero_spec());
    assert(embed::<R>(0) == z);
    R::additive(z, one, z);
    R::additive(one, z, z);
}

/// The image of an integer is a ring element.
pub proof fn lemma_embed_wf<R: Ring>(n: int)
    ensures
        embed::<R>(n).wf(),
    decreases
            (if n < 0 {
                -n
            } else {
                n
            }),
{
    R::constants_wf();
    if n > 0 {
        lemma_embed_wf::<R>(n - 1);
        R::closed(embed::<R>(n - 1), R::one_spec());
    } else if n < 0 {
        lemma_embed_wf::<R>(n + 1);
        R::closed(embed::<R>(n + 1), R::one_spec());
    }
}

proof fn lemma_embed_step<R: Ring>(n: int)
    ensures
        embed::<R>(n + 1) == embed::<R>(n) + R::one_spec(),
        embed::<R>(n - 1) == embed::<R>(n) - R::one_spec(),
        embed::<R>(n).wf(),
{
    let one = R::one_spec();
    R::constants_wf();
    lemma_embed_wf::<R>(n);
    lemma_embed_wf::<R>(n + 1);
    lemma_embed_wf::<R>(n - 1);
    R::closed(one, one);
    let a = embed::<R>(n + 1);
    let b = embed::<R>(n - 1);
    R::additive(a, one, one);
    R::additive(b, one, one);
    R::additive(a, -one, one);
    R::additive(b, one, -one);
    R::additive(-one, one, one);
    R::additive(one, -one, one);
    R::additive(embed::<R>(n), one, one);
}

/// The embedding respects sums.
pub proof fn lemma_embed_add<R: Ring>(a: int, b: int)
    ensures
        embed::<R>(a + b) == embed::<R>(a) + embed::<R>(b),
    decreases
            (if b < 0 {
                -b
            } else {
                b
            }),
{
    let one = R::one_spec();
    let x = embed::<R>(a);
    R::constants_wf();
    R::closed(one, one);
    lemma_embed_wf::<R>(a);
    lemma_embed_wf::<R>(b);
    R::additive(x, x, x);
    if b > 0 {
        lemma_embed_add::<R>(a, b - 1);
        lemma_embed_step::<R>(a + b - 1);
        lemma_embed_wf::<R>(b - 1);
        R::additive(x, embed::<R>(b - 1), one);
    } else if b < 0 {
        lemma_embed_add::<R>(a, b + 1);
        lemma_embed_step::<R>(a + b + 1);
        lemma_embed_wf::<R>(b + 1);
        R::closed(x, embed::<R>(b + 1));
        R::additive(x, embed::<R>(b + 1), -one);
        R::additive(x + embed::<R>(b + 1), one, one);
        R::additive(embed::<R>(b + 1), one, one);
    }
}

/// The embedding respects products.
pub proof fn lemma_embed_mul<R: Ring>(a: int, b: int)
    ensures
        embed::<R>(a * b) == embed::<R>(a) * embed::<R>(b),
    decreases
            (if b < 0 {
                -b
            } else {
                b
            }),
{
    let one = R::one_spec();
    let x = embed::<R>(a);
    R::constants_wf();
    R::closed(one, one);
    lemma_embed_wf::<R>(a);
    lemma_mul_zero(x);
    lemma_mul_basics(a);
    if b > 0 {
        let y = embed::<R>(b - 1);
        lemma_embed_wf::<R>(b - 1);
        lemma_embed_mul::<R>(a, b - 1);
        lemma_embed_add::<R>(a * (b - 1), a);
        lemma_mul_is_distributive_sub(a, b, 1);
        R::multiplicative(x, y, one);
    } else if b < 0 {
        let y = embed::<R>(b + 1);
        lemma_embed_wf::<R>(b + 1);
        lemma_embed_mul::<R>(a, b + 1);
        lemma_embed_add::<R>(a * b, a);
        lemma_embed_wf::<R>(a * b);
        lemma_mul_is_distributive_add(a, b, 1);
        let w = embed::<R>(a * b);
        // w + x = x y, and x (y - 1) = x y - x
        R::closed(y, one);
        R::multiplicative(x, y, -one);
        R::multiplicative(x, -one, one);
        R::multiplicative(-one, x, one);
        lemma_neg_one(x);
        R::additive(y, one, one);
        R::closed(x, x);
        R::additive(w, x, -x);
        R::additive(w, w, w);
        R::additive(x, x, x);
        assert((w + x) + (-x) == w + (x + (-x)));
    }
}

} // verus!
