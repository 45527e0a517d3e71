//! Elementary number theory: primes, Euclid's lemma, Fermat's little theorem
//! and Pocklington's criterion, which turns a partial factorisation of `n - 1`
//! into a proof that `n` is prime.

use vstd::arithmetic::div_mod::*;
use vstd::arithmetic::mul::*;
use vstd::arithmetic::power::*;
use vstd::prelude::*;
use vstd::set_lib::*;

verus! {

/// `p` is greater than one and nothing strictly between divides it.
pub open spec fn prime(p: int) -> bool {
    &&& p > 1
    &&& forall|d: int| 1 < d < p ==> #[trigger] (p % d) != 0
}

/// A multiple of `m` leaves remainder zero.
pub proof fn lemma_multiple(k: int, m: int)
    requires
        m > 0,
    ensures
        (k * m) % m == 0,
        (m * k) % m == 0,
{
    lemma_mod_multiples_basic(k, m);
    lemma_mul_is_commutative(k, m);
}

/// Remainder zero names a quotient.
pub proof fn lemma_quotient(a: int, m: int) -> (k: int)
    requires
        m > 0,
        a % m == 0,
    ensures
        a == k * m,
        a == m * k,
{
    lemma_fundamental_div_mod(a, m);
    lemma_mul_is_commutative(m, a / m);
    a / m
}

/// Divisibility is transitive.
pub proof fn lemma_divides_trans(a: int, b: int, c: int)
    requires
        a > 0,
        b > 0,
        b % a == 0,
        c % b == 0,
    ensures
        c % a == 0,
{
    let j = lemma_quotient(b, a);
    let k = lemma_quotient(c, b);
    lemma_mul_is_associative(k, j, a);
    lemma_multiple(k * j, a);
}

/// Two numbers are congruent exactly when their difference is a multiple.
pub proof fn lemma_congruent(a: int, b: int, m: int)
    requires
        m > 0,
    ensures
        a % m == b % m <==> (a - b) % m == 0,
{
    lemma_mod_equivalence(a, b, m);
}

proof fn lemma_euclid_small(p: int, m: int, b: int)
    requires
        prime(p),
        0 < m < p,
        (m * b) % p == 0,
    ensures
        b % p == 0,
    decreases m,
{
    if m > 1 {
        let s = p % m;
        let k = p / m;
        lemma_fundamental_div_mod(p, m);
        assert(p % m != 0);
        lemma_mod_bound(p, m);
        let j = lemma_quotient(m * b, p);
        assert(s * b == (b - k * j) * p) by (nonlinear_arith)
            requires
                p == m * k + s,
                m * b == j * p,
        ;
        lemma_multiple(b - k * j, p);
        lemma_euclid_small(p, s, b);
    } else {
        lemma_mul_basics(b);
    }
}

/// Euclid's lemma: a prime that divides a product divides a factor.
pub proof fn lemma_euclid(p: int, a: int, b: int)
    requires
        prime(p),
        (a * b) % p == 0,
    ensures
        a % p == 0 || b % p == 0,
{
    if a % p != 0 {
        lemma_mod_bound(a, p);
        lemma_mul_mod_noop_left(a, b, p);
        lemma_euclid_small(p, a % p, b);
    }
}

// ---- Fermat -----------------------------------------------------------------

/// The product of a finite set of integers.
spec fn set_product(s: Set<int>) -> int
    decreases s.len(),
{
    if s.finite() && s.len() > 0 {
        s.choose() * set_product(s.remove(s.choose()))
    } else {
        1
    }
}

proof fn lemma_set_product_remove(s: Set<int>, x: int)
    requires
        s.finite(),
        s.contains(x),
    ensures
        set_product(s) == x * set_product(s.remove(x)),
    decreases s.len(),
{
    let c = s.choose();
    assert(s.contains(c));
    if c != x {
        lemma_set_product_remove(s.remove(c), x);
        lemma_set_product_remove(s.remove(x), c);
        assert(s.remove(c).remove(x) =~= s.remove(x).remove(c));
        let t = set_product(s.remove(c).remove(x));
        assert(c * (x * t) == x * (c * t)) by (nonlinear_arith);
    }
}

/// The residues `a·1, …, a·n` modulo `p`.
spec fn residues(a: int, n: int, p: int) -> Set<int>
    decreases n,
{
    if n <= 0 {
        Set::empty()
    } else {
        residues(a, n - 1, p).insert((a * n) % p)
    }
}

proof fn lemma_residues(a: int, n: int, p: int)
    requires
        prime(p),
        a % p != 0,
        0 <= n < p,
    ensures
        residues(a, n, p).finite(),
        residues(a, n, p).len() == n,
        forall|x: int| #[trigger] residues(a, n, p).contains(x) ==> 0 < x < p && exists|i: int|
            1 <= i <= n && x == #[trigger] ((a * i) % p),
        (set_product(residues(a, n, p)) - pow(a, n as nat) * factorial(n)) % p == 0,
    decreases n,
{
    reveal(pow);
    if n > 0 {
        lemma_residues(a, n - 1, p);
        let prev = residues(a, n - 1, p);
        let x = (a * n) % p;
        lemma_mod_bound(a * n, p);
        if x == 0 {
            lemma_euclid(p, a, n);
            lemma_small_mod(n as nat, p as nat);
        }
        if prev.contains(x) {
            let i = choose|i: int| 1 <= i <= n - 1 && x == #[trigger] ((a * i) % p);
            lemma_congruent(a * n, a * i, p);
            lemma_mul_is_distributive_sub(a, n, i);
            lemma_euclid(p, a, n - i);
            lemma_small_mod((n - i) as nat, p as nat);
        }
        let s = prev.insert(x);
        assert(s.remove(x) =~= prev);
        lemma_set_product_remove(s, x);
        let k = (a * n) / p;
        lemma_fundamental_div_mod(a * n, p);
        let u = pow(a, (n - 1) as nat);
        let v = factorial(n - 1);
        let f = lemma_quotient(set_product(prev) - u * v, p);
        assert(x * (u * v + f * p) == (a * u) * (n * v) + (x * f - k * (u * v)) * p) by {
            assert(x * (u * v + f * p) == x * (u * v) + (x * f) * p) by (nonlinear_arith);
            assert(x * (u * v) == (a * n) * (u * v) - (p * k) * (u * v)) by (nonlinear_arith)
                requires
                    x == a * n - p * k,
            ;
            assert((a * n) * (u * v) == (a * u) * (n * v)) by (nonlinear_arith);
            assert((p * k) * (u * v) == (k * (u * v)) * p) by (nonlinear_arith);
            lemma_mul_is_distributive_sub_other_way(p, x * f, k * (u * v));
        }
        assert(set_product(s) - pow(a, n as nat) * factorial(n) == (x * f - k * (u * v)) * p);
        lemma_multiple(x * f - k * (u * v), p);
        assert forall|y: int| #[trigger] s.contains(y) implies 0 < y < p && exists|i: int|
            1 <= i <= n && y == #[trigger] ((a * i) % p) by {
            if y == x {
                assert(1 <= n <= n && y == (a * n) % p);
            } else {
                assert(prev.contains(y));
                let i = choose|i: int| 1 <= i <= n - 1 && y == #[trigger] ((a * i) % p);
                assert(1 <= i <= n);
            }
        }
    } else {
        assert(pow(a, 0) == 1);
        lemma_multiple(0, p);
    }
}

spec fn factorial(n: int) -> int
    decreases n,
{
    if n <= 0 {
        1
    } else {
        n * factorial(n - 1)
    }
}

proof fn lemma_factorial_coprime(n: int, p: int)
    requires
        prime(p),
        0 <= n < p,
    ensures
        factorial(n) % p != 0,
    decreases n,
{
    if n > 0 {
        lemma_factorial_coprime(n - 1, p);
        if factorial(n) % p == 0 {
            lemma_euclid(p, n, factorial(n - 1));
            lemma_small_mod(n as nat, p as nat);
        }
    } else {
        lemma_small_mod(1, p as nat);
    }
}

/// Fermat's little theorem.
pub proof fn lemma_fermat(a: int, p: int)
    requires
        prime(p),
        a % p != 0,
    ensures
        pow(a, (p - 1) as nat) % p == 1,
{
    let n = p - 1;
    lemma_small_mod(1, p as nat);
    lemma_residues(a, n, p);
    lemma_residues(1, n, p);
    let s = residues(a, n, p);
    let t = residues(1, n, p);
    let full = set_int_range(1, p);
    lemma_int_range(1, p);
    assert(s.subset_of(full));
    assert(t.subset_of(full));
    lemma_subset_equality(s, full);
    lemma_subset_equality(t, full);
    lemma1_pow(n as nat);
    let w = factorial(n);
    let u = pow(a, n as nat);
    let f = lemma_quotient(set_product(s) - u * w, p);
    let g = lemma_quotient(set_product(t) - 1 * w, p);
    assert((u - 1) * w == (g - f) * p) by (nonlinear_arith)
        requires
            u * w + f * p == 1 * w + g * p,
    ;
    lemma_multiple(g - f, p);
    lemma_euclid(p, u - 1, w);
    lemma_factorial_coprime(n, p);
    lemma_congruent(u, 1, p);
}

// ---- Pocklington ------------------------------------------------------------

/// Every prime factor of `n` leaves remainder one modulo `f`.
pub open spec fn factors_one_mod(n: int, f: int) -> bool {
    forall|p: int| prime(p) && #[trigger] (n % p) == 0 ==> (p - 1) % f == 0
}

proof fn lemma_least_factor_from(n: int, d: int) -> (p: int)
    requires
        2 <= d <= n,
        forall|e: int| 2 <= e < d ==> #[trigger] (n % e) != 0,
    ensures
        prime(p),
        n % p == 0,
        forall|e: int| 2 <= e < p ==> #[trigger] (n % e) != 0,
    decreases n - d,
{
    if n % d == 0 {
        assert forall|e: int| 1 < e < d implies #[trigger] (d % e) != 0 by {
            if d % e == 0 {
                lemma_divides_trans(e, d, n);
            }
        }
        d
    } else {
        if d == n {
            lemma_mod_self_0(n);
        }
        lemma_least_factor_from(n, d + 1)
    }
}

/// The least factor above one: it is prime, and its square does not exceed a
/// composite number.
pub proof fn lemma_least_factor(n: int) -> (p: int)
    requires
        n > 1,
    ensures
        prime(p),
        n % p == 0,
        !prime(n) ==> p * p <= n,
{
    let p = lemma_least_factor_from(n, 2);
    if !prime(n) {
        let e = choose|e: int| 1 < e < n && #[trigger] (n % e) == 0;
        assert(p <= e);
        let k = lemma_quotient(n, p);
        assert(1 < k) by (nonlinear_arith)
            requires
                n == k * p,
                1 < p < n,
        ;
        lemma_multiple(p, k);
        assert(n % k == 0);
        assert(p <= k);
        lemma_mul_inequality(p, k, p);
    }
    p
}

/// Powers of a number congruent to one are congruent to one.
pub proof fn lemma_pow_of_one(x: int, e: nat, m: int)
    requires
        m > 1,
        x % m == 1,
    ensures
        pow(x, e) % m == 1,
{
    lemma_pow_mod_noop(x, e, m);
    lemma1_pow(e);
    lemma_small_mod(1, m as nat);
}

proof fn lemma_one_mod_factor(x: int, n: int, p: int)
    requires
        p > 1,
        n > 1,
        n % p == 0,
        x % n == 1,
    ensures
        x % p == 1,
{
    lemma_small_mod(1, n as nat);
    lemma_small_mod(1, p as nat);
    lemma_congruent(x, 1, n);
    lemma_divides_trans(p, n, x - 1);
    lemma_congruent(x, 1, p);
}

/// One prime `l` of `n - 1`: if `a` has order dividing `n - 1` but `a^((n-1)/l) - 1`
/// is invertible modulo `n` (`y` is the inverse), every prime factor of `n` is
/// one modulo `l`.
pub proof fn lemma_pocklington_step(n: int, l: int, h: int, a: int, y: int)
    requires
        n > 1,
        h >= 0,
        prime(l),
        n - 1 == l * h,
        pow(a, (n - 1) as nat) % n == 1,
        ((pow(a, h as nat) - 1) * y) % n == 1,
    ensures
        factors_one_mod(n, l),
{
    assert forall|p: int| prime(p) && #[trigger] (n % p) == 0 implies (p - 1) % l == 0 by {
        let c = p - 1;
        let n1 = (n - 1) as nat;
        lemma_one_mod_factor(pow(a, n1), n, p);
        lemma_one_mod_factor((pow(a, h as nat) - 1) * y, n, p);
        if a % p == 0 {
            lemma_pow_mod_noop(a, n1, p);
            lemma0_pow(n1);
            lemma_small_mod(0, p as nat);
        }
        lemma_fermat(a, p);
        if c % l != 0 {
            lemma_fermat(c, l);
            let s = pow(c, (l - 2) as nat);
            lemma_pow_positive(c, (l - 2) as nat);
            lemma_pow_adds(c, 1, (l - 2) as nat);
            lemma_pow1(c);
            assert(c * s == pow(c, (l - 1) as nat));
            lemma_small_mod(1, l as nat);
            lemma_congruent(c * s, 1, l);
            let t = lemma_quotient(c * s - 1, l);
            assert(c * s >= 1) by (nonlinear_arith)
                requires
                    c >= 1,
                    s >= 1,
            ;
            assert(t >= 0) by (nonlinear_arith)
                requires
                    t * l >= 0,
                    l > 0,
            ;
            assert(c * (h * s) == h + (n - 1) * t) by (nonlinear_arith)
                requires
                    c * s == 1 + t * l,
                    n - 1 == l * h,
            ;
            assert(h * s >= 0) by (nonlinear_arith)
                requires
                    h >= 0,
                    s >= 1,
            ;
            assert((n - 1) * t >= 0) by (nonlinear_arith)
                requires
                    n > 1,
                    t >= 0,
            ;
            lemma_pow_multiplies(a, c as nat, (h * s) as nat);
            lemma_pow_of_one(pow(a, c as nat), (h * s) as nat, p);
            lemma_pow_multiplies(a, n1, t as nat);
            lemma_pow_of_one(pow(a, n1), t as nat, p);
            lemma_pow_adds(a, h as nat, ((n - 1) * t) as nat);
            let v = pow(a, ((n - 1) * t) as nat);
            let u = pow(a, h as nat);
            lemma_mul_mod_noop_right(u, v, p);
            lemma_mul_basics(u);
            assert(u % p == 1);
            lemma_small_mod(1, p as nat);
            lemma_congruent(u, 1, p);
            let k = lemma_quotient(u - 1, p);
            lemma_mul_is_associative(y, k, p);
            lemma_mul_is_commutative(u - 1, y);
            lemma_multiple(y * k, p);
            assert(false);
        }
    }
}

/// Two coprime moduli combine.
pub proof fn lemma_pocklington_combine(n: int, f: int, l: int)
    requires
        f > 0,
        prime(l),
        f % l != 0,
        factors_one_mod(n, f),
        factors_one_mod(n, l),
    ensures
        factors_one_mod(n, f * l),
{
    assert forall|p: int| prime(p) && #[trigger] (n % p) == 0 implies (p - 1) % (f * l) == 0 by {
        let k = lemma_quotient(p - 1, f);
        lemma_euclid(l, f, k);
        let j = lemma_quotient(k, l);
        assert(p - 1 == j * (f * l)) by (nonlinear_arith)
            requires
                p - 1 == f * k,
                k == j * l,
        ;
        assert(f * l > 0) by (nonlinear_arith)
            requires
                f > 0,
                l > 1,
        ;
        lemma_multiple(j, f * l);
    }
}

/// Pocklington's criterion: a modulus above the square root leaves no room for
/// a proper factor.
pub proof fn lemma_pocklington(n: int, f: int)
    requires
        n > 1,
        f > 0,
        (f + 1) * (f + 1) > n,
        factors_one_mod(n, f),
    ensures
        prime(n),
{
    let p = lemma_least_factor(n);
    if !prime(n) {
        let k = lemma_quotient(p - 1, f);
        assert(k >= 1) by (nonlinear_arith)
            requires
                k * f >= 1,
                f > 0,
        ;
        lemma_mul_inequality(1, k, f);
        lemma_mul_upper_bound(f + 1, p, f + 1, p);
    }
}

/// A number below the square of its first untried divisor is prime when no
/// smaller divisor divides it.
pub proof fn lemma_prime_by_trial(n: int, b: int)
    requires
        1 < n < b * b,
        b > 0,
        forall|d: int| 2 <= d < b ==> #[trigger] (n % d) != 0,
    ensures
        prime(n),
{
    let p = lemma_least_factor(n);
    if !prime(n) {
        if p >= b {
            lemma_mul_upper_bound(b, p, b, p);
        }
    }
}

// ---- powers of literals -------------------------------------------------------

/// One step of modular exponentiation in base four: `x^4 * g` modulo `m`.
#[verifier::opaque]
pub open spec fn shift(x: int, g: int, m: int) -> int {
    (((x * x) * (x * x)) * g) % m
}

/// Appending a base-four digit `d` to an exponent, `g` being `a^d` modulo `m`.
pub proof fn lemma_pow_digit(a: int, e: nat, d: nat, g: int, m: int) -> (f: nat)
    requires
        m > 0,
        pow(a, d) % m == g,
    ensures
        f == 4 * e + d,
        pow(a, f) % m == shift(pow(a, e) % m, g, m),
{
    reveal(shift);
    let x = pow(a, e);
    let y = x % m;
    lemma_pow1(y);
    lemma_pow_adds(y, 1, 1);
    lemma_pow_adds(y, 2, 2);
    lemma_pow_mod_noop(x, 4, m);
    lemma_pow_multiplies(a, e, 4);
    lemma_pow_adds(a, 4 * e, d);
    lemma_mul_mod_noop(pow(a, 4 * e), pow(a, d), m);
    lemma_mul_mod_noop_left(pow(y, 4), g, m);
    4 * e + d
}

/// The powers that the four digits stand for.
pub proof fn lemma_pow_table(a: int, a2: int, a3: int, m: int)
    requires
        m > 1,
        0 <= a < m,
        (a * a) % m == a2,
        (a2 * a) % m == a3,
    ensures
        pow(a, 0) % m == 1,
        pow(a, 1) % m == a,
        pow(a, 2) % m == a2,
        pow(a, 3) % m == a3,
{
    lemma_small_mod(1, m as nat);
    lemma_small_mod(a as nat, m as nat);
    lemma_pow0(a);
    lemma_pow1(a);
    lemma_pow_adds(a, 1, 1);
    lemma_pow_adds(a, 2, 1);
    lemma_mul_mod_noop_left(pow(a, 2), a, m);
}

/// Powers of powers: if `x` is `a^h` modulo `m`, then `x^l` is `a^(h*l)` modulo `m`.
pub proof fn lemma_pow_compose(a: int, h: nat, x: int, l: nat, m: int)
    requires
        m > 0,
        pow(a, h) % m == x,
    ensures
        pow(a, h * l) % m == pow(x, l) % m,
{
    lemma_pow_multiplies(a, h, l);
    lemma_pow_mod_noop(pow(a, h), l, m);
}

} // verus!
