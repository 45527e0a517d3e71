//! Polynomials as coefficient sequences, their evaluation on the powers of a
//! root of unity, and the radix-2 transform that computes it.

use vstd::arithmetic::power2::*;
use vstd::prelude::*;

use super::ring;
use super::ring::{FieldLaws, Ring};
use super::sums;

verus! {

/// The value at `x` of the polynomial with coefficients `a`.
pub open spec fn eval<R: Ring>(a: Seq<R>, x: R) -> R {
    sums::total(a.len(), |j: int| a[j] * ring::power(x, j as nat))
}

/// The values of the polynomial at `1, w, w², …`, as many as it has coefficients.
pub open spec fn dft<R: Ring>(a: Seq<R>, w: R) -> Seq<R> {
    Seq::new(a.len(), |k: int| eval(a, ring::power(w, k as nat)))
}

/// All entries are ring elements.
pub open spec fn all_wf<R: Ring>(a: Seq<R>) -> bool {
    forall|i: int| 0 <= i < a.len() ==> (#[trigger] a[i]).wf()
}

/// The length is a power of two.
pub open spec fn power_of_two(n: nat) -> bool {
    exists|k: nat| n == #[trigger] pow2(k)
}

/// The entries at even positions.
pub open spec fn evens<R>(a: Seq<R>) -> Seq<R> {
    Seq::new(a.len() / 2, |i: int| a[2 * i])
}

/// The entries at odd positions.
pub open spec fn odds<R>(a: Seq<R>) -> Seq<R> {
    Seq::new(a.len() / 2, |i: int| a[2 * i + 1])
}

/// One output of a radix-2 stage on blocks of length `len` with the root `w`: the sum or the
/// difference of a butterfly.
pub open spec fn butterfly<R: Ring>(a: Seq<R>, len: int, w: R, i: int) -> R {
    let half = len / 2;
    let k = i % len;
    if k < half {
        a[i] + a[i + half] * ring::power(w, k as nat)
    } else {
        a[i - half] - a[i] * ring::power(w, (k - half) as nat)
    }
}

/// A radix-2 stage.
pub open spec fn stage<R: Ring>(a: Seq<R>, len: int, w: R) -> Seq<R> {
    Seq::new(a.len(), |i: int| butterfly(a, len, w, i))
}

/// The transform by halving: transform the entries at even and at odd positions with the squared
/// root and combine them by one stage.
pub open spec fn radix2<R: Ring>(a: Seq<R>, w: R) -> Seq<R>
    decreases a.len(),
{
    if a.len() <= 1 {
        a
    } else {
        stage(radix2(evens(a), w * w) + radix2(odds(a), w * w), a.len() as int, w)
    }
}

/// The blocks of length `len` transformed, in the order in which halving leaves them.
pub open spec fn blocks<R: Ring>(a: Seq<R>, len: nat, w: R) -> Seq<R>
    decreases a.len(),
{
    if a.len() <= len || a.len() <= 1 {
        radix2(a, w)
    } else {
        blocks(evens(a), len, w * w) + blocks(odds(a), len, w * w)
    }
}

/// The entries in bit-reversed order, by halving.
pub open spec fn halved<R>(a: Seq<R>) -> Seq<R>
    decreases a.len(),
{
    if a.len() <= 1 {
        a
    } else {
        halved(evens(a)) + halved(odds(a))
    }
}

/// `i` with its `bits` lowest bits reversed.
pub open spec fn reversed(i: nat, bits: nat) -> nat
    decreases bits,
{
    if bits == 0 {
        0
    } else {
        (i % 2) * pow2((bits - 1) as nat) + reversed(i / 2, (bits - 1) as nat)
    }
}

/// The entries in bit-reversed order.
pub open spec fn bit_reversed<R>(a: Seq<R>, bits: nat) -> Seq<R> {
    Seq::new(a.len(), |i: int| a[reversed(i as nat, bits) as int])
}

// ---- powers of two --------------------------------------------------------------------------

/// Half of a power of two.
pub proof fn lemma_half(n: nat)
    requires
        power_of_two(n),
        n > 1,
    ensures
        power_of_two(n / 2),
        n % 2 == 0,
        n / 2 >= 1,
{
    let k = choose|k: nat| n == #[trigger] pow2(k);
    lemma2_to64();
    lemma_pow2_unfold(k);
    assert(n / 2 == pow2((k - 1) as nat));
    lemma_pow2_pos((k - 1) as nat);
}

// ---- bit reversal ---------------------------------------------------------------------------

/// Reversed bits are as many as there were.
pub proof fn lemma_reversed_bound(i: nat, bits: nat)
    ensures
        reversed(i, bits) < pow2(bits),
    decreases bits,
{
    lemma2_to64();
    if bits > 0 {
        lemma_reversed_bound(i / 2, (bits - 1) as nat);
        lemma_pow2_unfold(bits);
        let p = pow2((bits - 1) as nat);
        if i % 2 == 0 {
            assert((i % 2) * p == 0) by (nonlinear_arith)
                requires
                    i % 2 == 0,
            ;
        } else {
            assert((i % 2) * p == p) by (nonlinear_arith)
                requires
                    i % 2 == 1,
            ;
        }
    }
}

/// The top bit becomes the lowest.
pub proof fn lemma_reversed_top(i: nat, bits: nat)
    requires
        i < pow2(bits),
    ensures
        reversed(i, bits + 1) == 2 * reversed(i, bits),
        reversed(i + pow2(bits), bits + 1) == 2 * reversed(i, bits) + 1,
    decreases bits,
{
    lemma2_to64();
    if bits == 0 {
        assert(reversed(0, 1) == (0nat % 2) * pow2(0) + reversed(0, 0));
        assert((0nat % 2) * pow2(0) == 0) by (nonlinear_arith);
        assert(reversed(1, 1) == (1nat % 2) * pow2(0) + reversed(0, 0));
        assert((1nat % 2) * pow2(0) == pow2(0)) by (nonlinear_arith);
    } else {
        let b = (bits - 1) as nat;
        let p = pow2(b);
        lemma_pow2_unfold(bits);
        lemma_reversed_top(i / 2, b);
        assert((i + pow2(bits)) / 2 == i / 2 + p);
        assert((i + pow2(bits)) % 2 == i % 2);
        assert((i % 2) * pow2(bits) == 2 * ((i % 2) * p)) by (nonlinear_arith)
            requires
                pow2(bits) == 2 * p,
        ;
    }
}

/// Reversing twice changes nothing.
pub proof fn lemma_reversed_twice(i: nat, bits: nat)
    requires
        i < pow2(bits),
    ensures
        reversed(reversed(i, bits), bits) == i,
    decreases bits,
{
    lemma2_to64();
    if bits > 0 {
        let b = (bits - 1) as nat;
        let p = pow2(b);
        lemma_pow2_unfold(bits);
        lemma_reversed_twice(i / 2, b);
        lemma_reversed_bound(i / 2, b);
        lemma_reversed_top(reversed(i / 2, b), b);
        if i % 2 == 0 {
            assert((i % 2) * p == 0) by (nonlinear_arith)
                requires
                    i % 2 == 0,
            ;
        } else {
            assert((i % 2) * p == p) by (nonlinear_arith)
                requires
                    i % 2 == 1,
            ;
        }
    }
}

/// Bit-reversed order is the order in which halving leaves the entries.
pub proof fn lemma_bit_reversed<R>(a: Seq<R>, bits: nat)
    requires
        a.len() == pow2(bits),
    ensures
        bit_reversed(a, bits) == halved(a),
        halved(a).len() == a.len(),
    decreases bits,
{
    lemma2_to64();
    if bits == 0 {
        assert(bit_reversed(a, bits) =~= a);
    } else {
        let b = (bits - 1) as nat;
        let half = pow2(b) as int;
        lemma_pow2_unfold(bits);
        lemma_pow2_pos(b);
        let (e, o) = (evens(a), odds(a));
        lemma_bit_reversed(e, b);
        lemma_bit_reversed(o, b);
        assert forall|i: int| 0 <= i < a.len() implies #[trigger] bit_reversed(a, bits)[i]
            == halved(a)[i] by {
            if i < half {
                lemma_reversed_top(i as nat, b);
                lemma_reversed_bound(i as nat, b);
                assert(bit_reversed(e, b)[i] == e[reversed(i as nat, b) as int]);
            } else {
                let j = i - half;
                lemma_reversed_top(j as nat, b);
                lemma_reversed_bound(j as nat, b);
                assert(bit_reversed(o, b)[j] == o[reversed(j as nat, b) as int]);
            }
        }
        assert(bit_reversed(a, bits) =~= halved(a));
    }
}

// ---- stages --------------------------------------------------------------------------------

/// Lengths are kept.
pub proof fn lemma_lengths<R: Ring>(a: Seq<R>, len: nat, w: R)
    requires
        power_of_two(a.len()),
    ensures
        radix2(a, w).len() == a.len(),
        blocks(a, len, w).len() == a.len(),
        halved(a).len() == a.len(),
    decreases a.len(),
{
    if a.len() > 1 {
        lemma_half(a.len());
        lemma_lengths(evens(a), len, w * w);
        lemma_lengths(odds(a), len, w * w);
    }
}

/// Before the first stage the blocks are single entries in bit-reversed order.
pub proof fn lemma_blocks_start<R: Ring>(a: Seq<R>, w: R)
    requires
        power_of_two(a.len()),
    ensures
        blocks(a, 1, w) == halved(a),
    decreases a.len(),
{
    if a.len() > 1 {
        lemma_half(a.len());
        lemma_blocks_start(evens(a), w * w);
        lemma_blocks_start(odds(a), w * w);
    }
}

/// A stage works on each half alone when the halves are whole numbers of blocks.
proof fn lemma_stage_splits<R: Ring>(x: Seq<R>, y: Seq<R>, len: int, w: R)
    requires
        len >= 2,
        len % 2 == 0,
        x.len() % (len as nat) == 0,
        y.len() % (len as nat) == 0,
    ensures
        stage(x + y, len, w) == stage(x, len, w) + stage(y, len, w),
{
    let n = x.len() as int;
    assert forall|i: int| 0 <= i < n + y.len() implies #[trigger] stage(x + y, len, w)[i] == (stage(
        x,
        len,
        w,
    ) + stage(y, len, w))[i] by {
        let half = len / 2;
        if i < n {
            lemma_block_fits(i, n, len);
            assert(butterfly(x + y, len, w, i) == butterfly(x, len, w, i));
        } else {
            let j = i - n;
            lemma_block_fits(j, y.len() as int, len);
            assert(i % len == j % len) by {
                vstd::arithmetic::div_mod::lemma_mod_adds(n, j, len);
                vstd::arithmetic::div_mod::lemma_add_mod_noop(n, j, len);
                vstd::arithmetic::div_mod::lemma_mod_twice(j, len);
            }
            assert(butterfly(x + y, len, w, i) == butterfly(y, len, w, j));
        }
    }
    assert(stage(x + y, len, w) =~= stage(x, len, w) + stage(y, len, w));
}

/// A butterfly stays inside its block.
pub proof fn lemma_block_fits(i: int, n: int, len: int)
    requires
        0 <= i < n,
        len >= 2,
        n % len == 0,
    ensures
        i - i % len >= 0,
        i - i % len + len <= n,
        0 <= i % len < len,
{
    vstd::arithmetic::div_mod::lemma_fundamental_div_mod(i, len);
    vstd::arithmetic::div_mod::lemma_fundamental_div_mod(n, len);
    let (p, q) = (i / len, n / len);
    assert(p < q) by (nonlinear_arith)
        requires
            len * p <= i,
            i < n,
            n == len * q,
            len > 0,
    ;
    assert(len * p + len <= len * q) by (nonlinear_arith)
        requires
            p < q,
            len > 0,
    ;
    assert(len * p >= 0) by (nonlinear_arith)
        requires
            p >= 0,
            len > 0,
    ;
}

/// Powers of two divide larger ones.
pub proof fn lemma_power_divides(m: nat, n: nat)
    requires
        power_of_two(m),
        power_of_two(n),
        m <= n,
    ensures
        n % m == 0,
        m >= 1,
        power_of_two(n / m),
        n / m >= 1,
        (n / m) * m == n,
{
    let j = choose|k: nat| m == #[trigger] pow2(k);
    let k = choose|k: nat| n == #[trigger] pow2(k);
    if j > k {
        lemma_pow2_strictly_increases(k, j);
    }
    lemma_pow2_adds((k - j) as nat, j);
    lemma_pow2_pos(j);
    lemma_pow2_pos((k - j) as nat);
    let q = pow2((k - j) as nat);
    vstd::arithmetic::div_mod::lemma_fundamental_div_mod_converse(n as int, m as int, q as int, 0);
}

/// One stage takes transformed blocks to transformed blocks of twice the length.
pub proof fn lemma_stage<R: Ring>(a: Seq<R>, half: nat, w: R)
    requires
        w.wf(),
        power_of_two(a.len()),
        power_of_two(half),
        2 * half <= a.len(),
    ensures
        stage(blocks(a, half, w), 2 * half as int, ring::power(w, a.len() / (2 * half)))
            == blocks(a, 2 * half, w),
    decreases a.len(),
{
    broadcast use ring::group_wf;

    let n = a.len();
    let len = 2 * half;
    let k = choose|k: nat| half == #[trigger] pow2(k);
    lemma_pow2_unfold(k + 1);
    lemma_pow2_pos(k);
    lemma2_to64();
    assert(power_of_two(len)) by {
        assert(len == pow2(k + 1));
    }
    lemma_half(n);
    lemma_lengths(evens(a), half, w * w);
    lemma_lengths(odds(a), half, w * w);
    ring::lemma_power_small(w);
    if n == len {
        assert(n / len == 1) by {
            vstd::arithmetic::div_mod::lemma_div_by_self(n as int);
        }
        assert(blocks(a, half, w) == radix2(evens(a), w * w) + radix2(odds(a), w * w));
    } else {
        let m = n / 2;
        lemma_power_divides(len, n);
        let q = n / len;
        // n > len, so q >= 2 and n/2 is a whole number of blocks
        assert(q != 1) by (nonlinear_arith)
            requires
                n == q * len,
                n != len,
        ;
        lemma_half(q);
        assert(m == (q / 2) * len) by (nonlinear_arith)
            requires
                n == q * len,
                q == 2 * (q / 2),
                n == 2 * m,
        ;
        assert(q / 2 >= 1);
        assert(m >= len) by (nonlinear_arith)
            requires
                m == (q / 2) * len,
                q / 2 >= 1,
        ;
        vstd::arithmetic::div_mod::lemma_fundamental_div_mod_converse(
            m as int,
            len as int,
            (q / 2) as int,
            0,
        );
        lemma_stage(evens(a), half, w * w);
        lemma_stage(odds(a), half, w * w);
        ring::lemma_power_multiplies(w, 2, q / 2);
        assert(ring::power(w * w, m / len) == ring::power(w, q));
        lemma_stage_splits(
            blocks(evens(a), half, w * w),
            blocks(odds(a), half, w * w),
            len as int,
            ring::power(w, q),
        );
    }
}

// ---- evaluation ----------------------------------------------------------------------------

/// Evaluation stays in the ring.
pub proof fn lemma_eval_wf<R: Ring>(a: Seq<R>, x: R)
    requires
        all_wf(a),
        x.wf(),
    ensures
        eval(a, x).wf(),
{
    broadcast use {ring::group_wf, ring::lemma_wf_power};

    sums::lemma_total_wf(a.len(), |j: int| a[j] * ring::power(x, j as nat));
}

/// The last coefficient, split off.
pub proof fn lemma_eval_last<R: Ring>(a: Seq<R>, x: R)
    requires
        a.len() > 0,
    ensures
        eval(a, x) == eval(a.drop_last(), x) + a.last() * ring::power(x, (a.len() - 1) as nat),
{
    sums::lemma_total_same(
        (a.len() - 1) as nat,
        |j: int| a[j] * ring::power(x, j as nat),
        |j: int| a.drop_last()[j] * ring::power(x, j as nat),
    );
}

/// `p(x) == e(x²) + x·o(x²)` for the even and odd coefficients.
pub proof fn lemma_eval_halves<R: Ring>(a: Seq<R>, x: R)
    requires
        all_wf(a),
        x.wf(),
        a.len() % 2 == 0,
    ensures
        eval(a, x) == eval(evens(a), x * x) + x * eval(odds(a), x * x),
    decreases a.len(),
{
    broadcast use {ring::group_wf, ring::lemma_wf_power};

    let z = R::zero_spec();
    let y = x * x;
    if a.len() == 0 {
        ring::lemma_mul_zero(x);
        R::additive(z, z, z);
    } else {
        let s = a.drop_last().drop_last();
        let m = (a.len() / 2 - 1) as nat;
        let (e, o) = (evens(a), odds(a));
        lemma_eval_halves(s, x);
        lemma_eval_last(a, x);
        lemma_eval_last(a.drop_last(), x);
        lemma_eval_last(e, y);
        lemma_eval_last(o, y);
        assert(e.drop_last() =~= evens(s));
        assert(o.drop_last() =~= odds(s));
        let (c, d) = (e.last(), o.last());
        assert(c == a.drop_last().last());
        assert(d == a.last());
        let p = ring::power(y, m);
        ring::lemma_power_multiplies(x, 2, m);
        ring::lemma_power_small(x);
        assert(ring::power(x, 2 * m) == p);
        assert(ring::power(x, 2 * m + 1) == p * x);
        lemma_eval_wf(evens(s), y);
        lemma_eval_wf(odds(s), y);
        let (ee, oo) = (eval(evens(s), y), eval(odds(s), y));
        // ((ee + x oo) + c p) + d (p x) == (ee + c p) + x (oo + d p)
        R::multiplicative(x, oo, d * p);
        R::multiplicative(d, p, x);
        R::multiplicative(x, d * p, x);
        assert(x * (d * p) == d * (p * x));
        let (u, v, f) = (x * oo, c * p, d * (p * x));
        R::additive(ee, u, v);
        R::additive(u, v, v);
        R::additive(ee, v, u);
        R::additive(ee + v, u, f);
    }
}

/// The root turns into minus one half way.
pub open spec fn primitive<R: Ring>(w: R, n: nat) -> bool {
    n <= 1 || ring::power(w, n / 2) == -R::one_spec()
}

/// The transform by halving evaluates the polynomial on the powers of a primitive root.
pub proof fn lemma_radix2<R: Ring>(a: Seq<R>, w: R)
    requires
        power_of_two(a.len()),
        all_wf(a),
        w.wf(),
        primitive(w, a.len()),
    ensures
        radix2(a, w) == dft(a, w),
    decreases a.len(),
{
    broadcast use {ring::group_wf, ring::lemma_wf_power};

    let n = a.len();
    if n <= 1 {
        if n == 1 {
            let one = R::one_spec();
            ring::lemma_power_small(w);
            lemma_eval_last(a, one);
            assert(ring::power(one, 0) == one);
            assert(a.drop_last() =~= Seq::empty());
            assert(eval(a.drop_last(), one) == R::zero_spec());
            R::multiplicative(a[0], one, one);
            R::additive(R::zero_spec(), a[0], one);
            R::additive(a[0], one, one);
            assert(dft(a, w)[0] == eval(a, ring::power(w, 0)));
        }
        assert(radix2(a, w) =~= dft(a, w));
    } else {
        lemma_half(n);
        let m = n / 2;
        let y = w * w;
        let (e, o) = (evens(a), odds(a));
        if m > 1 {
            lemma_half(m);
            ring::lemma_power_multiplies(w, 2, m / 2);
            ring::lemma_power_small(w);
        }
        lemma_radix2(e, y);
        lemma_radix2(o, y);
        let parts = radix2(e, y) + radix2(o, y);
        assert forall|i: int| 0 <= i < n implies #[trigger] radix2(a, w)[i] == dft(a, w)[i] by {
            let k = if i < m {
                i
            } else {
                i - m
            };
            let x = ring::power(w, k as nat);
            vstd::arithmetic::div_mod::lemma_small_mod(i as nat, n);
            assert(parts[k] == eval(e, ring::power(y, k as nat)));
            assert(parts[k + m] == eval(o, ring::power(y, k as nat)));
            ring::lemma_power_distributes(w, w, k as nat);
            assert(ring::power(y, k as nat) == x * x);
            lemma_eval_wf(e, x * x);
            lemma_eval_wf(o, x * x);
            let (ee, oo) = (eval(e, x * x), eval(o, x * x));
            R::multiplicative(x, oo, x);
            if i < m {
                lemma_eval_halves(a, x);
            } else {
                let one = R::one_spec();
                ring::lemma_power_adds(w, m, k as nat);
                R::multiplicative(one, x, x);
                R::multiplicative(x, one, x);
                ring::lemma_neg_mul(one, x);
                assert(ring::power(w, i as nat) == -x);
                lemma_eval_halves(a, -x);
                ring::lemma_neg_mul(x, x);
                ring::lemma_neg_mul(x, oo);
                R::additive(ee, x * oo, x);
            }
        }
        lemma_lengths(a, 1, w);
        assert(radix2(a, w) =~= dft(a, w));
    }
}

// ---- inversion -----------------------------------------------------------------------------

/// A primitive root has exact order `n`: smaller powers are not one.
pub proof fn lemma_order<K: FieldLaws>(w: K, n: nat, d: nat)
    requires
        w.wf(),
        power_of_two(n),
        primitive(w, n),
        0 < d < n,
    ensures
        ring::power(w, d) != K::one_spec(),
        ring::power(w, n) == K::one_spec(),
    decreases n,
{
    broadcast use {ring::group_wf, ring::lemma_wf_power};

    let one = K::one_spec();
    let m = n / 2;
    lemma_half(n);
    ring::lemma_power_adds(w, m, m);
    ring::lemma_neg_mul(one, one);
    K::multiplicative(one, one, one);
    K::two_nonzero();
    K::additive(one, one, one);
    if d % 2 == 0 {
        // w² has order n/2
        let y = w * w;
        ring::lemma_power_small(w);
        ring::lemma_power_multiplies(w, 2, d / 2);
        lemma_half(m);
        ring::lemma_power_multiplies(w, 2, m / 2);
        lemma_order(y, m, d / 2);
    } else if ring::power(w, d) == one {
        // w^(m d) is minus one, as d is odd
        ring::lemma_power_multiplies(w, d, m);
        ring::lemma_power_one::<K>(m);
        ring::lemma_power_multiplies(w, m, d);
        assert(m * d == d * m) by (nonlinear_arith);
        ring::lemma_power_minus_one::<K>(d / 2);
        assert(2 * (d / 2) + 1 == d);
        assert(one == -one);
    }
}

/// The powers of `w^k·v^i`, with `v` the inverse of the primitive root `w`, add to `n` when
/// `i == k` and to zero otherwise.
pub proof fn lemma_orthogonal<K: FieldLaws>(w: K, v: K, n: nat, i: nat, k: nat)
    requires
        w.wf(),
        v.wf(),
        w * v == K::one_spec(),
        power_of_two(n),
        primitive(w, n),
        i < n,
        k < n,
    ensures
        ({
            let y = ring::power(w, k) * ring::power(v, i);
            sums::total(n, |j: int| ring::power(y, j as nat)) == if i == k {
                ring::embed::<K>(n as int)
            } else {
                K::zero_spec()
            }
        }),
{
    broadcast use {ring::group_wf, ring::lemma_wf_power};

    let one = K::one_spec();
    let y = ring::power(w, k) * ring::power(v, i);
    let f = |j: int| ring::power(y, j as nat);
    ring::lemma_power_distributes(w, v, i);
    ring::lemma_power_one::<K>(i);
    assert(ring::power(w, i) * ring::power(v, i) == one);
    if i == k {
        assert forall|j: int| 0 <= j < n implies #[trigger] f(j) == one by {
            ring::lemma_power_one::<K>(j as nat);
        }
        sums::lemma_total_ones(n, f);
    } else {
        // both roots have order n
        lemma_order(w, n, 1);
        ring::lemma_power_distributes(w, v, n);
        ring::lemma_power_one::<K>(n);
        K::multiplicative(one, ring::power(v, n), one);
        K::multiplicative(ring::power(v, n), one, one);
        assert(ring::power(v, n) == one);
        ring::lemma_power_distributes(ring::power(w, k), ring::power(v, i), n);
        ring::lemma_power_multiplies(w, k, n);
        ring::lemma_power_multiplies(w, n, k);
        ring::lemma_power_multiplies(v, i, n);
        ring::lemma_power_multiplies(v, n, i);
        assert(k * n == n * k) by (nonlinear_arith);
        assert(i * n == n * i) by (nonlinear_arith);
        ring::lemma_power_one::<K>(k);
        K::multiplicative(one, one, one);
        assert(ring::power(y, n) == one);
        if y == one {
            // w^k == w^i, against the order
            let (wk, wi, vi) = (ring::power(w, k), ring::power(w, i), ring::power(v, i));
            K::multiplicative(wk, vi, wi);
            K::multiplicative(wi, vi, wi);
            K::multiplicative(one, wi, wi);
            K::multiplicative(wi, one, one);
            K::multiplicative(wk, one, one);
            assert(wk == wi);
            let (lo, hi) = if i < k {
                (i, k)
            } else {
                (k, i)
            };
            let d = (hi - lo) as nat;
            ring::lemma_power_adds(w, lo, d);
            lemma_order(w, n, d);
            let (a, b) = (ring::power(w, lo), ring::power(w, d));
            K::multiplicative(a, one, one);
            // a is invertible
            ring::lemma_power_distributes(w, v, lo);
            ring::lemma_power_one::<K>(lo);
            if a == K::zero_spec() {
                ring::lemma_mul_zero(ring::power(v, lo));
                ring::lemma_one_nonzero::<K>();
            }
            ring::lemma_cancel(a, b, one);
        }
        sums::lemma_unity(y, n);
    }
}

/// The coefficients `c_i = s·p(v^i)`.
pub open spec fn scaled_dft<R: Ring>(a: Seq<R>, v: R, s: R) -> Seq<R> {
    Seq::new(a.len(), |i: int| eval(a, ring::power(v, i as nat)) * s)
}

/// Transforming with a primitive root and then with its inverse, scaled by `1/n`, changes
/// nothing.
pub proof fn lemma_inversion<K: FieldLaws>(a: Seq<K>, w: K, v: K, s: K)
    requires
        all_wf(a),
        w.wf(),
        v.wf(),
        s.wf(),
        w * v == K::one_spec(),
        power_of_two(a.len()),
        primitive(w, a.len()),
        ring::embed::<K>(a.len() as int) * s == K::one_spec(),
    ensures
        dft(scaled_dft(a, v, s), w) == a,
        scaled_dft(dft(a, w), v, s) == a,
{
    let n = a.len();
    let c = scaled_dft(a, v, s);
    let d = dft(a, w);
    assert forall|k: int| 0 <= k < n implies #[trigger] dft(c, w)[k] == a[k] by {
        lemma_inversion_at(a, c, w, v, w, v, s, k);
    }
    assert(dft(c, w) =~= a);
    assert forall|k: int| 0 <= k < n implies #[trigger] scaled_dft(d, v, s)[k] == a[k] by {
        lemma_inversion_back(a, w, v, s, k);
    }
    assert(scaled_dft(d, v, s) =~= a);
}

/// The double sum behind the inversion: with `c_j = s·Σ_i a_i v^(ij)`, the value `Σ_j c_j w^(jk)`
/// is `a_k`.
proof fn lemma_inversion_at<K: FieldLaws>(
    a: Seq<K>,
    c: Seq<K>,
    w: K,
    v: K,
    root: K,
    inverse: K,
    s: K,
    k: int,
)
    requires
        all_wf(a),
        root.wf(),
        inverse.wf(),
        s.wf(),
        root * inverse == K::one_spec(),
        power_of_two(a.len()),
        primitive(root, a.len()),
        (w == root && v == inverse) || (w == inverse && v == root),
        ring::embed::<K>(a.len() as int) * s == K::one_spec(),
        c == scaled_dft(a, v, s),
        0 <= k < a.len(),
    ensures
        eval(c, ring::power(w, k as nat)) == a[k],
{
    broadcast use {ring::group_wf, ring::lemma_wf_power};

    let n = a.len();
    let one = K::one_spec();
    let x = ring::power(w, k as nat);
    // term (j, i) is s·a_i·(w^k v^i)^j
    let f = |j: int, i: int|
        (s * a[i]) * ring::power(ring::power(w, k as nat) * ring::power(v, i as nat), j as nat);
    let rows = |j: int| c[j] * ring::power(x, j as nat);
    assert forall|j: int| 0 <= j < n implies #[trigger] rows(j) == sums::total(
        n,
        |i: int| f(j, i),
    ) by {
        lemma_inversion_row(a, c, w, v, s, k, j);
        sums::lemma_total_same(
            n,
            |i: int|
                (s * a[i]) * ring::power(
                    ring::power(w, k as nat) * ring::power(v, i as nat),
                    j as nat,
                ),
            |i: int| f(j, i),
        );
    }
    sums::lemma_total_same(n, rows, |j: int| sums::total(n, |i: int| f(j, i)));
    assert forall|j: int, i: int| 0 <= j < n && 0 <= i < n implies (#[trigger] f(j, i)).wf() by {
        assert(a[i].wf());
    }
    sums::lemma_total_swap(n, n, f);
    let columns = |i: int| sums::total(n, |j: int| f(j, i));
    assert forall|i: int| 0 <= i < n implies #[trigger] columns(i) == (if i == k {
        a[k]
    } else {
        K::zero_spec()
    }) by {
        assert(a[i].wf());
        let y = ring::power(w, k as nat) * ring::power(v, i as nat);
        let g = |j: int| ring::power(y, j as nat);
        sums::lemma_total_scale(n, s * a[i], g, |j: int| f(j, i));
        if w == root {
            lemma_orthogonal(root, inverse, n, i as nat, k as nat);
        } else {
            lemma_orthogonal(root, inverse, n, k as nat, i as nat);
            K::multiplicative(ring::power(w, k as nat), ring::power(v, i as nat), one);
        }
        sums::lemma_total_same(n, g, |j: int| ring::power(y, j as nat));
        let e = ring::embed::<K>(n as int);
        ring::lemma_embed_wf::<K>(n as int);
        if i == k {
            K::multiplicative(s, a[i], e);
            K::multiplicative(a[i], s, e);
            K::multiplicative(s, e, e);
            K::multiplicative(a[i], one, one);
        } else {
            ring::lemma_mul_zero(s * a[i]);
        }
    }
    assert(a[k].wf());
    sums::lemma_total_single(n, k, columns);
}

/// One row of the double sum.
proof fn lemma_inversion_row<K: FieldLaws>(
    a: Seq<K>,
    c: Seq<K>,
    w: K,
    v: K,
    s: K,
    k: int,
    j: int,
)
    requires
        all_wf(a),
        w.wf(),
        v.wf(),
        s.wf(),
        c == scaled_dft(a, v, s),
        0 <= k < a.len(),
        0 <= j < a.len(),
    ensures
        c[j] * ring::power(ring::power(w, k as nat), j as nat) == sums::total(
            a.len(),
            |i: int|
                (s * a[i]) * ring::power(
                    ring::power(w, k as nat) * ring::power(v, i as nat),
                    j as nat,
                ),
        ),
{
    broadcast use {ring::group_wf, ring::lemma_wf_power};

    let n = a.len();
    let u = ring::power(v, j as nat);
    let p = ring::power(ring::power(w, k as nat), j as nat);
    let f = |i: int| a[i] * ring::power(u, i as nat);
    let g = |i: int|
        (s * a[i]) * ring::power(ring::power(w, k as nat) * ring::power(v, i as nat), j as nat);
    assert(sums::members(n, f)) by {
        assert forall|i: int| 0 <= i < n implies (#[trigger] f(i)).wf() by {
            assert(a[i].wf());
        }
    }
    assert forall|i: int| 0 <= i < n implies #[trigger] g(i) == (s * p) * f(i) by {
        assert(a[i].wf());
        let vi = ring::power(v, i as nat);
        let t = ring::power(u, i as nat);
        ring::lemma_power_distributes(ring::power(w, k as nat), vi, j as nat);
        ring::lemma_power_multiplies(v, i as nat, j as nat);
        ring::lemma_power_multiplies(v, j as nat, i as nat);
        assert((i as nat) * (j as nat) == (j as nat) * (i as nat)) by (nonlinear_arith);
        assert(ring::power(vi, j as nat) == t);
        // (s a_i)(p t) == (s p)(a_i t)
        K::multiplicative(s, a[i], p * t);
        K::multiplicative(a[i], p, t);
        K::multiplicative(p, a[i], t);
        K::multiplicative(s, p, a[i] * t);
    }
    sums::lemma_total_scale(n, s * p, f, g);
    lemma_eval_wf(a, u);
    let e = eval(a, u);
    assert(e == sums::total(n, f));
    // (e s) p == (s p) e
    K::multiplicative(e, s, p);
    K::multiplicative(e, s * p, p);
}

/// The other direction: `s·Σ_j d_j v^(jk) == a_k` for `d = dft(a, w)`.
proof fn lemma_inversion_back<K: FieldLaws>(a: Seq<K>, w: K, v: K, s: K, k: int)
    requires
        all_wf(a),
        w.wf(),
        v.wf(),
        s.wf(),
        w * v == K::one_spec(),
        power_of_two(a.len()),
        primitive(w, a.len()),
        ring::embed::<K>(a.len() as int) * s == K::one_spec(),
        0 <= k < a.len(),
    ensures
        eval(dft(a, w), ring::power(v, k as nat)) * s == a[k],
{
    broadcast use {ring::group_wf, ring::lemma_wf_power};

    let n = a.len();
    let c = scaled_dft(a, w, s);
    let d = dft(a, w);
    let x = ring::power(v, k as nat);
    K::multiplicative(w, v, v);
    lemma_inversion_at(a, c, v, w, w, v, s, k);
    let f = |j: int| d[j] * ring::power(x, j as nat);
    let g = |j: int| c[j] * ring::power(x, j as nat);
    assert forall|j: int| 0 <= j < n implies (#[trigger] f(j)).wf() by {
        lemma_eval_wf(a, ring::power(w, j as nat));
    }
    assert forall|j: int| 0 <= j < n implies #[trigger] g(j) == s * f(j) by {
        lemma_eval_wf(a, ring::power(w, j as nat));
        let (e, p) = (d[j], ring::power(x, j as nat));
        K::multiplicative(e, s, p);
        K::multiplicative(s, e, p);
    }
    sums::lemma_total_scale(n, s, f, g);
    sums::lemma_total_wf(n, f);
    K::multiplicative(s, sums::total(n, f), s);
}

/// Scaling the coefficients by powers moves the point of evaluation.
pub proof fn lemma_shifted_eval<R: Ring>(a: Seq<R>, b: Seq<R>, g: R, x: R)
    requires
        all_wf(a),
        g.wf(),
        x.wf(),
        a.len() == b.len(),
        forall|i: int| 0 <= i < a.len() ==> #[trigger] b[i] == a[i] * ring::power(g, i as nat),
    ensures
        eval(b, x) == eval(a, g * x),
{
    broadcast use {ring::group_wf, ring::lemma_wf_power};

    let f = |j: int| b[j] * ring::power(x, j as nat);
    let h = |j: int| a[j] * ring::power(g * x, j as nat);
    assert forall|j: int| 0 <= j < a.len() implies #[trigger] f(j) == h(j) by {
        assert(a[j].wf());
        assert(b[j] == a[j] * ring::power(g, j as nat));
        ring::lemma_power_distributes(g, x, j as nat);
        R::multiplicative(a[j], ring::power(g, j as nat), ring::power(x, j as nat));
    }
    sums::lemma_total_same(a.len(), f, h);
}

} // verus!
