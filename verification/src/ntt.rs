//! Number-theoretic transforms over `Fr` on power-of-two domains, in place and
//! allocation-free: the radix-2 Cooley–Tukey NTT (natural order in and out),
//! its inverse, and the coset scaling that moves a polynomial from `H` to
//! `g·H`. This is the sequence the prover runs per polynomial (inverse NTT,
//! multiply by the shift powers, forward NTT), expressed once.

use vstd::arithmetic::div_mod::*;
use vstd::arithmetic::power2::*;
use vstd::prelude::*;

use crate::consts;
use crate::field;
use crate::field::{Field, Fr};
use crate::limbs;
use crate::math::dft;
use crate::math::ring;
use crate::math::ring::{FieldLaws, Ring};

verus! {

/// The exponent of a power of two.
pub open spec fn lg(n: nat) -> nat {
    choose|k: nat| n == #[trigger] pow2(k)
}

/// The exponent is determined by the power.
pub proof fn lemma_lg(k: nat)
    ensures
        lg(pow2(k)) == k,
        dft::power_of_two(pow2(k)),
{
    let j = lg(pow2(k));
    assert(pow2(k) == pow2(j));
    if j < k {
        lemma_pow2_strictly_increases(j, k);
    } else if k < j {
        lemma_pow2_strictly_increases(k, j);
    }
}

/// The sizes a domain can have: powers of two up to the two-adicity of the field.
pub open spec fn domain(n: nat) -> bool {
    dft::power_of_two(n) && lg(n) <= consts::FR_TWO_ADICITY
}

/// The primitive `n`-th root of unity.
pub open spec fn omega(n: nat) -> Fr {
    field::two_adic_root_spec(lg(n))
}

/// The coefficients of the polynomial that takes the values `a` on `H`.
pub open spec fn interpolated(a: Seq<Fr>) -> Seq<Fr> {
    dft::scaled_dft(a, omega(a.len()).inv_spec(), Fr::of(a.len() as int).inv_spec())
}

/// The values on the coset `shift·H` of the polynomial that takes the values `a` on `H`.
pub open spec fn on_coset(a: Seq<Fr>, shift: Fr) -> Seq<Fr> {
    Seq::new(
        a.len(),
        |k: int| dft::eval(interpolated(a), shift * ring::power(omega(a.len()), k as nat)),
    )
}

/// Small integers in the field.
pub proof fn lemma_embed(n: int)
    requires
        0 <= n < field::fr_modulus().m,
    ensures
        ring::embed::<Fr>(n) == Fr::of(n),
    decreases n,
{
    Fr::lemma_constants();
    if n > 0 {
        let m = field::fr_modulus().m;
        lemma_embed(n - 1);
        Fr::lemma_of(n - 1);
        Fr::lemma_of(n);
        Fr::lemma_ops(Fr::of(n - 1), Fr::one_spec());
        lemma_small_mod(n as nat, m as nat);
        Fr::lemma_val(Fr::of(n - 1) + Fr::one_spec());
    }
}

/// What the transforms need of a domain.
pub proof fn lemma_domain(n: nat)
    requires
        domain(n),
    ensures
        n == pow2(lg(n)),
        1 <= n <= 0x1000_0000,
        omega(n).wf(),
        dft::primitive(omega(n), n),
        omega(n).inv_spec().wf(),
        dft::primitive(omega(n).inv_spec(), n),
        omega(n) != Fr::zero_spec(),
        omega(n) * omega(n).inv_spec() == Fr::one_spec(),
        Fr::of(n as int).wf(),
        Fr::of(n as int) != Fr::zero_spec(),
        Fr::of(n as int).inv_spec().wf(),
        ring::embed::<Fr>(n as int) * Fr::of(n as int).inv_spec() == Fr::one_spec(),
{
    broadcast use {ring::group_wf, ring::lemma_wf_power};

    let k = lg(n);
    let w = omega(n);
    let one = Fr::one_spec();
    lemma2_to64();
    lemma_pow2_pos(k);
    if k < 28 {
        lemma_pow2_strictly_increases(k, 28);
    }
    assert(pow2(28) == 0x1000_0000);
    field::lemma_two_adic_root(k);
    if k > 0 {
        lemma_pow2_unfold(k);
        assert(n / 2 == pow2((k - 1) as nat));
    }
    if w == Fr::zero_spec() {
        lemma_power_zero(n);
        ring::lemma_one_nonzero::<Fr>();
    }
    Fr::inverse_law(w);
    let v = w.inv_spec();
    if k > 0 {
        // v^(n/2) is the inverse of minus one
        let h = n / 2;
        ring::lemma_power_distributes(w, v, h);
        ring::lemma_power_one::<Fr>(h);
        let x = ring::power(v, h);
        Fr::multiplicative(one, x, one);
        Fr::multiplicative(x, one, one);
        ring::lemma_neg_mul(one, x);
        ring::lemma_neg_neg(x);
        assert(-x == one);
    }
    Fr::lemma_of(n as int);
    Fr::lemma_val(Fr::of(n as int));
    Fr::inverse_law(Fr::of(n as int));
    lemma_embed(n as int);
}

proof fn lemma_power_zero(n: nat)
    requires
        n > 0,
    ensures
        ring::power(Fr::zero_spec(), n) == Fr::zero_spec(),
{
    broadcast use {ring::group_wf, ring::lemma_wf_power};

    ring::lemma_mul_zero(ring::power(Fr::zero_spec(), (n - 1) as nat));
}

/// `log2(n)` for a power of two `n`.
pub fn lg2(n: usize) -> (r: u32)
    requires
        dft::power_of_two(n as nat),
    ensures
        r == lg(n as nat),
        pow2(r as nat) == n,
        r < 64,
{
    let mut m: usize = n;
    let mut r: u32 = 0;
    proof {
        lemma2_to64();
        lemma2_to64_rest();
    }
    while m > 1
        invariant
            m * pow2(r as nat) == n,
            dft::power_of_two(m as nat),
            r < 64,
        decreases m,
    {
        proof {
            dft::lemma_half(m as nat);
            lemma_pow2_unfold((r + 1) as nat);
            let (h, p) = ((m / 2) as int, pow2(r as nat) as int);
            assert(h * (2 * p) == m * p) by (nonlinear_arith)
                requires
                    m == 2 * h,
            ;
            if r + 1 >= 64 {
                lemma2_to64();
                assert(2 * p >= 0x1_0000_0000_0000_0000);
                assert(h * (2 * p) >= 2 * p) by (nonlinear_arith)
                    requires
                        h >= 1,
                        p >= 0,
                ;
            }
        }
        m = m / 2;
        r = r + 1;
    }
    proof {
        let k = lg(m as nat);
        lemma_pow2_pos(k);
        assert(m == 1);
        lemma_lg(r as nat);
    }
    r
}

/// `i` with its `bits` lowest bits reversed.
pub fn reverse_index(i: usize, bits: u32) -> (r: usize)
    requires
        pow2(bits as nat) <= usize::MAX,
    ensures
        r == dft::reversed(i as nat, bits as nat),
        r < pow2(bits as nat),
{
    let mut acc: usize = 0;
    let mut rest: usize = i;
    let mut t: u32 = 0;
    proof {
        lemma2_to64();
        dft::lemma_reversed_bound(i as nat, bits as nat);
    }
    while t < bits
        invariant
            t <= bits,
            pow2(bits as nat) <= usize::MAX,
            acc < pow2(t as nat),
            dft::reversed(i as nat, bits as nat) == acc * pow2((bits - t) as nat) + dft::reversed(
                rest as nat,
                (bits - t) as nat,
            ),
        decreases bits - t,
    {
        proof {
            lemma_pow2_unfold((t + 1) as nat);
            if t + 1 < bits {
                lemma_pow2_strictly_increases((t + 1) as nat, bits as nat);
            }
            lemma_pow2_unfold((bits - t) as nat);
            let p = pow2((bits - t - 1) as nat) as int;
            let (a, d) = (acc as int, (rest % 2) as int);
            assert(a * (2 * p) + d * p == (a * 2 + d) * p) by (nonlinear_arith);
        }
        acc = acc * 2 + rest % 2;
        rest = rest / 2;
        t = t + 1;
    }
    proof {
        lemma2_to64();
        vstd::arithmetic::mul::lemma_mul_basics(acc as int);
        assert(acc * pow2((bits - t) as nat) == acc);
    }
    acc
}

/// Permute `a` into bit-reversed index order (an involution).
pub fn bit_reverse_permute(a: &mut [Fr])
    requires
        old(a)@.len() <= 2 || dft::power_of_two(old(a)@.len()),
    ensures
        old(a)@.len() <= 2 ==> final(a)@ == old(a)@,
        dft::power_of_two(old(a)@.len()) ==> final(a)@ == dft::bit_reversed(
            old(a)@,
            lg(old(a)@.len()),
        ),
{
    let n = a.len();
    let ghost s = a@;
    if n <= 2 {
        proof {
            if dft::power_of_two(n as nat) {
                lemma_small_reversal(s);
            }
        }
        return ;
    }
    let bits = lg2(n);
    let mut i: usize = 0;
    while i < n
        invariant
            i <= n,
            a@.len() == n,
            s.len() == n,
            n == pow2(bits as nat),
            forall|x: int|
                0 <= x < n ==> #[trigger] a@[x] == (if x < i || dft::reversed(
                    x as nat,
                    bits as nat,
                ) < i {
                    s[dft::reversed(x as nat, bits as nat) as int]
                } else {
                    s[x]
                }),
        decreases n - i,
    {
        let j = reverse_index(i, bits);
        proof {
            dft::lemma_reversed_twice(i as nat, bits as nat);
        }
        let ghost before = a@;
        if j > i {
            let x = a[i];
            let y = a[j];
            a[i] = y;
            a[j] = x;
        }
        proof {
            assert forall|x: int| 0 <= x < n implies #[trigger] a@[x] == (if x < i + 1
                || dft::reversed(x as nat, bits as nat) < i + 1 {
                s[dft::reversed(x as nat, bits as nat) as int]
            } else {
                s[x]
            }) by {
                dft::lemma_reversed_twice(x as nat, bits as nat);
                dft::lemma_reversed_bound(x as nat, bits as nat);
                assert(before[x] == before[x]);
                assert(before[i as int] == before[i as int]);
                assert(before[j as int] == before[j as int]);
            }
        }
        i = i + 1;
    }
    proof {
        assert(a@ =~= dft::bit_reversed(s, bits as nat));
    }
}

proof fn lemma_small_reversal(s: Seq<Fr>)
    requires
        s.len() <= 2,
        dft::power_of_two(s.len()),
    ensures
        dft::bit_reversed(s, lg(s.len())) == s,
{
    let k = lg(s.len());
    lemma2_to64();
    lemma_lg(0);
    lemma_lg(1);
    dft::lemma_bit_reversed(s, k);
    if s.len() == 2 {
        let (e, o) = (dft::evens(s), dft::odds(s));
        assert(dft::halved(e) == e);
        assert(dft::halved(o) == o);
        assert(e + o =~= s);
    }
}

/// In-place radix-2 Cooley–Tukey transform with the primitive `n`-th root
/// `omega`: `a[k] = Σ_j a[j]·omega^(jk)`. Natural order in and out.
pub fn ntt_in_place(a: &mut [Fr], omega: &Fr)
    requires
        old(a)@.len() == 0 || dft::power_of_two(old(a)@.len()),
    ensures
        final(a)@.len() == old(a)@.len(),
        omega.wf() ==> final(a)@ == dft::radix2(old(a)@, *omega),
        omega.wf() && dft::all_wf(old(a)@) && dft::primitive(*omega, old(a)@.len()) ==> final(a)@
            == dft::dft(old(a)@, *omega),
{
    let n = a.len();
    let ghost s = a@;
    if n <= 1 {
        proof {
            if omega.wf() && dft::all_wf(s) {
                if n == 1 {
                    dft::lemma_radix2(s, *omega);
                } else {
                    assert(dft::dft(s, *omega) =~= s);
                }
            }
        }
        return ;
    }
    bit_reverse_permute(a);
    proof {
        dft::lemma_bit_reversed(s, lg(n as nat));
        dft::lemma_blocks_start(s, *omega);
        lemma2_to64();
        lemma_lg(0);
    }
    let mut half: usize = 1;
    while half < n
        invariant
            a@.len() == n,
            s.len() == n,
            n > 1,
            1 <= half <= n,
            dft::power_of_two(n as nat),
            dft::power_of_two(half as nat),
            omega.wf() ==> a@ == dft::blocks(s, half as nat, *omega),
        decreases n - half,
    {
        proof {
            dft::lemma_power_divides(half as nat, n as nat);
            lemma_doubles(half as nat, n as nat);
        }
        let len: usize = half * 2;
        // w_len = omega^(n/len) is a primitive len-th root of unity.
        let e: [u64; 4] = [(n / len) as u64, 0, 0, 0];
        let w_len = omega.pow(&e);
        let ghost before = a@;
        proof {
            assert(limbs::value(e) == n / len);
        }
        ntt_stage_in_place(a, len, &w_len);
        proof {
            if omega.wf() {
                dft::lemma_stage(s, half as nat, *omega);
            }
        }
        half = len;
    }
    proof {
        if omega.wf() && dft::all_wf(s) && dft::primitive(*omega, n as nat) {
            dft::lemma_radix2(s, *omega);
        }
    }
}

/// Twice a smaller power of two still fits.
proof fn lemma_doubles(half: nat, n: nat)
    requires
        dft::power_of_two(half),
        dft::power_of_two(n),
        half < n,
    ensures
        2 * half <= n,
        dft::power_of_two(2 * half),
        n % (2 * half) == 0,
{
    let (j, k) = (lg(half), lg(n));
    if j >= k {
        if j > k {
            lemma_pow2_strictly_increases(k, j);
        }
    }
    lemma_pow2_unfold(j + 1);
    if j + 1 < k {
        lemma_pow2_strictly_increases(j + 1, k);
    }
    lemma_lg(j + 1);
    dft::lemma_power_divides(2 * half, n);
}

/// One radix-2 stage on blocks of length `len`, with the `len`-th root `w_len`.
fn ntt_stage_in_place(a: &mut [Fr], len: usize, w_len: &Fr)
    requires
        len >= 2,
        len % 2 == 0,
        len <= old(a)@.len(),
        old(a)@.len() % (len as nat) == 0,
    ensures
        final(a)@ == dft::stage(old(a)@, len as int, *w_len),
{
    let n = a.len();
    let half: usize = len / 2;
    let ghost s = a@;
    let mut start: usize = 0;
    while start < n
        invariant
            a@.len() == n,
            s.len() == n,
            len == 2 * half,
            half >= 1,
            n % len == 0,
            start <= n,
            start % len == 0,
            forall|i: int|
                0 <= i < n ==> #[trigger] a@[i] == (if i < start {
                    dft::butterfly(s, len as int, *w_len, i)
                } else {
                    s[i]
                }),
        decreases n - start,
    {
        proof {
            dft::lemma_block_fits(start as int, n as int, len as int);
        }
        let mut w = <Fr as Field>::one();
        let mut k: usize = 0;
        while k < half
            invariant
                a@.len() == n,
                s.len() == n,
                len == 2 * half,
                half >= 1,
                k <= half,
                start + len <= n,
                start % len == 0,
                w == ring::power(*w_len, k as nat),
                forall|i: int|
                    0 <= i < n ==> #[trigger] a@[i] == (if i < start + k || start + half <= i < start
                        + half + k {
                        dft::butterfly(s, len as int, *w_len, i)
                    } else {
                        s[i]
                    }),
            decreases half - k,
        {
            proof {
                lemma_offset(start as int, k as int, len as int);
                lemma_offset(start as int, (k + half) as int, len as int);
            }
            let u = a[start + k];
            let v = a[start + k + half].mul(&w);
            a[start + k] = u.add(&v);
            a[start + k + half] = u.sub(&v);
            w = w.mul(w_len);
            k = k + 1;
        }
        proof {
            lemma_mod_add_multiples_vanish(start as int, len as int);
        }
        start = start + len;
    }
    proof {
        assert(a@ =~= dft::stage(s, len as int, *w_len));
    }
}

/// Offsets into a block.
proof fn lemma_offset(start: int, k: int, len: int)
    requires
        start % len == 0,
        0 <= k < len,
    ensures
        (start + k) % len == k,
{
    lemma_add_mod_noop(start, k, len);
    lemma_small_mod(k as nat, len as nat);
}

/// Coefficients → evaluations on `H = <omega_n>`.
pub fn forward(a: &mut [Fr])
    requires
        domain(old(a)@.len()),
    ensures
        final(a)@.len() == old(a)@.len(),
        dft::all_wf(old(a)@) ==> final(a)@ == dft::dft(old(a)@, omega(old(a)@.len())),
        dft::all_wf(old(a)@) ==> dft::all_wf(final(a)@),
{
    let ghost s = a@;
    let w = Fr::two_adic_root(lg2(a.len()));
    proof {
        lemma_domain(s.len());
    }
    ntt_in_place(a, &w);
    proof {
        if dft::all_wf(s) {
            lemma_dft_wf(s, w);
        }
    }
}

/// Transforms stay in the field.
pub proof fn lemma_dft_wf(a: Seq<Fr>, w: Fr)
    requires
        dft::all_wf(a),
        w.wf(),
    ensures
        dft::all_wf(dft::dft(a, w)),
{
    broadcast use ring::lemma_wf_power;

    assert forall|k: int| 0 <= k < a.len() implies (#[trigger] dft::dft(a, w)[k]).wf() by {
        dft::lemma_eval_wf(a, ring::power(w, k as nat));
    }
}

/// Evaluations on `H` → coefficients (inverse transform, scaled by `1/n`).
pub fn inverse(a: &mut [Fr])
    requires
        domain(old(a)@.len()),
    ensures
        final(a)@.len() == old(a)@.len(),
        dft::all_wf(old(a)@) ==> final(a)@ == interpolated(old(a)@),
        dft::all_wf(old(a)@) ==> dft::dft(final(a)@, omega(old(a)@.len())) == old(a)@,
        dft::all_wf(old(a)@) ==> dft::all_wf(final(a)@),
{
    let n = a.len();
    let ghost s = a@;
    proof {
        lemma_domain(s.len());
    }
    let omega = Fr::two_adic_root(lg2(n));
    let omega_inv = match omega.inverse() {
        Some(x) => x,
        None => omega,
    };
    ntt_in_place(a, &omega_inv);
    let n_field = Fr::from_u64(n as u64);
    let n_inv = match n_field.inverse() {
        Some(x) => x,
        None => n_field,
    };
    let ghost t = a@;
    let mut i: usize = 0;
    while i < n
        invariant
            i <= n,
            a@.len() == n,
            t.len() == n,
            forall|j: int|
                0 <= j < n ==> #[trigger] a@[j] == (if j < i {
                    t[j] * n_inv
                } else {
                    t[j]
                }),
        decreases n - i,
    {
        let x = a[i].mul(&n_inv);
        a[i] = x;
        i = i + 1;
    }
    proof {
        if dft::all_wf(s) {
            assert(a@ =~= interpolated(s));
            dft::lemma_inversion(s, omega, omega_inv, n_inv);
            lemma_interpolated_wf(s);
        }
    }
}

/// Interpolation stays in the field.
pub proof fn lemma_interpolated_wf(a: Seq<Fr>)
    requires
        dft::all_wf(a),
        domain(a.len()),
    ensures
        dft::all_wf(interpolated(a)),
        interpolated(a).len() == a.len(),
{
    broadcast use {ring::group_wf, ring::lemma_wf_power};

    lemma_domain(a.len());
    let v = omega(a.len()).inv_spec();
    assert forall|k: int| 0 <= k < a.len() implies (#[trigger] interpolated(a)[k]).wf() by {
        dft::lemma_eval_wf(a, ring::power(v, k as nat));
    }
}

/// Multiply coefficient `i` by `shift^i`, so that a forward transform of the
/// result evaluates the polynomial on the coset `shift·H`.
pub fn coset_scale(a: &mut [Fr], shift: &Fr)
    ensures
        final(a)@ == Seq::new(
            old(a)@.len(),
            |i: int| old(a)@[i] * ring::power(*shift, i as nat),
        ),
{
    let n = a.len();
    let ghost s = a@;
    let mut power = <Fr as Field>::one();
    let mut i: usize = 0;
    while i < n
        invariant
            i <= n,
            a@.len() == n,
            s.len() == n,
            power == ring::power(*shift, i as nat),
            forall|j: int|
                0 <= j < n ==> #[trigger] a@[j] == (if j < i {
                    s[j] * ring::power(*shift, j as nat)
                } else {
                    s[j]
                }),
        decreases n - i,
    {
        let x = a[i].mul(&power);
        a[i] = x;
        power = power.mul(shift);
        i = i + 1;
    }
    proof {
        assert(a@ =~= Seq::new(s.len(), |i: int| s[i] * ring::power(*shift, i as nat)));
    }
}

/// The per-polynomial sequence of the prover: evaluations on `H` in,
/// evaluations on the coset `shift·H` out (inverse NTT, coset scale, forward
/// NTT).
pub fn h_to_coset(a: &mut [Fr], shift: &Fr)
    requires
        domain(old(a)@.len()),
    ensures
        final(a)@.len() == old(a)@.len(),
        dft::all_wf(old(a)@) && shift.wf() ==> final(a)@ == on_coset(old(a)@, *shift),
        dft::all_wf(old(a)@) && shift.wf() ==> dft::all_wf(final(a)@),
{
    let ghost s = a@;
    inverse(a);
    let ghost c = a@;
    coset_scale(a, shift);
    proof {
        if dft::all_wf(s) && shift.wf() {
            broadcast use {ring::group_wf, ring::lemma_wf_power};

            assert forall|i: int| 0 <= i < s.len() implies (#[trigger] a@[i]).wf() by {
                assert(c[i].wf());
            }
        }
    }
    let ghost b = a@;
    forward(a);
    proof {
        if dft::all_wf(s) && shift.wf() {
            broadcast use {ring::group_wf, ring::lemma_wf_power};

            lemma_domain(s.len());
            let w = omega(s.len());
            assert forall|k: int| 0 <= k < s.len() implies #[trigger] a@[k] == on_coset(
                s,
                *shift,
            )[k] by {
                dft::lemma_shifted_eval(c, b, *shift, ring::power(w, k as nat));
            }
            assert(a@ =~= on_coset(s, *shift));
        }
    }
}

/// Permuting into bit-reversed order twice changes nothing.
pub proof fn lemma_bit_reversal_involutive(a: Seq<Fr>)
    requires
        dft::power_of_two(a.len()),
    ensures
        dft::bit_reversed(dft::bit_reversed(a, lg(a.len())), lg(a.len())) == a,
{
    let k = lg(a.len());
    let b = dft::bit_reversed(a, k);
    assert forall|i: int| 0 <= i < a.len() implies #[trigger] dft::bit_reversed(b, k)[i]
        == a[i] by {
        dft::lemma_reversed_bound(i as nat, k);
        dft::lemma_reversed_twice(i as nat, k);
    }
    assert(dft::bit_reversed(b, k) =~= a);
}

/// The forward and the inverse transform undo each other.
pub proof fn lemma_transforms_invert(a: Seq<Fr>)
    requires
        domain(a.len()),
        dft::all_wf(a),
    ensures
        dft::dft(interpolated(a), omega(a.len())) == a,
        interpolated(dft::dft(a, omega(a.len()))) == a,
{
    let n = a.len();
    lemma_domain(n);
    dft::lemma_inversion(a, omega(n), omega(n).inv_spec(), Fr::of(n as int).inv_spec());
}

/// Moving the evaluations of a polynomial from `H` to a coset gives its evaluations there.
pub proof fn lemma_coset_evaluates(c: Seq<Fr>, shift: Fr, k: int)
    requires
        domain(c.len()),
        dft::all_wf(c),
        0 <= k < c.len(),
    ensures
        on_coset(dft::dft(c, omega(c.len())), shift)[k] == dft::eval(
            c,
            shift * ring::power(omega(c.len()), k as nat),
        ),
{
    lemma_transforms_invert(c);
}

} // verus!
