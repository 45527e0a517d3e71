//! Field elements, points and proofs as text for a reader, and their comparison.

use vstd::arithmetic::div_mod::*;
use vstd::arithmetic::mul::*;
use vstd::arithmetic::power::*;
use vstd::prelude::*;

use crate::ec::Affine;
use crate::field::{Field, Fp, Fr};
use crate::fp2::Fp2;
use crate::limbs;
use crate::prover::Proof;
use crate::text;

verus! {

/// A value that can be compared and written out.
pub trait Show: Sized {
    /// The text.
    spec fn text(self) -> Seq<char>;

    /// The text.
    fn show(&self) -> (r: String)
        ensures
            r@ == self.text(),
    ;

    /// Whether two values are the same.
    fn alike(&self, other: &Self) -> (r: bool)
        ensures
            r == (*self == *other),
    ;
}

impl Show for u32 {
    open spec fn text(self) -> Seq<char> {
        text::decimal_of(self as nat)
    }

    fn show(&self) -> (r: String) {
        let mut r = String::new();
        text::push_u64(&mut r, *self as u64);
        proof {
            assert(r@ =~= text::decimal_of(*self as nat));
        }
        r
    }

    fn alike(&self, other: &Self) -> (r: bool) {
        *self == *other
    }
}

/// Hexadecimal digits of a number that is cut in two.
proof fn lemma_hex_concat(hi: nat, lo: nat, n: nat, k: nat)
    requires
        lo < pow(16, k),
    ensures
        text::hex_of((hi * pow(16, k) + lo) as nat, n + k) == text::hex_of(hi, n) + text::hex_of(
            lo,
            k,
        ),
    decreases k,
{
    if k == 0 {
        lemma_pow0(16);
        assert(hi * pow(16, 0) + lo == hi);
        assert(text::hex_of(hi, n) + text::hex_of(lo, 0) =~= text::hex_of(hi, n));
    } else {
        let j = (k - 1) as nat;
        let p = pow(16, j);
        reveal(pow);
        lemma_pow_positive(16, j);
        assert(pow(16, k) == 16 * p);
        let v = (hi * pow(16, k) + lo) as nat;
        assert(hi * (16 * p) == 16 * (hi * p)) by (nonlinear_arith);
        lemma_fundamental_div_mod(lo as int, 16);
        assert(v == 16 * (hi * p + lo / 16) + lo % 16);
        lemma_fundamental_div_mod_converse(v as int, 16, hi * p + lo / 16, (lo % 16) as int);
        assert((lo / 16) < p);
        assert(hi * p >= 0) by (nonlinear_arith)
            requires
                p > 0,
        ;
        lemma_hex_concat(hi, lo / 16, n, j);
        assert((n + k - 1) as nat == n + j);
        assert(text::hex_of(v, n + k) =~= text::hex_of(hi, n) + text::hex_of(lo, k));
    }
}

/// Append a 256-bit number in hexadecimal.
fn push_limbs(out: &mut String, l: [u64; 4])
    ensures
        final(out)@ == old(out)@ + text::hex_of(limbs::value(l) as nat, 64),
{
    let ghost before = out@;
    text::push_hex(out, l[3], 16);
    text::push_hex(out, l[2], 16);
    text::push_hex(out, l[1], 16);
    text::push_hex(out, l[0], 16);
    proof {
        let (a, b, c, d) = (l@[3] as nat, l@[2] as nat, l@[1] as nat, l@[0] as nat);
        let w = 0x1_0000_0000_0000_0000nat;
        assert(pow(16, 16) == w) by {
            reveal_with_fuel(pow, 17);
        }
        lemma_hex_concat(a, b, 16, 16);
        lemma_hex_concat(a * w + b, c, 32, 16);
        lemma_hex_concat((a * w + b) * w + c, d, 48, 16);
        limbs::lemma_value(l);
        assert(((a * w + b) * w + c) * w + d == limbs::value(l));
        assert(out@ =~= before + text::hex_of(limbs::value(l) as nat, 64));
    }
}

impl Show for Fp {
    open spec fn text(self) -> Seq<char> {
        "Fp(0x"@ + text::hex_of(self.val() as nat, 64) + ")"@
    }

    fn show(&self) -> (r: String) {
        let mut r = text::owned("Fp(0x");
        push_limbs(&mut r, self.to_canonical());
        text::push(&mut r, ")");
        r
    }

    fn alike(&self, other: &Self) -> (r: bool) {
        self.same(other)
    }
}

impl Show for Fr {
    open spec fn text(self) -> Seq<char> {
        "Fr(0x"@ + text::hex_of(self.val() as nat, 64) + ")"@
    }

    fn show(&self) -> (r: String) {
        let mut r = text::owned("Fr(0x");
        push_limbs(&mut r, self.to_canonical());
        text::push(&mut r, ")");
        r
    }

    fn alike(&self, other: &Self) -> (r: bool) {
        self.same(other)
    }
}

impl Show for Fp2 {
    open spec fn text(self) -> Seq<char> {
        "Fp2("@ + self.c0.text() + " + "@ + self.c1.text() + " u)"@
    }

    fn show(&self) -> (r: String) {
        let mut r = text::owned("Fp2(");
        text::push(&mut r, self.c0.show().as_str());
        text::push(&mut r, " + ");
        text::push(&mut r, self.c1.show().as_str());
        text::push(&mut r, " u)");
        r
    }

    fn alike(&self, other: &Self) -> (r: bool) {
        self.same(other)
    }
}

impl<F: Field + Show> Show for Affine<F> {
    open spec fn text(self) -> Seq<char> {
        if self.infinity {
            "Affine(infinity)"@
        } else {
            "Affine("@ + self.x.text() + ", "@ + self.y.text() + ")"@
        }
    }

    fn show(&self) -> (r: String) {
        if self.infinity {
            text::owned("Affine(infinity)")
        } else {
            let mut r = text::owned("Affine(");
            text::push(&mut r, self.x.show().as_str());
            text::push(&mut r, ", ");
            text::push(&mut r, self.y.show().as_str());
            text::push(&mut r, ")");
            r
        }
    }

    fn alike(&self, other: &Self) -> (r: bool) {
        self.x.same(&other.x) && self.y.same(&other.y) && self.infinity == other.infinity
    }
}

impl Show for Proof {
    open spec fn text(self) -> Seq<char> {
        "Proof { a: "@ + self.a.text() + ", b: "@ + self.b.text() + ", c: "@ + self.c.text()
            + " }"@
    }

    fn show(&self) -> (r: String) {
        let mut r = text::owned("Proof { a: ");
        text::push(&mut r, self.a.show().as_str());
        text::push(&mut r, ", b: ");
        text::push(&mut r, self.b.show().as_str());
        text::push(&mut r, ", c: ");
        text::push(&mut r, self.c.show().as_str());
        text::push(&mut r, " }");
        r
    }

    fn alike(&self, other: &Self) -> (r: bool) {
        self.a.alike(&other.a) && self.b.alike(&other.b) && self.c.alike(&other.c)
    }
}

} // verus!
