//! Proofs, public inputs and verifying keys in snarkjs's JSON shapes.

use vstd::prelude::*;

use crate::ec::{G1Affine, G2Affine};
use crate::field::{Field, Fp, Fr};
use crate::prover::Proof;
use crate::reading;
use crate::text;
use crate::text::{decimal, owned, push, push_u64};
use crate::zkey::{VerifyingKey, Zkey};

verus! {

/// The residue of a base-field element in decimal.
pub open spec fn fp_text(x: Fp) -> Seq<char> {
    text::decimal_of(x.val() as nat)
}

/// A G1 point: projective coordinates with `z = 1`, or `(0, 1, 0)` for the identity.
pub open spec fn g1_text(p: G1Affine) -> Seq<char> {
    if p.infinity {
        "[\"0\",\"1\",\"0\"]"@
    } else {
        "[\""@ + fp_text(p.x) + "\",\""@ + fp_text(p.y) + "\",\"1\"]"@
    }
}

/// A G2 point: projective coordinates with `z = 1`, or `(0, 1, 0)` for the identity.
pub open spec fn g2_text(p: G2Affine) -> Seq<char> {
    if p.infinity {
        "[[\"0\",\"0\"],[\"1\",\"0\"],[\"0\",\"0\"]]"@
    } else {
        "[[\""@ + fp_text(p.x.c0) + "\",\""@ + fp_text(p.x.c1) + "\"],[\""@ + fp_text(p.y.c0)
            + "\",\""@ + fp_text(p.y.c1) + "\"],[\"1\",\"0\"]]"@
    }
}

/// Items separated by commas.
pub open spec fn listed(items: Seq<Seq<char>>) -> Seq<char>
    decreases items.len(),
{
    if items.len() == 0 {
        Seq::empty()
    } else if items.len() == 1 {
        items[0]
    } else {
        listed(items.drop_last()) + ","@ + items.last()
    }
}

/// A proof in snarkjs's `proof.json` shape.
pub open spec fn proof_text(proof: Proof) -> Seq<char> {
    "{ \"pi_a\": "@ + g1_text(proof.a) + ", \"pi_b\": "@ + g2_text(proof.b) + ", \"pi_c\": "@
        + g1_text(proof.c) + ", \"protocol\": \"groth16\", \"curve\": \"bn128\" }"@
}

/// A quoted witness value.
pub open spec fn input_text(w: Fr) -> Seq<char> {
    "\""@ + text::decimal_of(w.val() as nat) + "\""@
}

/// Public inputs in snarkjs's `public.json` shape.
pub open spec fn public_text(witness: Seq<Fr>, num_public: int) -> Seq<char> {
    "["@ + listed(Seq::new(num_public as nat, |i: int| input_text(witness[i + 1]))) + "]"@
}

/// A verifying key in snarkjs's `verification_key.json` shape.
pub open spec fn verifying_key_text(zkey: Zkey) -> Seq<char> {
    "{ \"protocol\": \"groth16\", \"curve\": \"bn128\", \"nPublic\": "@ + text::decimal_of(
        zkey.num_public as nat,
    ) + ", \"vk_alpha_1\": "@ + g1_text(zkey.vk.alpha_g1) + ", \"vk_beta_2\": "@ + g2_text(
        zkey.vk.beta_g2,
    ) + ", \"vk_gamma_2\": "@ + g2_text(zkey.vk.gamma_g2) + ", \"vk_delta_2\": "@ + g2_text(
        zkey.vk.delta_g2,
    ) + ", \"vk_alphabeta_12\": [], \"IC\": ["@ + listed(
        Seq::new(zkey.ic@.len(), |i: int| g1_text(zkey.ic@[i])),
    ) + "] }"@
}

fn push_fp(out: &mut String, x: &Fp)
    ensures
        final(out)@ == old(out)@ + fp_text(*x),
{
    let d = decimal(x.to_canonical());
    push(out, d.as_str());
}

fn g1_json(p: &G1Affine) -> (r: String)
    ensures
        r@ == g1_text(*p),
{
    if p.infinity {
        return owned("[\"0\",\"1\",\"0\"]");
    }
    let mut r = owned("[\"");
    push_fp(&mut r, &p.x);
    push(&mut r, "\",\"");
    push_fp(&mut r, &p.y);
    push(&mut r, "\",\"1\"]");
    r
}

fn g2_json(p: &G2Affine) -> (r: String)
    ensures
        r@ == g2_text(*p),
{
    if p.infinity {
        return owned("[[\"0\",\"0\"],[\"1\",\"0\"],[\"0\",\"0\"]]");
    }
    let mut r = owned("[[\"");
    push_fp(&mut r, &p.x.c0);
    push(&mut r, "\",\"");
    push_fp(&mut r, &p.x.c1);
    push(&mut r, "\"],[\"");
    push_fp(&mut r, &p.y.c0);
    push(&mut r, "\",\"");
    push_fp(&mut r, &p.y.c1);
    push(&mut r, "\"],[\"1\",\"0\"]]");
    r
}

/// The proof in snarkjs's `proof.json` shape.
pub fn proof_json(proof: &Proof) -> (r: String)
    ensures
        r@ == proof_text(*proof),
{
    let mut r = owned("{ \"pi_a\": ");
    push(&mut r, g1_json(&proof.a).as_str());
    push(&mut r, ", \"pi_b\": ");
    push(&mut r, g2_json(&proof.b).as_str());
    push(&mut r, ", \"pi_c\": ");
    push(&mut r, g1_json(&proof.c).as_str());
    push(&mut r, ", \"protocol\": \"groth16\", \"curve\": \"bn128\" }");
    r
}

/// The public inputs `w[1..=num_public]` in snarkjs's `public.json` shape.
pub fn public_json(witness: &[Fr], num_public: usize) -> (r: String)
    requires
        num_public < witness@.len(),
    ensures
        r@ == public_text(witness@, num_public as int),
{
    let mut r = owned("[");
    let ghost items = Seq::new(num_public as nat, |i: int| input_text(witness@[i + 1]));
    let mut i: usize = 0;
    while i < num_public
        invariant
            i <= num_public,
            num_public < witness@.len(),
            items == Seq::new(num_public as nat, |i: int| input_text(witness@[i + 1])),
            r@ =~= "["@ + listed(items.take(i as int)),
        decreases num_public - i,
    {
        proof {
            assert(items.take(i + 1).drop_last() =~= items.take(i as int));
            assert(items.take(i + 1).last() == items[i as int]);
        }
        if i > 0 {
            push(&mut r, ",");
        }
        push(&mut r, "\"");
        let d = decimal(witness[i + 1].to_canonical());
        push(&mut r, d.as_str());
        push(&mut r, "\"");
        i = i + 1;
    }
    proof {
        assert(items.take(num_public as int) =~= items);
    }
    push(&mut r, "]");
    r
}

/// The verifying key in snarkjs's `verification_key.json` shape;
/// `vk_alphabeta_12` is left empty because the verifier recomputes the
/// pairing.
pub fn verifying_key_json(zkey: &Zkey) -> (r: String)
    ensures
        r@ == verifying_key_text(*zkey),
{
    let mut ic = String::new();
    let ghost items = Seq::new(zkey.ic@.len(), |i: int| g1_text(zkey.ic@[i]));
    let mut i: usize = 0;
    while i < zkey.ic.len()
        invariant
            i <= zkey.ic@.len(),
            items == Seq::new(zkey.ic@.len(), |i: int| g1_text(zkey.ic@[i])),
            ic@ =~= listed(items.take(i as int)),
        decreases zkey.ic@.len() - i,
    {
        proof {
            assert(items.take(i + 1).drop_last() =~= items.take(i as int));
            assert(items.take(i + 1).last() == items[i as int]);
        }
        if i > 0 {
            push(&mut ic, ",");
        }
        push(&mut ic, g1_json(&zkey.ic[i]).as_str());
        i = i + 1;
    }
    proof {
        assert(items.take(i as int) =~= items);
    }
    let mut r = owned("{ \"protocol\": \"groth16\", \"curve\": \"bn128\", \"nPublic\": ");
    push_u64(&mut r, zkey.num_public as u64);
    push(&mut r, ", \"vk_alpha_1\": ");
    push(&mut r, g1_json(&zkey.vk.alpha_g1).as_str());
    push(&mut r, ", \"vk_beta_2\": ");
    push(&mut r, g2_json(&zkey.vk.beta_g2).as_str());
    push(&mut r, ", \"vk_gamma_2\": ");
    push(&mut r, g2_json(&zkey.vk.gamma_g2).as_str());
    push(&mut r, ", \"vk_delta_2\": ");
    push(&mut r, g2_json(&zkey.vk.delta_g2).as_str());
    push(&mut r, ", \"vk_alphabeta_12\": [], \"IC\": [");
    push(&mut r, ic.as_str());
    push(&mut r, "] }");
    r
}

// ---- reading back ------------------------------------------------------------------------------

/// Items without commas are the fields of their list.
proof fn lemma_listed(items: Seq<Seq<char>>)
    requires
        items.len() > 0,
        forall|i: int| 0 <= i < items.len() ==> reading::free(#[trigger] items[i], ','),
    ensures
        reading::fields(listed(items), ',') == items,
    decreases items.len(),
{
    reveal_strlit(",");
    if items.len() == 1 {
        reading::lemma_fields_free(items[0], ',');
        assert(items =~= seq![items[0]]);
    } else {
        let front = items.drop_last();
        assert forall|i: int| 0 <= i < front.len() implies reading::free(
            #[trigger] front[i],
            ',',
        ) by {
            assert(front[i] == items[i]);
        }
        lemma_listed(front);
        reading::lemma_fields_next(listed(front), items.last(), ',');
        assert(listed(items) =~= listed(front).push(',') + items.last());
        assert(front.push(items.last()) =~= items);
    }
}

/// The text is that of a number in quotation marks.
pub open spec fn quotes_number(s: Seq<char>, n: nat) -> bool {
    &&& s.len() >= 3
    &&& s[0] == '"'
    &&& s.last() == '"'
    &&& reading::numerals(s.subrange(1, s.len() - 1))
    &&& reading::number(s.subrange(1, s.len() - 1)) == n
}

/// `public.json` is a list in brackets whose fields, in order, are the residues of the public
/// inputs `w[1]` to `w[num_public]`, in quotation marks.
pub proof fn lemma_public_reads_back(witness: Seq<Fr>, num_public: int)
    requires
        0 <= num_public < witness.len(),
    ensures
        ({
            let t = public_text(witness, num_public);
            let inner = t.subrange(1, t.len() - 1);
            let items = reading::fields(inner, ',');
            &&& t.len() >= 2
            &&& t[0] == '['
            &&& t.last() == ']'
            &&& num_public == 0 ==> inner.len() == 0
            &&& num_public > 0 ==> items.len() == num_public
            &&& forall|k: int|
                0 <= k < num_public ==> quotes_number(
                    #[trigger] items[k],
                    witness[k + 1].val() as nat,
                )
        }),
{
    reveal_strlit("[");
    reveal_strlit("]");
    reveal_strlit("\"");
    let items = Seq::new(num_public as nat, |i: int| input_text(witness[i + 1]));
    let t = public_text(witness, num_public);
    assert(t.subrange(1, t.len() - 1) =~= listed(items));
    assert forall|k: int| 0 <= k < items.len() implies quotes_number(
        #[trigger] items[k],
        witness[k + 1].val() as nat,
    ) && reading::free(items[k], ',') by {
        let d = text::decimal_of(witness[k + 1].val() as nat);
        reading::lemma_decimal(witness[k + 1].val() as nat);
        reading::lemma_decimal_free(witness[k + 1].val() as nat);
        assert(items[k] =~= seq!['"'] + d + seq!['"']);
        assert(items[k].subrange(1, items[k].len() - 1) =~= d);
    }
    if num_public > 0 {
        lemma_listed(items);
    }
}

/// The numbers that texts spell; one that spells none has `-1`.
pub open spec fn numbers(s: Seq<Seq<char>>) -> Seq<int> {
    s.map_values(
        |t: Seq<char>|
            if reading::numerals(t) {
                reading::number(t) as int
            } else {
                -1
            },
    )
}

/// The projective coordinates of a point in G1: `(x, y, 1)`, or `(0, 1, 0)` for the identity.
pub open spec fn g1_numbers(p: G1Affine) -> Seq<int> {
    if p.infinity {
        seq![0int, 1, 0]
    } else {
        seq![p.x.val(), p.y.val(), 1]
    }
}

/// The projective coordinates of a point in G2, each as its two parts `c0, c1`.
pub open spec fn g2_numbers(p: G2Affine) -> Seq<int> {
    if p.infinity {
        seq![0int, 0, 1, 0, 0, 0]
    } else {
        seq![
            p.x.c0.val(),
            p.x.c1.val(),
            p.y.c0.val(),
            p.y.c1.val(),
            1,
            0,
        ]
    }
}

/// The quotations of a point in G1.
spec fn g1_parts(p: G1Affine) -> (Seq<char>, Seq<char>, Seq<char>) {
    if p.infinity {
        (seq!['0'], seq!['1'], seq!['0'])
    } else {
        (fp_text(p.x), fp_text(p.y), seq!['1'])
    }
}

/// A point in G1 after a text: its three quotations.
proof fn lemma_g1_fields(a: Seq<char>, p: G1Affine, f: Seq<Seq<char>>, last: Seq<char>)
    requires
        reading::fields(a, '"') == f.push(last),
    ensures
        reading::fields(a + g1_text(p), '"') == f.push(last.push('[')).push(g1_parts(p).0).push(
            seq![','],
        ).push(g1_parts(p).1).push(seq![',']).push(g1_parts(p).2).push(seq![']']),
        numbers(seq![g1_parts(p).0, g1_parts(p).1, g1_parts(p).2]) == g1_numbers(p),
{
    let (x, y, z) = g1_parts(p);
    let (comma, close) = (seq![','], seq![']']);
    reveal_strlit("[\"0\",\"1\",\"0\"]");
    reveal_strlit("[\"");
    reveal_strlit("\",\"");
    reveal_strlit("\",\"1\"]");
    reading::lemma_decimal_free(p.x.val() as nat);
    reading::lemma_decimal_free(p.y.val() as nat);
    reading::lemma_decimal(p.x.val() as nat);
    reading::lemma_decimal(p.y.val() as nat);
    assert(seq!['0'].drop_last() =~= Seq::<char>::empty());
    assert(seq!['1'].drop_last() =~= Seq::<char>::empty());
    assert(reading::number(seq!['0']) == 0 && reading::number(seq!['1']) == 1) by {
        reveal_with_fuel(reading::number, 2);
    }
    let open = a + seq!['['];
    reading::lemma_fields_extend(a, seq!['['], '"');
    assert(f.push(last).drop_last() =~= f);
    assert(last + seq!['['] =~= last.push('['));
    let s1 = open + reading::in_quotes(x, comma);
    let s2 = s1 + reading::in_quotes(y, comma);
    let s3 = s2 + reading::in_quotes(z, close);
    reading::lemma_quotation(open, x, comma);
    reading::lemma_quotation(s1, y, comma);
    reading::lemma_quotation(s2, z, close);
    assert(a + g1_text(p) =~= s3);
    assert(numbers(seq![x, y, z]) =~= g1_numbers(p));
}

/// The quotations of a point in G2.
spec fn g2_parts(p: G2Affine) -> (Seq<char>, Seq<char>, Seq<char>, Seq<char>, Seq<char>) {
    if p.infinity {
        (seq!['0'], seq!['0'], seq!['1'], seq!['0'], seq!['0'])
    } else {
        (fp_text(p.x.c0), fp_text(p.x.c1), fp_text(p.y.c0), fp_text(p.y.c1), seq!['1'])
    }
}

/// How a point in G2 is spelled.
#[verifier::rlimit(30)]
proof fn lemma_g2_spelled(p: G2Affine)
    ensures
        g2_text(p) == seq!['[', '['] + (reading::in_quotes(g2_parts(p).0, seq![','])
            + (reading::in_quotes(g2_parts(p).1, seq![']', ',', '[']) + (reading::in_quotes(
            g2_parts(p).2,
            seq![','],
        ) + (reading::in_quotes(g2_parts(p).3, seq![']', ',', '[']) + (reading::in_quotes(
            g2_parts(p).4,
            seq![','],
        ) + reading::in_quotes(seq!['0'], seq![']', ']'])))))),
{
    let (x0, x1, y0, y1, z) = g2_parts(p);
    let (comma, next, close) = (seq![','], seq![']', ',', '['], seq![']', ']']);
    let e6 = reading::in_quotes(seq!['0'], close);
    let e5 = reading::in_quotes(z, comma) + e6;
    let e4 = reading::in_quotes(y1, next) + e5;
    let e3 = reading::in_quotes(y0, comma) + e4;
    let e2 = reading::in_quotes(x1, next) + e3;
    let e1 = reading::in_quotes(x0, comma) + e2;
    reveal_strlit("[[\"0\",\"0\"],[\"1\",\"0\"],[\"0\",\"0\"]]");
    reveal_strlit("[[\"");
    reveal_strlit("\",\"");
    reveal_strlit("\"],[\"");
    reveal_strlit("\"],[\"1\",\"0\"]]");
    if p.infinity {
        assert(g2_text(p) =~= seq!['[', '['] + e1);
    } else {
        assert("\"],[\"1\",\"0\"]]"@ =~= seq!['"'] + next + e5);
        assert("\",\""@ =~= seq!['"', ',', '"']);
        assert("\"],[\""@ =~= seq!['"', ']', ',', '[', '"']);
        assert("[[\""@ =~= seq!['[', '[', '"']);
        assert(g2_text(p) =~= seq!['[', '[', '"'] + x0 + seq!['"', ',', '"'] + x1
            + seq!['"', ']', ',', '[', '"'] + y0 + seq!['"', ',', '"'] + y1 + (seq!['"'] + next
            + e5));
        assert(seq!['"', ',', '"'] + y1 + (seq!['"'] + next + e5) =~= seq!['"'] + comma + e4);
        assert(seq!['"', ']', ',', '[', '"'] + y0 + (seq!['"'] + comma + e4) =~= seq!['"'] + next
            + e3);
        assert(seq!['"', ',', '"'] + x1 + (seq!['"'] + next + e3) =~= seq!['"'] + comma + e2);
        assert(seq!['[', '[', '"'] + x0 + (seq!['"'] + comma + e2) =~= seq!['[', '['] + e1);
        assert(g2_text(p) =~= seq!['[', '[', '"'] + x0 + (seq!['"', ',', '"'] + x1
            + (seq!['"', ']', ',', '[', '"'] + y0 + (seq!['"', ',', '"'] + y1 + (seq!['"'] + next
            + e5)))));
    }
}

/// A point in G2 after a text: its six quotations.
#[verifier::rlimit(30)]
proof fn lemma_g2_fields(a: Seq<char>, p: G2Affine, f: Seq<Seq<char>>, last: Seq<char>)
    requires
        reading::fields(a, '"') == f.push(last),
    ensures
        reading::fields(a + g2_text(p), '"') == f.push(last + seq!['[', '[']).push(
            g2_parts(p).0,
        ).push(seq![',']).push(g2_parts(p).1).push(seq![']', ',', '[']).push(g2_parts(p).2).push(
            seq![','],
        ).push(g2_parts(p).3).push(seq![']', ',', '[']).push(g2_parts(p).4).push(seq![',']).push(
            seq!['0'],
        ).push(seq![']', ']']),
{
    let (x0, x1, y0, y1, z) = g2_parts(p);
    let (comma, next, close) = (seq![','], seq![']', ',', '['], seq![']', ']']);
    reading::lemma_decimal_free(p.x.c0.val() as nat);
    reading::lemma_decimal_free(p.x.c1.val() as nat);
    reading::lemma_decimal_free(p.y.c0.val() as nat);
    reading::lemma_decimal_free(p.y.c1.val() as nat);
    let e6 = reading::in_quotes(seq!['0'], close);
    let e5 = reading::in_quotes(z, comma) + e6;
    let e4 = reading::in_quotes(y1, next) + e5;
    let e3 = reading::in_quotes(y0, comma) + e4;
    let e2 = reading::in_quotes(x1, next) + e3;
    let e1 = reading::in_quotes(x0, comma) + e2;
    let open = a + seq!['[', '['];
    reading::lemma_fields_extend(a, seq!['[', '['], '"');
    assert(f.push(last).drop_last() =~= f);
    let s1 = open + reading::in_quotes(x0, comma);
    let s2 = s1 + reading::in_quotes(x1, next);
    let s3 = s2 + reading::in_quotes(y0, comma);
    let s4 = s3 + reading::in_quotes(y1, next);
    let s5 = s4 + reading::in_quotes(z, comma);
    let s6 = s5 + e6;
    reading::lemma_quotation(open, x0, comma);
    reading::lemma_quotation(s1, x1, next);
    reading::lemma_quotation(s2, y0, comma);
    reading::lemma_quotation(s3, y1, next);
    reading::lemma_quotation(s4, z, comma);
    reading::lemma_quotation(s5, seq!['0'], close);
    lemma_g2_spelled(p);
    assert(a + g2_text(p) =~= open + e1);
    assert(open + e1 =~= s1 + e2);
    assert(s1 + e2 =~= s2 + e3);
    assert(s2 + e3 =~= s3 + e4);
    assert(s3 + e4 =~= s4 + e5);
    assert(s4 + e5 =~= s6);
}

/// The quotations of a point in G2 are its coordinates.
proof fn lemma_g2_numbers(p: G2Affine)
    ensures
        numbers(
            seq![
                g2_parts(p).0,
                g2_parts(p).1,
                g2_parts(p).2,
                g2_parts(p).3,
                g2_parts(p).4,
                seq!['0'],
            ],
        ) == g2_numbers(p),
{
    let (x0, x1, y0, y1, z) = g2_parts(p);
    reading::lemma_decimal(p.x.c0.val() as nat);
    reading::lemma_decimal(p.x.c1.val() as nat);
    reading::lemma_decimal(p.y.c0.val() as nat);
    reading::lemma_decimal(p.y.c1.val() as nat);
    assert(seq!['0'].drop_last() =~= Seq::<char>::empty());
    assert(seq!['1'].drop_last() =~= Seq::<char>::empty());
    assert(reading::number(seq!['0']) == 0 && reading::number(seq!['1']) == 1) by {
        reveal_with_fuel(reading::number, 2);
    }
    assert(numbers(seq![x0, x1, y0, y1, z, seq!['0']]) =~= g2_numbers(p));
}

/// The fields of a text that goes on: all but the last are as they were.
spec fn goes_on(before: Seq<Seq<char>>, after: Seq<Seq<char>>, more: int) -> bool {
    &&& before.len() > 0
    &&& after.len() == before.len() + more
    &&& forall|i: int| 0 <= i < before.len() - 1 ==> #[trigger] after[i] == before[i]
}

/// A point in G1 after a text, field by field.
proof fn lemma_g1_after(a: Seq<char>, p: G1Affine)
    ensures
        ({
            let (f, g) = (reading::fields(a, '"'), reading::fields(a + g1_text(p), '"'));
            let n = f.len() as int;
            &&& goes_on(f, g, 6)
            &&& g[n - 1] == f[n - 1] + seq!['[']
            &&& numbers(seq![g[n], g[n + 2], g[n + 4]]) == g1_numbers(p)
            &&& g[n + 1] == seq![',']
            &&& g[n + 3] == seq![',']
            &&& g[n + 5] == seq![']']
        }),
{
    let f = reading::fields(a, '"');
    reading::lemma_fields_some(a, '"');
    assert(f =~= f.drop_last().push(f.last()));
    lemma_g1_fields(a, p, f.drop_last(), f.last());
    assert(f.last().push('[') =~= f.last() + seq!['[']);
}

/// A point in G2 after a text, field by field.
proof fn lemma_g2_after(a: Seq<char>, p: G2Affine)
    ensures
        ({
            let (f, g) = (reading::fields(a, '"'), reading::fields(a + g2_text(p), '"'));
            let n = f.len() as int;
            &&& goes_on(f, g, 12)
            &&& g[n - 1] == f[n - 1] + seq!['[', '[']
            &&& numbers(seq![g[n], g[n + 2], g[n + 4], g[n + 6], g[n + 8], g[n + 10]])
                == g2_numbers(p)
            &&& g[n + 1] == seq![',']
            &&& g[n + 3] == seq![']', ',', '[']
            &&& g[n + 5] == seq![',']
            &&& g[n + 7] == seq![']', ',', '[']
            &&& g[n + 9] == seq![',']
            &&& g[n + 11] == seq![']', ']']
        }),
{
    let f = reading::fields(a, '"');
    reading::lemma_fields_some(a, '"');
    assert(f =~= f.drop_last().push(f.last()));
    lemma_g2_fields(a, p, f.drop_last(), f.last());
    lemma_g2_numbers(p);
}

/// A name in quotation marks after a text, field by field.
proof fn lemma_name_after(a: Seq<char>, pre: Seq<char>, name: Seq<char>, post: Seq<char>)
    requires
        reading::free(pre, '"'),
        reading::free(name, '"'),
        reading::free(post, '"'),
    ensures
        ({
            let t = a + (pre + reading::in_quotes(name, post));
            let (f, g) = (reading::fields(a, '"'), reading::fields(t, '"'));
            let n = f.len() as int;
            &&& goes_on(f, g, 2)
            &&& g[n - 1] == f[n - 1] + pre
            &&& g[n] == name
            &&& g[n + 1] == post
        }),
{
    reading::lemma_fields_some(a, '"');
    reading::lemma_fields_extend(a, pre, '"');
    reading::lemma_quotation(a + pre, name, post);
    assert(a + (pre + reading::in_quotes(name, post)) =~= (a + pre) + reading::in_quotes(
        name,
        post,
    ));
}

/// The quotations of `proof.json`, in order: the names of the three points, each with its
/// coordinates, then the protocol and the curve.
#[verifier::rlimit(40)]
pub proof fn lemma_proof_reads_back(proof: Proof)
    ensures
        ({
            let q = reading::fields(proof_text(proof), '"');
            &&& q.len() == 39
            &&& q[1] == "pi_a"@
            &&& numbers(seq![q[3], q[5], q[7]]) == g1_numbers(proof.a)
            &&& q[9] == "pi_b"@
            &&& numbers(seq![q[11], q[13], q[15], q[17], q[19], q[21]]) == g2_numbers(proof.b)
            &&& q[23] == "pi_c"@
            &&& numbers(seq![q[25], q[27], q[29]]) == g1_numbers(proof.c)
            &&& q[31] == "protocol"@ && q[33] == "groth16"@
            &&& q[35] == "curve"@ && q[37] == "bn128"@
        }),
        ({
            let q = reading::fields(proof_text(proof), '"');
            &&& q[0] == "{ "@ && q[2] == ": ["@ && q[4] == ","@ && q[6] == ","@ && q[8] == "], "@
            &&& q[10] == ": [["@ && q[12] == ","@ && q[14] == "],["@ && q[16] == ","@ && q[18]
                == "],["@ && q[20] == ","@ && q[22] == "]], "@
            &&& q[24] == ": ["@ && q[26] == ","@ && q[28] == ","@ && q[30] == "], "@
            &&& q[32] == ": "@ && q[34] == ", "@ && q[36] == ": "@ && q[38] == " }"@
        }),
{
    reveal_strlit("{ \"pi_a\": ");
    reveal_strlit(", \"pi_b\": ");
    reveal_strlit(", \"pi_c\": ");
    reveal_strlit(", \"protocol\": \"groth16\", \"curve\": \"bn128\" }");
    reveal_strlit("pi_a");
    reveal_strlit("pi_b");
    reveal_strlit("pi_c");
    reveal_strlit("protocol");
    reveal_strlit("groth16");
    reveal_strlit("curve");
    reveal_strlit("bn128");
    reveal_strlit("{ ");
    reveal_strlit(": ");
    reveal_strlit(", ");
    reveal_strlit(",");
    reveal_strlit(": [");
    reveal_strlit(": [[");
    reveal_strlit("], ");
    reveal_strlit("]], ");
    reveal_strlit("],[");
    reveal_strlit(" }");
    let colon = ": "@;
    let none = Seq::<char>::empty();
    let t0 = none + ("{ "@ + reading::in_quotes("pi_a"@, colon));
    let t1 = t0 + g1_text(proof.a);
    let t2 = t1 + (", "@ + reading::in_quotes("pi_b"@, colon));
    let t3 = t2 + g2_text(proof.b);
    let t4 = t3 + (", "@ + reading::in_quotes("pi_c"@, colon));
    let t5 = t4 + g1_text(proof.c);
    let t6 = t5 + (", "@ + reading::in_quotes("protocol"@, colon));
    let t7 = t6 + (none + reading::in_quotes("groth16"@, ", "@));
    let t8 = t7 + (none + reading::in_quotes("curve"@, colon));
    let t9 = t8 + (none + reading::in_quotes("bn128"@, " }"@));
    assert(reading::fields(none, '"') =~= seq![none]);
    lemma_name_after(none, "{ "@, "pi_a"@, colon);
    lemma_g1_after(t0, proof.a);
    lemma_name_after(t1, ", "@, "pi_b"@, colon);
    lemma_g2_after(t2, proof.b);
    lemma_name_after(t3, ", "@, "pi_c"@, colon);
    lemma_g1_after(t4, proof.c);
    lemma_name_after(t5, ", "@, "protocol"@, colon);
    lemma_name_after(t6, none, "groth16"@, ", "@);
    lemma_name_after(t7, none, "curve"@, colon);
    lemma_name_after(t8, none, "bn128"@, " }"@);
    let tail = ", \"protocol\": \"groth16\", \"curve\": \"bn128\" }"@;
    assert(t0 =~= "{ \"pi_a\": "@);
    assert(", "@ + reading::in_quotes("pi_b"@, colon) =~= ", \"pi_b\": "@);
    assert(", "@ + reading::in_quotes("pi_c"@, colon) =~= ", \"pi_c\": "@);
    assert(t5 + tail =~= t9);
    assert(proof_text(proof) =~= t5 + tail);
    let q = reading::fields(t9, '"');
    assert(q[2] =~= ": ["@);
    assert(q[8] =~= "], "@);
    assert(q[10] =~= ": [["@);
    assert(q[22] =~= "]], "@);
    assert(q[24] =~= ": ["@);
    assert(q[30] =~= "], "@);
    assert(seq![','] =~= ","@);
    assert(seq![']', ',', '['] =~= "],["@);
}

/// The texts of points in G1.
spec fn g1_texts(points: Seq<G1Affine>) -> Seq<Seq<char>> {
    Seq::new(points.len(), |i: int| g1_text(points[i]))
}

/// A list of points in G1 after a text, field by field.
#[verifier::rlimit(40)]
proof fn lemma_list_after(a: Seq<char>, points: Seq<G1Affine>)
    requires
        points.len() > 0,
    ensures
        ({
            let (f, g) = (
                reading::fields(a, '"'),
                reading::fields(a + listed(g1_texts(points)), '"'),
            );
            let n = f.len() as int;
            &&& goes_on(f, g, 6 * points.len() as int)
            &&& g[n - 1] == f[n - 1] + seq!['[']
            &&& forall|i: int|
                0 <= i < points.len() ==> numbers(
                    seq![g[n + 6 * i], g[n + 6 * i + 2], g[n + 6 * i + 4]],
                ) == g1_numbers(#[trigger] points[i])
            &&& g.last() == seq![']']
        }),
    decreases points.len(),
{
    reveal_strlit(",");
    let items = g1_texts(points);
    reading::lemma_fields_some(a, '"');
    if points.len() == 1 {
        assert(listed(items) == items[0]);
        lemma_g1_after(a, points[0]);
    } else {
        let front = points.drop_last();
        lemma_list_after(a, front);
        assert(items.drop_last() =~= g1_texts(front));
        let b = a + listed(g1_texts(front));
        reading::lemma_fields_extend(b, ","@, '"');
        lemma_g1_after(b + ","@, points.last());
        assert(a + listed(items) =~= b + ","@ + g1_text(points.last()));
        let (f, h, g) = (
            reading::fields(a, '"'),
            reading::fields(b, '"'),
            reading::fields(a + listed(items), '"'),
        );
        let n = f.len() as int;
        let m = h.len() as int;
        assert(m == n + 6 * front.len());
        assert(reading::fields(b + ","@, '"').len() == m);
        assert forall|i: int| 0 <= i < points.len() implies numbers(
            seq![g[n + 6 * i], g[n + 6 * i + 2], g[n + 6 * i + 4]],
        ) == g1_numbers(#[trigger] points[i]) by {
            if i < front.len() {
                assert(front[i] == points[i]);
                assert(n + 6 * i + 4 < m - 1);
                assert(g[n + 6 * i] == h[n + 6 * i]);
                assert(g[n + 6 * i + 2] == h[n + 6 * i + 2]);
                assert(g[n + 6 * i + 4] == h[n + 6 * i + 4]);
            }
        }
    }
}

/// The quotations of `verification_key.json`, in order: the protocol, the curve, the number of
/// public inputs, the four points of the key and the `IC` points, each with its coordinates.
#[verifier::rlimit(60)]
pub proof fn lemma_verifying_key_reads_back(zkey: Zkey)
    requires
        zkey.ic@.len() > 0,
    ensures
        ({
            let q = reading::fields(verifying_key_text(zkey), '"');
            let count = q[10].subrange(2, q[10].len() - 2);
            &&& q.len() == 65 + 6 * zkey.ic@.len()
            &&& q[1] == "protocol"@ && q[3] == "groth16"@
            &&& q[5] == "curve"@ && q[7] == "bn128"@
            &&& q[9] == "nPublic"@
            &&& reading::numerals(count)
            &&& reading::number(count) == zkey.num_public
            &&& q[11] == "vk_alpha_1"@
            &&& numbers(seq![q[13], q[15], q[17]]) == g1_numbers(zkey.vk.alpha_g1)
            &&& q[19] == "vk_beta_2"@
            &&& numbers(seq![q[21], q[23], q[25], q[27], q[29], q[31]]) == g2_numbers(
                zkey.vk.beta_g2,
            )
            &&& q[33] == "vk_gamma_2"@
            &&& numbers(seq![q[35], q[37], q[39], q[41], q[43], q[45]]) == g2_numbers(
                zkey.vk.gamma_g2,
            )
            &&& q[47] == "vk_delta_2"@
            &&& numbers(seq![q[49], q[51], q[53], q[55], q[57], q[59]]) == g2_numbers(
                zkey.vk.delta_g2,
            )
            &&& q[61] == "vk_alphabeta_12"@ && q[62] == ": [], "@
            &&& q[63] == "IC"@
            &&& forall|i: int|
                0 <= i < zkey.ic@.len() ==> numbers(
                    seq![q[65 + 6 * i], q[67 + 6 * i], q[69 + 6 * i]],
                ) == g1_numbers(#[trigger] zkey.ic@[i])
            &&& q.last() == "]] }"@
        }),
{
    let colon = ": "@;
    let next = ", "@;
    let none = Seq::<char>::empty();
    let d = text::decimal_of(zkey.num_public as nat);
    let vk = zkey.vk;
    let points = g1_texts(zkey.ic@);
    lemma_key_names();
    let t4 = key_head();
    let t5 = t4 + (d + next + reading::in_quotes("vk_alpha_1"@, colon));
    let t12 = key_points(t5, vk);
    let t13 = t12 + (next + reading::in_quotes("vk_alphabeta_12"@, ": [], "@));
    let t14 = t13 + (none + reading::in_quotes("IC"@, ": ["@));
    let t15 = t14 + listed(points);
    let t16 = t15 + "] }"@;
    lemma_key_head();
    lemma_count_after(t4, zkey.num_public as nat);
    lemma_key_points_after(t5, vk);
    lemma_name_after(t12, next, "vk_alphabeta_12"@, ": [], "@);
    lemma_name_after(t13, none, "IC"@, ": ["@);
    lemma_list_after(t14, zkey.ic@);
    reading::lemma_fields_extend(t15, "] }"@, '"');
    lemma_verifying_key_spelled(zkey);
    assert(points =~= Seq::new(zkey.ic@.len(), |i: int| g1_text(zkey.ic@[i])));
    let q = reading::fields(t16, '"');
    let g = reading::fields(t15, '"');
    assert(q.last() =~= "]] }"@) by {
        reveal_strlit("]] }");
        reveal_strlit("] }");
    }
    assert forall|i: int| 0 <= i < zkey.ic@.len() implies numbers(
        seq![q[65 + 6 * i], q[67 + 6 * i], q[69 + 6 * i]],
    ) == g1_numbers(#[trigger] zkey.ic@[i]) by {
        assert(q[65 + 6 * i] == g[65 + 6 * i]);
        assert(q[67 + 6 * i] == g[67 + 6 * i]);
        assert(q[69 + 6 * i] == g[69 + 6 * i]);
    }
}

/// The beginning of a verifying key, up to the number of public inputs.
spec fn key_head() -> Seq<char> {
    let colon = ": "@;
    let next = ", "@;
    let none = Seq::<char>::empty();
    let t0 = none + ("{ "@ + reading::in_quotes("protocol"@, colon));
    let t1 = t0 + (none + reading::in_quotes("groth16"@, next));
    let t2 = t1 + (none + reading::in_quotes("curve"@, colon));
    let t3 = t2 + (none + reading::in_quotes("bn128"@, next));
    t3 + (none + reading::in_quotes("nPublic"@, colon))
}

/// The points of a verifying key after a text.
spec fn key_points(a: Seq<char>, vk: VerifyingKey) -> Seq<char> {
    let colon = ": "@;
    let next = ", "@;
    let t6 = a + g1_text(vk.alpha_g1);
    let t7 = t6 + (next + reading::in_quotes("vk_beta_2"@, colon));
    let t8 = t7 + g2_text(vk.beta_g2);
    let t9 = t8 + (next + reading::in_quotes("vk_gamma_2"@, colon));
    let t10 = t9 + g2_text(vk.gamma_g2);
    let t11 = t10 + (next + reading::in_quotes("vk_delta_2"@, colon));
    t11 + g2_text(vk.delta_g2)
}

/// The names have no quotation marks in them.
proof fn lemma_key_names()
    ensures
        reading::free("protocol"@, '"'),
        reading::free("groth16"@, '"'),
        reading::free("curve"@, '"'),
        reading::free("bn128"@, '"'),
        reading::free("nPublic"@, '"'),
        reading::free("vk_alpha_1"@, '"'),
        reading::free("vk_beta_2"@, '"'),
        reading::free("vk_gamma_2"@, '"'),
        reading::free("vk_delta_2"@, '"'),
        reading::free("vk_alphabeta_12"@, '"'),
        reading::free("IC"@, '"'),
        reading::free("{ "@, '"'),
        reading::free(": "@, '"'),
        reading::free(", "@, '"'),
        reading::free(": ["@, '"'),
        reading::free(": [], "@, '"'),
        reading::free("] }"@, '"'),
        reading::free(Seq::<char>::empty(), '"'),
{
    reveal_strlit("protocol");
    reveal_strlit("groth16");
    reveal_strlit("curve");
    reveal_strlit("bn128");
    reveal_strlit("nPublic");
    reveal_strlit("vk_alpha_1");
    reveal_strlit("vk_beta_2");
    reveal_strlit("vk_gamma_2");
    reveal_strlit("vk_delta_2");
    reveal_strlit("vk_alphabeta_12");
    reveal_strlit("IC");
    reveal_strlit("{ ");
    reveal_strlit(": ");
    reveal_strlit(", ");
    reveal_strlit(": [");
    reveal_strlit(": [], ");
    reveal_strlit("] }");
}

/// The beginning of a verifying key, field by field.
proof fn lemma_key_head()
    ensures
        ({
            let q = reading::fields(key_head(), '"');
            &&& q.len() == 11
            &&& q[1] == "protocol"@ && q[3] == "groth16"@
            &&& q[5] == "curve"@ && q[7] == "bn128"@
            &&& q[9] == "nPublic"@ && q[10] == ": "@
        }),
{
    let colon = ": "@;
    let next = ", "@;
    let none = Seq::<char>::empty();
    let t0 = none + ("{ "@ + reading::in_quotes("protocol"@, colon));
    let t1 = t0 + (none + reading::in_quotes("groth16"@, next));
    let t2 = t1 + (none + reading::in_quotes("curve"@, colon));
    let t3 = t2 + (none + reading::in_quotes("bn128"@, next));
    lemma_key_names();
    assert(reading::fields(none, '"') =~= seq![none]);
    lemma_name_after(none, "{ "@, "protocol"@, colon);
    lemma_name_after(t0, none, "groth16"@, next);
    lemma_name_after(t1, none, "curve"@, colon);
    lemma_name_after(t2, none, "bn128"@, next);
    lemma_name_after(t3, none, "nPublic"@, colon);
}

/// The number of public inputs, and the name after it.
proof fn lemma_count_after(a: Seq<char>, n: nat)
    requires
        reading::fields(a, '"').last() == ": "@,
    ensures
        ({
            let d = text::decimal_of(n);
            let t = a + (d + ", "@ + reading::in_quotes("vk_alpha_1"@, ": "@));
            let (f, g) = (reading::fields(a, '"'), reading::fields(t, '"'));
            let k = f.len() as int;
            let count = g[k - 1].subrange(2, g[k - 1].len() - 2);
            &&& goes_on(f, g, 2)
            &&& reading::numerals(count)
            &&& reading::number(count) == n
            &&& g[k] == "vk_alpha_1"@
        }),
{
    let d = text::decimal_of(n);
    let t = a + (d + ", "@ + reading::in_quotes("vk_alpha_1"@, ": "@));
    reading::lemma_decimal(n);
    reading::lemma_decimal_free(n);
    lemma_key_names();
    assert(reading::free(d + ", "@, '"'));
    lemma_name_after(a, d + ", "@, "vk_alpha_1"@, ": "@);
    reveal_strlit(": ");
    reveal_strlit(", ");
    let (f, g) = (reading::fields(a, '"'), reading::fields(t, '"'));
    let last = g[f.len() - 1];
    assert(last.subrange(2, last.len() - 2) =~= d);
}

/// The points of a verifying key after a text, field by field.
#[verifier::rlimit(40)]
proof fn lemma_key_points_after(a: Seq<char>, vk: VerifyingKey)
    ensures
        ({
            let (f, q) = (reading::fields(a, '"'), reading::fields(key_points(a, vk), '"'));
            let n = f.len() as int;
            &&& goes_on(f, q, 48)
            &&& numbers(seq![q[n], q[n + 2], q[n + 4]]) == g1_numbers(vk.alpha_g1)
            &&& q[n + 6] == "vk_beta_2"@
            &&& numbers(seq![q[n + 8], q[n + 10], q[n + 12], q[n + 14], q[n + 16], q[n + 18]])
                == g2_numbers(vk.beta_g2)
            &&& q[n + 20] == "vk_gamma_2"@
            &&& numbers(seq![q[n + 22], q[n + 24], q[n + 26], q[n + 28], q[n + 30], q[n + 32]])
                == g2_numbers(vk.gamma_g2)
            &&& q[n + 34] == "vk_delta_2"@
            &&& numbers(seq![q[n + 36], q[n + 38], q[n + 40], q[n + 42], q[n + 44], q[n + 46]])
                == g2_numbers(vk.delta_g2)
        }),
{
    let colon = ": "@;
    let next = ", "@;
    let t6 = a + g1_text(vk.alpha_g1);
    let t7 = t6 + (next + reading::in_quotes("vk_beta_2"@, colon));
    let t8 = t7 + g2_text(vk.beta_g2);
    let t9 = t8 + (next + reading::in_quotes("vk_gamma_2"@, colon));
    let t10 = t9 + g2_text(vk.gamma_g2);
    let t11 = t10 + (next + reading::in_quotes("vk_delta_2"@, colon));
    lemma_key_names();
    lemma_g1_after(a, vk.alpha_g1);
    lemma_name_after(t6, next, "vk_beta_2"@, colon);
    lemma_g2_after(t7, vk.beta_g2);
    lemma_name_after(t8, next, "vk_gamma_2"@, colon);
    lemma_g2_after(t9, vk.gamma_g2);
    lemma_name_after(t10, next, "vk_delta_2"@, colon);
    lemma_g2_after(t11, vk.delta_g2);
}

/// How a verifying key is spelled.
#[verifier::rlimit(60)]
proof fn lemma_verifying_key_spelled(zkey: Zkey)
    ensures
        ({
            let d = text::decimal_of(zkey.num_public as nat);
            let none = Seq::<char>::empty();
            let t5 = key_head() + (d + ", "@ + reading::in_quotes("vk_alpha_1"@, ": "@));
            let t13 = key_points(t5, zkey.vk) + (", "@ + reading::in_quotes(
                "vk_alphabeta_12"@,
                ": [], "@,
            ));
            let t14 = t13 + (none + reading::in_quotes("IC"@, ": ["@));
            verifying_key_text(zkey) == t14 + listed(
                Seq::new(zkey.ic@.len(), |i: int| g1_text(zkey.ic@[i])),
            ) + "] }"@
        }),
{
    reveal_strlit("{ \"protocol\": \"groth16\", \"curve\": \"bn128\", \"nPublic\": ");
    reveal_strlit(", \"vk_alpha_1\": ");
    reveal_strlit(", \"vk_beta_2\": ");
    reveal_strlit(", \"vk_gamma_2\": ");
    reveal_strlit(", \"vk_delta_2\": ");
    reveal_strlit(", \"vk_alphabeta_12\": [], \"IC\": [");
    reveal_strlit("protocol");
    reveal_strlit("groth16");
    reveal_strlit("curve");
    reveal_strlit("bn128");
    reveal_strlit("nPublic");
    reveal_strlit("vk_alpha_1");
    reveal_strlit("vk_beta_2");
    reveal_strlit("vk_gamma_2");
    reveal_strlit("vk_delta_2");
    reveal_strlit("vk_alphabeta_12");
    reveal_strlit("IC");
    reveal_strlit("{ ");
    reveal_strlit(": ");
    reveal_strlit(", ");
    reveal_strlit(": [");
    reveal_strlit(": [], ");
    let colon = ": "@;
    let next = ", "@;
    let none = Seq::<char>::empty();
    let d = text::decimal_of(zkey.num_public as nat);
    let vk = zkey.vk;
    let l0 = "{ \"protocol\": \"groth16\", \"curve\": \"bn128\", \"nPublic\": "@;
    let head = key_head();
    let t5 = head + (d + next + reading::in_quotes("vk_alpha_1"@, colon));
    let t12 = t5 + g1_text(vk.alpha_g1) + (next + reading::in_quotes("vk_beta_2"@, colon))
        + g2_text(vk.beta_g2) + (next + reading::in_quotes("vk_gamma_2"@, colon)) + g2_text(
        vk.gamma_g2,
    ) + (next + reading::in_quotes("vk_delta_2"@, colon)) + g2_text(vk.delta_g2);
    let t13 = t12 + (next + reading::in_quotes("vk_alphabeta_12"@, ": [], "@));
    assert(head =~= l0);
    assert(t5 =~= l0 + d + ", \"vk_alpha_1\": "@);
    assert(next + reading::in_quotes("vk_beta_2"@, colon) =~= ", \"vk_beta_2\": "@);
    assert(next + reading::in_quotes("vk_gamma_2"@, colon) =~= ", \"vk_gamma_2\": "@);
    assert(next + reading::in_quotes("vk_delta_2"@, colon) =~= ", \"vk_delta_2\": "@);
    assert(t12 == key_points(t5, vk));
    assert(t13 + (none + reading::in_quotes("IC"@, ": ["@)) =~= t12
        + ", \"vk_alphabeta_12\": [], \"IC\": ["@);
}

} // verus!
