//! Building strings with exact contracts: concatenation and decimal numbers.

use vstd::arithmetic::div_mod::*;
use vstd::prelude::*;

use crate::limbs;

verus! {

/// The character of a decimal digit.
pub open spec fn digit_char(d: int) -> char {
    (48 + d) as char
}

/// The decimal representation of a natural number, without leading zeros.
pub open spec fn decimal_of(n: nat) -> Seq<char>
    decreases n,
{
    if n < 10 {
        seq![digit_char(n as int)]
    } else {
        decimal_of(n / 10).push(digit_char((n % 10) as int))
    }
}

/// The digit as a string of one character.
fn digit_str(d: u8) -> (r: &'static str)
    requires
        d < 10,
    ensures
        r@ == seq![digit_char(d as int)],
{
    proof {
        reveal_strlit("0");
        reveal_strlit("1");
        reveal_strlit("2");
        reveal_strlit("3");
        reveal_strlit("4");
        reveal_strlit("5");
        reveal_strlit("6");
        reveal_strlit("7");
        reveal_strlit("8");
        reveal_strlit("9");
    }
    let r = match d {
        0 => "0",
        1 => "1",
        2 => "2",
        3 => "3",
        4 => "4",
        5 => "5",
        6 => "6",
        7 => "7",
        8 => "8",
        _ => "9",
    };
    assert(r@ =~= seq![digit_char(d as int)]);
    r
}

/// Append `s`.
pub fn push(out: &mut String, s: &str)
    ensures
        final(out)@ == old(out)@ + s@,
{
    out.append(s);
}

/// Append a number in decimal.
pub fn push_u64(out: &mut String, n: u64)
    ensures
        final(out)@ == old(out)@ + decimal_of(n as nat),
    decreases n,
{
    let ghost before = out@;
    if n >= 10 {
        push_u64(out, n / 10);
    }
    push(out, digit_str((n % 10) as u8));
    proof {
        assert(out@ =~= before + decimal_of(n as nat));
    }
}

/// A string with the given characters.
pub fn owned(s: &str) -> (r: String)
    ensures
        r@ == s@,
{
    let mut r = String::new();
    push(&mut r, s);
    proof {
        assert(r@ =~= s@);
    }
    r
}

/// Divide by ten in place; the remainder is returned.
fn divide_by_ten(n: &mut [u64; 4]) -> (rem: u64)
    ensures
        rem < 10,
        limbs::value(*old(n)) == 10 * limbs::value(*final(n)) + rem,
{
    let ghost before = *n;
    let (q3, r3) = divide_step(0, n[3]);
    let (q2, r2) = divide_step(r3, n[2]);
    let (q1, r1) = divide_step(r2, n[1]);
    let (q0, r0) = divide_step(r1, n[0]);
    n[3] = q3;
    n[2] = q2;
    n[1] = q1;
    n[0] = q0;
    proof {
        assert(n@ =~= seq![q0, q1, q2, q3]);
        assert(before@ =~= seq![before@[0], before@[1], before@[2], before@[3]]);
    }
    r0
}

/// One limb of the division by ten.
fn divide_step(rem: u64, limb: u64) -> (r: (u64, u64))
    requires
        rem < 10,
    ensures
        r.1 < 10,
        rem * limbs::WORD + limb == 10 * r.0 + r.1,
{
    let cur: u128 = (rem as u128) * limbs::WORD + (limb as u128);
    ((cur / 10) as u64, (cur % 10) as u64)
}

/// Decimal rendering of a canonical 256-bit value (what snarkjs JSON carries).
pub fn decimal(limbs: [u64; 4]) -> (r: String)
    ensures
        r@ == decimal_of(limbs::value(limbs) as nat),
{
    let zero: [u64; 4] = [0, 0, 0, 0];
    let mut digits: Vec<u8> = Vec::new();
    let mut n = limbs;
    proof {
        limbs::lemma_value(limbs);
        assert(limbs::value(zero) == 0);
    }
    if limbs::same(&n, &zero) {
        let r = owned("0");
        proof {
            reveal_strlit("0");
            assert(r@ =~= seq![digit_char(0)]);
        }
        return r;
    }
    // the digits found so far, lowest first, below what is left
    while !limbs::same(&n, &zero)
        invariant
            limbs::value(zero) == 0,
            limbs::value(limbs) > 0,
            limbs::value(n) >= 0,
            forall|i: int| 0 <= i < digits@.len() ==> #[trigger] digits@[i] < 10,
            decimal_of(limbs::value(limbs) as nat) =~= (if limbs::value(n) == 0 {
                Seq::empty()
            } else {
                decimal_of(limbs::value(n) as nat)
            }) + backwards(digits@),
        decreases limbs::value(n),
    {
        let ghost before = limbs::value(n);
        proof {
            if limbs::value(n) == limbs::value(zero) {
                limbs::lemma_value_injective(n, zero);
            }
        }
        let rem = divide_by_ten(&mut n);
        proof {
            limbs::lemma_value(n);
            lemma_fundamental_div_mod_converse(before, 10, limbs::value(n), rem as int);
            assert(backwards(digits@.push(rem as u8)) =~= seq![digit_char(rem as int)] + backwards(
                digits@,
            ));
        }
        digits.push(rem as u8);
    }
    let mut r = String::new();
    let mut i: usize = digits.len();
    while i > 0
        invariant
            i <= digits@.len(),
            forall|j: int| 0 <= j < digits@.len() ==> #[trigger] digits@[j] < 10,
            r@ =~= backwards(digits@).take(digits@.len() - i),
        decreases i,
    {
        i = i - 1;
        push(&mut r, digit_str(digits[i]));
    }
    proof {
        assert(backwards(digits@).take(digits@.len() as int) =~= backwards(digits@));
    }
    r
}

/// Digits from the highest to the lowest, as characters.
spec fn backwards(digits: Seq<u8>) -> Seq<char> {
    Seq::new(digits.len(), |i: int| digit_char(digits[digits.len() - 1 - i] as int))
}

// ---- comparing and searching -------------------------------------------------------------------

/// Equality of strings.
pub fn same(a: &str, b: &str) -> (r: bool)
    ensures
        r == (a@ == b@),
{
    let n = a.unicode_len();
    if n != b.unicode_len() {
        return false;
    }
    let mut i: usize = 0;
    while i < n
        invariant
            i <= n,
            n == a@.len(),
            n == b@.len(),
            forall|j: int| 0 <= j < i ==> #[trigger] a@[j] == b@[j],
        decreases n - i,
    {
        if a.get_char(i) != b.get_char(i) {
            return false;
        }
        i = i + 1;
    }
    proof {
        assert(a@ =~= b@);
    }
    true
}

/// Unicode's white space.
pub open spec fn white(c: char) -> bool {
    let u = c as u32;
    9 <= u <= 13 || u == 0x20 || u == 0x85 || u == 0xa0 || u == 0x1680 || 0x2000 <= u <= 0x200a || u
        == 0x2028 || u == 0x2029 || u == 0x202f || u == 0x205f || u == 0x3000
}

fn is_white(c: char) -> (r: bool)
    ensures
        r == white(c),
{
    let u: u32 = c as u32;
    (9 <= u && u <= 13) || u == 0x20 || u == 0x85 || u == 0xa0 || u == 0x1680 || (0x2000 <= u && u
        <= 0x200a) || u == 0x2028 || u == 0x2029 || u == 0x202f || u == 0x205f || u == 0x3000
}

/// A string without the white space at its ends.
pub open spec fn trimmed(s: Seq<char>) -> Seq<char>
    decreases s.len(),
{
    if s.len() == 0 {
        s
    } else if white(s[0]) {
        trimmed(s.drop_first())
    } else if white(s.last()) {
        trimmed(s.drop_last())
    } else {
        s
    }
}

/// All characters are white space.
pub open spec fn blank(s: Seq<char>) -> bool {
    forall|i: int| 0 <= i < s.len() ==> white(#[trigger] s[i])
}

/// White space around a text that neither begins nor ends with it is what goes.
pub proof fn lemma_padding_goes(before: Seq<char>, s: Seq<char>, after: Seq<char>)
    requires
        blank(before),
        blank(after),
        s.len() > 0 ==> !white(s[0]) && !white(s.last()),
    ensures
        trimmed(before + s + after) == s,
    decreases before.len() + after.len(),
{
    let t = before + s + after;
    if before.len() > 0 {
        assert(white(before[0]) && t[0] == before[0]);
        assert(t.drop_first() =~= before.drop_first() + s + after);
        assert(blank(before.drop_first())) by {
            assert forall|i: int| 0 <= i < before.drop_first().len() implies white(
                #[trigger] before.drop_first()[i],
            ) by {
                assert(white(before[i + 1]));
            }
        }
        lemma_padding_goes(before.drop_first(), s, after);
    } else if after.len() > 0 {
        let front = after.drop_last();
        assert(blank(front)) by {
            assert forall|i: int| 0 <= i < front.len() implies white(#[trigger] front[i]) by {
                assert(white(after[i]));
            }
        }
        if s.len() > 0 {
            assert(t[0] == s[0]);
            assert(white(after.last()) && t.last() == after.last());
            assert(t.drop_last() =~= before + s + front);
            lemma_padding_goes(before, s, front);
        } else {
            let rest = after.drop_first();
            assert(white(after[0]) && t[0] == after[0]);
            assert(t.drop_first() =~= before + s + rest);
            assert forall|i: int| 0 <= i < rest.len() implies white(#[trigger] rest[i]) by {
                assert(white(after[i + 1]));
            }
            lemma_padding_goes(before, s, rest);
        }
    } else {
        assert(t =~= s);
    }
}

/// What is left of a text is a part of it, with nothing but white space around, and neither
/// begins nor ends with white space.
pub proof fn lemma_only_padding_goes(s: Seq<char>) -> (r: (int, int))
    ensures
        0 <= r.0 <= r.1 <= s.len(),
        trimmed(s) == s.subrange(r.0, r.1),
        blank(s.take(r.0)),
        blank(s.skip(r.1)),
        r.0 < r.1 ==> !white(s[r.0]) && !white(s[r.1 - 1]),
    decreases s.len(),
{
    if s.len() == 0 {
        assert(s.subrange(0, 0) =~= s);
        (0, 0)
    } else if white(s[0]) {
        let t = s.drop_first();
        let (i, j) = lemma_only_padding_goes(t);
        assert(s.subrange(i + 1, j + 1) =~= t.subrange(i, j));
        assert forall|k: int| 0 <= k < i + 1 implies white(#[trigger] s.take(i + 1)[k]) by {
            if k > 0 {
                assert(white(t.take(i)[k - 1]));
            }
        }
        assert(s.skip(j + 1) =~= t.skip(j));
        (i + 1, j + 1)
    } else if white(s.last()) {
        let t = s.drop_last();
        let (i, j) = lemma_only_padding_goes(t);
        assert(s.subrange(i, j) =~= t.subrange(i, j));
        assert(s.take(i) =~= t.take(i));
        assert forall|k: int| 0 <= k < s.skip(j).len() implies white(#[trigger] s.skip(j)[k]) by {
            if k < t.skip(j).len() {
                assert(white(t.skip(j)[k]));
            }
        }
        (i, j)
    } else {
        assert(s.subrange(0, s.len() as int) =~= s);
        (0, s.len() as int)
    }
}

/// The string without the white space at its ends.
pub fn trim(s: &str) -> (r: &str)
    ensures
        r@ == trimmed(s@),
{
    let n = s.unicode_len();
    let mut from: usize = 0;
    proof {
        assert(s@.subrange(0, n as int) =~= s@);
    }
    while from < n && is_white(s.get_char(from))
        invariant
            from <= n,
            n == s@.len(),
            trimmed(s@) == trimmed(s@.subrange(from as int, n as int)),
        decreases n - from,
    {
        proof {
            assert(s@.subrange(from as int, n as int).drop_first() =~= s@.subrange(
                from + 1,
                n as int,
            ));
        }
        from = from + 1;
    }
    let mut to: usize = n;
    while from < to && is_white(s.get_char(to - 1))
        invariant
            from <= to <= n,
            n == s@.len(),
            from < to ==> !white(s@[from as int]),
            trimmed(s@) == trimmed(s@.subrange(from as int, to as int)),
        decreases to,
    {
        proof {
            let part = s@.subrange(from as int, to as int);
            assert(part[0] == s@[from as int]);
            assert(part.last() == s@[to - 1]);
            assert(part.drop_last() =~= s@.subrange(from as int, to - 1));
        }
        to = to - 1;
    }
    proof {
        let part = s@.subrange(from as int, to as int);
        if from < to {
            assert(part[0] == s@[from as int]);
            assert(part.last() == s@[to - 1]);
        }
    }
    s.substring_char(from, to)
}

/// The lower-case form of an ASCII letter; any other character as it is.
pub open spec fn lower(c: char) -> u32 {
    if 65 <= c as u32 <= 90 {
        (c as u32 + 32) as u32
    } else {
        c as u32
    }
}

/// The code points of a string.
pub open spec fn points(s: Seq<char>) -> Seq<u32> {
    s.map_values(|c: char| c as u32)
}

/// The code points of a string with its ASCII letters in lower case.
pub open spec fn lowered(s: Seq<char>) -> Seq<u32> {
    s.map_values(|c: char| lower(c))
}

/// The text spells the name, in any mixture of upper and lower case.
pub open spec fn spells(s: Seq<char>, name: Seq<char>) -> bool {
    &&& s.len() == name.len()
    &&& forall|i: int|
        0 <= i < s.len() ==> (#[trigger] s[i]) as u32 == name[i] as u32 || (97 <= name[i] as u32
            <= 122 && s[i] as u32 + 32 == name[i] as u32)
}

/// No letter of the text is in upper case.
pub open spec fn uncapitalized(s: Seq<char>) -> bool {
    forall|i: int| 0 <= i < s.len() ==> !(65 <= (#[trigger] s[i]) as u32 <= 90)
}

/// A text in lower case is a name exactly where it spells the name.
pub proof fn lemma_spelled(s: Seq<char>, name: Seq<char>)
    requires
        uncapitalized(name),
    ensures
        lowered(s) == points(name) <==> spells(s, name),
{
    if lowered(s) == points(name) {
        assert(lowered(s).len() == points(name).len());
        assert forall|i: int| 0 <= i < s.len() implies (#[trigger] s[i]) as u32 == name[i] as u32
            || (97 <= name[i] as u32 <= 122 && s[i] as u32 + 32 == name[i] as u32) by {
            assert(lowered(s)[i] == points(name)[i]);
        }
    }
    if spells(s, name) {
        assert forall|i: int| 0 <= i < s.len() implies #[trigger] lowered(s)[i]
            == points(name)[i] by {
            assert(!(65 <= name[i] as u32 <= 90));
            assert(s[i] as u32 == name[i] as u32 || (97 <= name[i] as u32 <= 122 && s[i] as u32
                + 32 == name[i] as u32));
        }
        assert(lowered(s) =~= points(name));
    }
}

fn to_lower(c: char) -> (r: u32)
    ensures
        r == lower(c),
{
    let u: u32 = c as u32;
    if 65 <= u && u <= 90 {
        u + 32
    } else {
        u
    }
}

/// Whether a string, its ASCII letters in lower case, is `wanted`.
pub fn same_ignoring_case(s: &str, wanted: &str) -> (r: bool)
    ensures
        r == (lowered(s@) == points(wanted@)),
{
    let n = s.unicode_len();
    if n != wanted.unicode_len() {
        assert(lowered(s@).len() != points(wanted@).len());
        return false;
    }
    let mut i: usize = 0;
    while i < n
        invariant
            i <= n,
            n == s@.len(),
            n == wanted@.len(),
            forall|j: int| 0 <= j < i ==> lower(#[trigger] s@[j]) == wanted@[j] as u32,
        decreases n - i,
    {
        if to_lower(s.get_char(i)) != wanted.get_char(i) as u32 {
            assert(lowered(s@)[i as int] != points(wanted@)[i as int]);
            return false;
        }
        i = i + 1;
    }
    proof {
        assert(lowered(s@) =~= points(wanted@));
    }
    true
}

/// The code points `needle` stand in `s` from index `i` on.
pub open spec fn stands_at(s: Seq<u32>, needle: Seq<u32>, i: int) -> bool {
    0 <= i <= s.len() - needle.len() && s.subrange(i, i + needle.len()) == needle
}

/// Whether a string, its ASCII letters in lower case, holds `needle` somewhere.
pub fn contains_ignoring_case(s: &str, needle: &str) -> (r: bool)
    ensures
        r == exists|i: int| stands_at(lowered(s@), points(needle@), i),
{
    let n = s.unicode_len();
    let k = needle.unicode_len();
    if k > n {
        return false;
    }
    let mut i: usize = 0;
    while i <= n - k
        invariant
            n == s@.len(),
            k == needle@.len(),
            k <= n,
            i <= n - k + 1,
            forall|j: int| 0 <= j < i ==> !stands_at(lowered(s@), points(needle@), j),
        ensures
            forall|j: int| 0 <= j <= n - k ==> !stands_at(lowered(s@), points(needle@), j),
        decreases n + 1 - i,
    {
        let part = s.substring_char(i, i + k);
        let found = same_ignoring_case(part, needle);
        proof {
            assert(lowered(part@) =~= lowered(s@).subrange(i as int, i + k));
        }
        if found {
            assert(stands_at(lowered(s@), points(needle@), i as int));
            return true;
        }
        if i == n - k {
            break;
        }
        i = i + 1;
    }
    false
}

/// Whether a string starts with `prefix`.
pub fn starts_with(s: &str, prefix: &str) -> (r: bool)
    ensures
        r == prefix@.is_prefix_of(s@),
{
    let k = prefix.unicode_len();
    if k > s.unicode_len() {
        return false;
    }
    same(s.substring_char(0, k), prefix)
}

/// Whether a string ends with `suffix`.
pub fn ends_with(s: &str, suffix: &str) -> (r: bool)
    ensures
        r == suffix@.is_suffix_of(s@),
{
    let n = s.unicode_len();
    let k = suffix.unicode_len();
    if k > n {
        return false;
    }
    same(s.substring_char(n - k, n), suffix)
}

// ---- hexadecimal -------------------------------------------------------------------------------

/// The character of a hexadecimal digit, in lower case.
pub open spec fn hex_char(d: int) -> char {
    if d < 10 {
        (48 + d) as char
    } else {
        (87 + d) as char
    }
}

/// The lowest `n` hexadecimal digits of a number.
pub open spec fn hex_of(v: nat, n: nat) -> Seq<char>
    decreases n,
{
    if n == 0 {
        Seq::empty()
    } else {
        hex_of(v / 16, (n - 1) as nat).push(hex_char((v % 16) as int))
    }
}

fn hex_str(d: u8) -> (r: &'static str)
    requires
        d < 16,
    ensures
        r@ == seq![hex_char(d as int)],
{
    if d < 10 {
        return digit_str(d);
    }
    proof {
        reveal_strlit("a");
        reveal_strlit("b");
        reveal_strlit("c");
        reveal_strlit("d");
        reveal_strlit("e");
        reveal_strlit("f");
    }
    let r = match d {
        10 => "a",
        11 => "b",
        12 => "c",
        13 => "d",
        14 => "e",
        _ => "f",
    };
    assert(r@ =~= seq![hex_char(d as int)]);
    r
}

/// Append the lowest `n` hexadecimal digits of a number.
pub fn push_hex(out: &mut String, v: u64, n: u32)
    ensures
        final(out)@ == old(out)@ + hex_of(v as nat, n as nat),
    decreases n,
{
    let ghost before = out@;
    if n > 0 {
        push_hex(out, v / 16, n - 1);
        push(out, hex_str((v % 16) as u8));
    }
    proof {
        assert(out@ =~= before + hex_of(v as nat, n as nat));
    }
}

} // verus!
