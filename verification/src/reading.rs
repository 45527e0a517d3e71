//! Reading texts back: the number that digits stand for, and the fields
//! between separators. What the library writes is described by what a reader
//! of it gets.

use vstd::arithmetic::div_mod::*;
use vstd::prelude::*;

use crate::text;

verus! {

/// The character is one of `0` to `9`.
pub open spec fn numeral(c: char) -> bool {
    48 <= c as u32 <= 57
}

/// The characters are digits, at least one, and the first is no idle zero.
pub open spec fn numerals(s: Seq<char>) -> bool {
    &&& s.len() > 0
    &&& forall|i: int| 0 <= i < s.len() ==> numeral(#[trigger] s[i])
    &&& s.len() > 1 ==> s[0] as u32 != 48
}

/// The number that digits stand for, the highest first.
pub open spec fn number(s: Seq<char>) -> nat
    decreases s.len(),
{
    if s.len() == 0 {
        0
    } else {
        (number(s.drop_last()) * 10 + (s.last() as u32 - 48)) as nat
    }
}

/// A number in decimal reads back as the number.
pub proof fn lemma_decimal(n: nat)
    ensures
        numerals(text::decimal_of(n)),
        number(text::decimal_of(n)) == n,
    decreases n,
{
    let s = text::decimal_of(n);
    let d = (n % 10) as int;
    assert(text::digit_char(d) as u32 == 48 + d);
    if n < 10 {
        assert(s =~= seq![text::digit_char(d)]);
        assert(s.drop_last() =~= Seq::empty());
        assert(number(s.drop_last()) == 0);
    } else {
        let t = text::decimal_of(n / 10);
        lemma_decimal(n / 10);
        assert(s == t.push(text::digit_char(d)));
        assert(s.drop_last() =~= t);
        lemma_fundamental_div_mod(n as int, 10);
        assert(s[0] == t[0]);
        if t.len() == 1 {
            assert(t.drop_last() =~= Seq::empty());
            assert(number(t.drop_last()) == 0);
            assert(number(t) == t[0] as u32 - 48);
        }
        assert forall|i: int| 0 <= i < s.len() implies numeral(#[trigger] s[i]) by {
            if i < t.len() {
                assert(s[i] == t[i]);
            }
        }
    }
}

/// Different numbers differ in decimal.
pub proof fn lemma_decimal_injective(m: nat, n: nat)
    ensures
        text::decimal_of(m) == text::decimal_of(n) ==> m == n,
{
    lemma_decimal(m);
    lemma_decimal(n);
}

/// The fields of a text between the separators `c`.
pub open spec fn fields(s: Seq<char>, c: char) -> Seq<Seq<char>>
    decreases s.len(),
{
    if s.len() == 0 {
        seq![Seq::empty()]
    } else {
        let front = fields(s.drop_last(), c);
        if s.last() == c {
            front.push(Seq::empty())
        } else {
            front.drop_last().push(front.last().push(s.last()))
        }
    }
}

/// The separator is not in the text.
pub open spec fn free(s: Seq<char>, c: char) -> bool {
    forall|i: int| 0 <= i < s.len() ==> #[trigger] s[i] != c
}

/// There is always a field.
pub proof fn lemma_fields_some(s: Seq<char>, c: char)
    ensures
        fields(s, c).len() > 0,
    decreases s.len(),
{
    if s.len() > 0 {
        lemma_fields_some(s.drop_last(), c);
    }
}

/// What follows without a separator belongs to the last field.
pub proof fn lemma_fields_extend(a: Seq<char>, b: Seq<char>, c: char)
    requires
        free(b, c),
    ensures
        fields(a + b, c) == fields(a, c).drop_last().push(fields(a, c).last() + b),
    decreases b.len(),
{
    lemma_fields_some(a, c);
    let f = fields(a, c);
    if b.len() == 0 {
        assert(a + b =~= a);
        assert(f.last() + b =~= f.last());
        assert(f =~= f.drop_last().push(f.last()));
    } else {
        let front = b.drop_last();
        lemma_fields_extend(a, front, c);
        assert((a + b).drop_last() =~= a + front);
        assert((a + b).last() == b.last());
        let g = fields(a + front, c);
        assert(g.drop_last() =~= f.drop_last());
        assert((f.last() + front).push(b.last()) =~= f.last() + b);
    }
}

/// A text without a separator is one field.
pub proof fn lemma_fields_free(s: Seq<char>, c: char)
    requires
        free(s, c),
    ensures
        fields(s, c) == seq![s],
{
    lemma_fields_extend(Seq::empty(), s, c);
    assert(Seq::<char>::empty() + s =~= s);
    assert(fields(s, c) =~= seq![s]);
}

/// A separator begins a field.
pub proof fn lemma_fields_next(a: Seq<char>, b: Seq<char>, c: char)
    requires
        free(b, c),
    ensures
        fields(a.push(c) + b, c) == fields(a, c).push(b),
{
    assert(a.push(c).drop_last() =~= a);
    lemma_fields_extend(a.push(c), b, c);
    let f = fields(a, c);
    assert(f.push(Seq::empty()).drop_last() =~= f);
    assert(Seq::<char>::empty() + b =~= b);
}

/// Texts one after another, with a separator between them.
pub open spec fn joined(words: Seq<Seq<char>>, c: char) -> Seq<char>
    decreases words.len(),
{
    if words.len() == 0 {
        Seq::empty()
    } else if words.len() == 1 {
        words[0]
    } else {
        joined(words.drop_last(), c).push(c) + words.last()
    }
}

/// Texts without the separator are the fields of what they are joined to.
pub proof fn lemma_joined(words: Seq<Seq<char>>, c: char)
    requires
        words.len() > 0,
        forall|i: int| 0 <= i < words.len() ==> free(#[trigger] words[i], c),
    ensures
        fields(joined(words, c), c) == words,
    decreases words.len(),
{
    assert(free(words[words.len() - 1], c));
    if words.len() == 1 {
        lemma_fields_free(words[0], c);
        assert(words =~= seq![words[0]]);
    } else {
        let front = words.drop_last();
        assert forall|i: int| 0 <= i < front.len() implies free(#[trigger] front[i], c) by {
            assert(free(words[i], c));
        }
        lemma_joined(front, c);
        lemma_fields_next(joined(front, c), words.last(), c);
        assert(front.push(words.last()) =~= words);
    }
}

/// One more text.
pub proof fn lemma_joined_push(words: Seq<Seq<char>>, word: Seq<char>, c: char)
    requires
        words.len() > 0,
    ensures
        joined(words.push(word), c) == joined(words, c).push(c) + word,
{
    assert(words.push(word).drop_last() =~= words);
}

/// A text in quotation marks, and what follows it.
pub open spec fn in_quotes(x: Seq<char>, after: Seq<char>) -> Seq<char> {
    seq!['"'] + x + seq!['"'] + after
}

/// A quotation, and what follows it, are two more fields.
pub proof fn lemma_quotation(a: Seq<char>, x: Seq<char>, after: Seq<char>)
    requires
        free(x, '"'),
        free(after, '"'),
    ensures
        fields(a + in_quotes(x, after), '"') == fields(a, '"').push(x).push(after),
{
    let b = a.push('"') + x;
    lemma_fields_next(a, x, '"');
    lemma_fields_next(b, after, '"');
    assert(a + in_quotes(x, after) =~= b.push('"') + after);
}

/// Digits are none of the separators.
pub proof fn lemma_decimal_free(n: nat)
    ensures
        free(text::decimal_of(n), '"'),
        free(text::decimal_of(n), ','),
        free(text::decimal_of(n), '|'),
        free(text::decimal_of(n), '.'),
        free(text::decimal_of(n), ' '),
{
    lemma_decimal(n);
    let s = text::decimal_of(n);
    assert forall|i: int| 0 <= i < s.len() implies #[trigger] s[i] != '"' && s[i] != ',' && s[i]
        != '|' && s[i] != '.' && s[i] != ' ' by {
        assert(numeral(s[i]));
    }
}

} // verus!
