//! What cutting and searching text amounts to, in terms of putting text together.

use crate::laws::{law_pieces_of_joined_texts, lemma_no_words};
use crate::number::{
    all_digits, decimal_value, digit_value, is_digit, number, number16, without_plus,
};
use crate::text::{
    is_white_space, lemma_pieces_non_empty, lines, non_empty, occurs, only, pieces, stands_at, texts,
    white_space, words,
};
use vstd::prelude::*;

verus! {

/// The parts, with `x` between each two.
pub open spec fn joined(parts: Seq<Seq<char>>, x: char) -> Seq<char>
    decreases parts.len(),
{
    if parts.len() == 0 {
        Seq::empty()
    } else if parts.len() == 1 {
        parts[0]
    } else {
        joined(parts.drop_last(), x).push(x) + parts.last()
    }
}

/// Does `x` stand in none of the parts?
pub open spec fn free_of(parts: Seq<Seq<char>>, x: char) -> bool {
    forall|i: int| 0 <= i < parts.len() ==> !(#[trigger] parts[i]).contains(x)
}

proof fn lemma_joined_grows(parts: Seq<Seq<char>>, x: char, c: char)
    requires
        parts.len() > 0,
    ensures
        joined(parts.drop_last().push(parts.last().push(c)), x) == joined(parts, x).push(c),
{
    let more = parts.drop_last().push(parts.last().push(c));
    if parts.len() > 1 {
        assert(more.drop_last() =~= parts.drop_last());
        assert(joined(more, x) =~= joined(parts, x).push(c));
    }
}

/// The pieces of a text have no separator in them, and give the text back when the
/// separator is put between them.
pub proof fn law_pieces_join_back(s: Seq<char>, x: char)
    ensures
        pieces(s, only(x)).len() > 0,
        joined(pieces(s, only(x)), x) == s,
        free_of(pieces(s, only(x)), x),
    decreases s.len(),
{
    let p = pieces(s, only(x));
    lemma_pieces_non_empty(s, only(x));
    if s.len() == 0 {
        assert(joined(p, x) =~= s);
    } else {
        let before = pieces(s.drop_last(), only(x));
        lemma_pieces_non_empty(s.drop_last(), only(x));
        law_pieces_join_back(s.drop_last(), x);
        assert(s.drop_last().push(s.last()) =~= s);
        if s.last() == x {
            assert(p.drop_last() =~= before);
            assert(joined(p, x) =~= s);
            assert forall|i: int| 0 <= i < p.len() implies !(#[trigger] p[i]).contains(x) by {
                if i < before.len() {
                    assert(p[i] == before[i]);
                }
            }
        } else {
            lemma_joined_grows(before, x, s.last());
            assert forall|i: int| 0 <= i < p.len() implies !(#[trigger] p[i]).contains(x) by {
                if i < before.len() - 1 {
                    assert(p[i] == before[i]);
                } else {
                    let last = before[before.len() - 1];
                    assert(p[i] == last.push(s.last()));
                    assert forall|k: int| 0 <= k < p[i].len() implies p[i][k] != x by {
                        if k < last.len() {
                            assert(last[k] != x);
                        }
                    }
                }
            }
        }
    }
}

proof fn lemma_single_piece(s: Seq<char>, sep: spec_fn(char) -> bool)
    requires
        forall|i: int| 0 <= i < s.len() ==> !sep(#[trigger] s[i]),
    ensures
        pieces(s, sep) == seq![s],
    decreases s.len(),
{
    if s.len() == 0 {
        assert(s =~= Seq::<char>::empty());
    } else {
        assert forall|i: int| 0 <= i < s.drop_last().len() implies !sep(
            #[trigger] s.drop_last()[i],
        ) by {
            assert(s[i] == s.drop_last()[i]);
        }
        lemma_single_piece(s.drop_last(), sep);
        assert(!sep(s[s.len() - 1]));
        assert(s.drop_last().push(s.last()) =~= s);
        assert(pieces(s, sep) =~= seq![s]);
    }
}

/// Parts without the separator come back as the pieces of what they are joined to.
pub proof fn law_pieces_of_joined_parts(parts: Seq<Seq<char>>, x: char)
    requires
        parts.len() > 0,
        free_of(parts, x),
    ensures
        pieces(joined(parts, x), only(x)) == parts,
    decreases parts.len(),
{
    let last = parts[parts.len() - 1];
    assert forall|i: int| 0 <= i < last.len() implies !only(x)(#[trigger] last[i]) by {
        assert(!last.contains(x));
    }
    lemma_single_piece(last, only(x));
    if parts.len() == 1 {
        assert(parts =~= seq![last]);
    } else {
        let rest = parts.drop_last();
        assert forall|i: int| 0 <= i < rest.len() implies !(#[trigger] rest[i]).contains(x) by {
            assert(rest[i] == parts[i]);
        }
        law_pieces_of_joined_parts(rest, x);
        law_pieces_of_joined_texts(joined(rest, x), x, last, only(x));
        assert(rest + seq![last] =~= parts);
    }
}

/// Lines are what line feeds part.
pub proof fn law_lines_of_joined_lines(parts: Seq<Seq<char>>)
    requires
        parts.len() > 0,
        free_of(parts, '\n'),
    ensures
        lines(joined(parts, '\n')) == parts,
{
    law_pieces_of_joined_parts(parts, '\n');
}

/// The lines of a text give it back with line feeds between them.
pub proof fn law_lines_join_back(s: Seq<char>)
    ensures
        lines(s).len() > 0,
        joined(lines(s), '\n') == s,
        free_of(lines(s), '\n'),
{
    law_pieces_join_back(s, '\n');
}

/// The texts of a list of slices are theirs, one for one.
pub proof fn law_texts_are_the_slices(v: Seq<&[char]>, i: int)
    requires
        0 <= i < v.len(),
    ensures
        texts(v).len() == v.len(),
        texts(v)[i] == v[i]@,
{
}

/// Is the text one word: not empty, and without white space?
pub open spec fn is_word(w: Seq<char>) -> bool {
    w.len() > 0 && forall|i: int| 0 <= i < w.len() ==> !is_white_space(#[trigger] w[i])
}

/// A word is the one word of its text.
pub proof fn law_words_of_a_word(w: Seq<char>)
    requires
        is_word(w),
    ensures
        words(w) == seq![w],
{
    lemma_single_piece(w, white_space());
    assert(seq![w] =~= Seq::<Seq<char>>::empty().push(w));
    Seq::<Seq<char>>::empty().lemma_filter_push(w, non_empty());
    Seq::<Seq<char>>::empty().lemma_filter_len(non_empty());
    assert(words(w) =~= seq![w]);
}

/// White space between two texts parts their words.
pub proof fn law_words_part_at_white_space(a: Seq<char>, c: char, b: Seq<char>)
    requires
        is_white_space(c),
    ensures
        words(a.push(c) + b) == words(a) + words(b),
{
    law_pieces_of_joined_texts(a, c, b, white_space());
    Seq::filter_distributes_over_add(
        pieces(a, white_space()),
        pieces(b, white_space()),
        non_empty(),
    );
}

/// Words come back from the text that they make with blanks between them.
pub proof fn law_words_of_joined_words(parts: Seq<Seq<char>>)
    requires
        forall|i: int| 0 <= i < parts.len() ==> is_word(#[trigger] parts[i]),
    ensures
        words(joined(parts, ' ')) == parts,
    decreases parts.len(),
{
    if parts.len() == 0 {
        lemma_no_words();
        assert(words(joined(parts, ' ')) =~= parts);
    } else {
        let last = parts[parts.len() - 1];
        law_words_of_a_word(last);
        if parts.len() == 1 {
            assert(parts =~= seq![last]);
        } else {
            let rest = parts.drop_last();
            assert forall|i: int| 0 <= i < rest.len() implies is_word(#[trigger] rest[i]) by {
                assert(rest[i] == parts[i]);
            }
            law_words_of_joined_words(rest);
            law_words_part_at_white_space(joined(rest, ' '), ' ', last);
            assert(rest + seq![last] =~= parts);
        }
    }
}

/// Every word of a text is a word.
pub proof fn law_words_are_words(s: Seq<char>, i: int)
    requires
        0 <= i < words(s).len(),
    ensures
        is_word(words(s)[i]),
    decreases s.len(),
{
    // The text is cut at its last white space, where it has any.
    if forall|k: int| 0 <= k < s.len() ==> !is_white_space(#[trigger] s[k]) {
        if s.len() == 0 {
            lemma_no_words();
            assert(s =~= Seq::<char>::empty());
        } else {
            law_words_of_a_word(s);
        }
    } else {
        let k = choose|k: int| 0 <= k < s.len() && is_white_space(#[trigger] s[k]);
        let a = s.take(k);
        let b = s.skip(k + 1);
        assert(s =~= a.push(s[k]) + b);
        law_words_part_at_white_space(a, s[k], b);
        if i < words(a).len() {
            law_words_are_words(a, i);
        } else {
            law_words_are_words(b, i - words(a).len());
        }
    }
}

/// Blanks, tabs, carriage returns and line feeds are white space; the ASCII
/// characters that print are not.
pub proof fn law_white_space_of_ascii(c: char)
    ensures
        c == ' ' || c == '\t' || c == '\r' || c == '\n' ==> is_white_space(c),
        0x21 <= c as u32 <= 0x7e ==> !is_white_space(c),
{
}

/// A text occurs in another if and only if the other is that text with something, or
/// nothing, on each side.
pub proof fn law_occurs_within(s: Seq<char>, needle: Seq<char>)
    ensures
        occurs(s, needle) <==> exists|a: Seq<char>, b: Seq<char>| s == #[trigger] ((a + needle) + b),
{
    if occurs(s, needle) {
        let i = choose|i: int| stands_at(s, needle, i);
        let a = s.take(i);
        let b = s.skip(i + needle.len());
        assert(s =~= (a + needle) + b) by {
            assert forall|k: int| 0 <= k < s.len() implies s[k] == ((a + needle) + b)[k] by {
                if i <= k < i + needle.len() {
                    assert(s.subrange(i, i + needle.len())[k - i] == needle[k - i]);
                }
            }
        }
    }
    if exists|a: Seq<char>, b: Seq<char>| s == #[trigger] ((a + needle) + b) {
        let (a, b) = choose|a: Seq<char>, b: Seq<char>| s == #[trigger] ((a + needle) + b);
        assert(s.subrange(a.len() as int, (a.len() + needle.len()) as int) =~= needle);
        assert(stands_at(s, needle, a.len() as int));
    }
}

/// The decimal digit of a value below ten.
pub open spec fn digit_char(d: nat) -> char {
    seq!['0', '1', '2', '3', '4', '5', '6', '7', '8', '9'][d as int]
}

/// The digits that write a number, with no needless zero.
pub open spec fn digits_of(n: nat) -> Seq<char>
    decreases n,
{
    if n < 10 {
        seq![digit_char(n)]
    } else {
        digits_of(n / 10).push(digit_char(n % 10))
    }
}

/// A row of zeros.
pub open spec fn zeros(k: nat) -> Seq<char> {
    Seq::new(k, |i: int| '0')
}

/// Is this row of digits the number's own, behind any zeros?
pub open spec fn digits_write(s: Seq<char>, n: nat) -> bool {
    exists|k: nat| s == #[trigger] zeros(k) + digits_of(n)
}

/// Does `s` write the number `n`: its digits, behind any zeros and at most one plus?
pub open spec fn writes_number(s: Seq<char>, n: nat) -> bool {
    digits_write(s, n) || exists|t: Seq<char>| s == seq!['+'] + t && #[trigger] digits_write(t, n)
}

pub proof fn lemma_digit_char(d: nat)
    requires
        d < 10,
    ensures
        is_digit(digit_char(d)),
        digit_value(digit_char(d)) == d,
        digit_char(d) == '0' <==> d == 0,
{
}

pub proof fn lemma_digit_char_of(c: char)
    requires
        is_digit(c),
    ensures
        digit_value(c) < 10,
        digit_char(digit_value(c)) == c,
{
}

pub proof fn lemma_digits_of(n: nat)
    ensures
        digits_of(n).len() > 0,
        all_digits(digits_of(n)),
        decimal_value(digits_of(n)) == n,
        digits_of(n)[0] == '0' <==> n == 0,
    decreases n,
{
    let s = digits_of(n);
    if n < 10 {
        lemma_digit_char(n);
        assert(s.drop_last() =~= Seq::<char>::empty());
        reveal_with_fuel(decimal_value, 2);
    } else {
        lemma_digits_of(n / 10);
        lemma_digit_char(n % 10);
        assert(s.drop_last() =~= digits_of(n / 10));
    }
}

proof fn lemma_value_behind_zeros(k: nat, s: Seq<char>)
    ensures
        decimal_value(zeros(k) + s) == decimal_value(s),
    decreases s.len(), k,
{
    let t = zeros(k) + s;
    if s.len() > 0 {
        assert(t.drop_last() =~= zeros(k) + s.drop_last());
        lemma_value_behind_zeros(k, s.drop_last());
    } else if k > 0 {
        assert(t.drop_last() =~= zeros((k - 1) as nat) + s);
        lemma_value_behind_zeros((k - 1) as nat, s);
    } else {
        assert(t =~= s);
    }
}

/// A row of digits is that of its value, behind zeros.
pub proof fn lemma_digits_are_written(s: Seq<char>)
    requires
        s.len() > 0,
        all_digits(s),
    ensures
        digits_write(s, decimal_value(s)),
    decreases s.len(),
{
    let t = s.drop_last();
    let c = s.last();
    assert(is_digit(s[s.len() - 1]));
    lemma_digit_char_of(c);
    let d = digit_value(c);
    if t.len() == 0 {
        reveal_with_fuel(decimal_value, 2);
        assert(s =~= zeros(0) + digits_of(d));
    } else {
        assert forall|i: int| 0 <= i < t.len() implies is_digit(#[trigger] t[i]) by {
            assert(t[i] == s[i]);
        }
        lemma_digits_are_written(t);
        let v = decimal_value(t);
        let k = choose|k: nat| t == #[trigger] zeros(k) + digits_of(v);
        assert(s =~= t.push(c));
        assert(digits_of(d) =~= seq![c]);
        if v == 0 {
            assert(digits_of(0) =~= seq!['0']);
            assert(s =~= zeros((k + 1) as nat) + digits_of(d));
        } else {
            assert((v * 10 + d) / 10 == v && (v * 10 + d) % 10 == d);
            assert(digits_of(v * 10 + d) == digits_of(v).push(c));
            assert(s =~= zeros(k) + digits_of(v * 10 + d));
        }
    }
}

pub proof fn lemma_digits_write_digits(s: Seq<char>, n: nat)
    requires
        digits_write(s, n),
    ensures
        s.len() > 0,
        all_digits(s),
        decimal_value(s) == n,
{
    let k = choose|k: nat| s == #[trigger] zeros(k) + digits_of(n);
    lemma_digits_of(n);
    lemma_value_behind_zeros(k, digits_of(n));
    assert forall|i: int| 0 <= i < s.len() implies is_digit(#[trigger] s[i]) by {
        if i >= k {
            assert(s[i] == digits_of(n)[i - k]);
        }
    }
}

proof fn lemma_number_written(s: Seq<char>, n: nat)
    ensures
        writes_number(s, n) <==> without_plus(s).len() > 0 && all_digits(without_plus(s))
            && decimal_value(without_plus(s)) == n,
{
    let t = without_plus(s);
    if t.len() > 0 && all_digits(t) && decimal_value(t) == n {
        lemma_digits_are_written(t);
        if s.len() > 0 && s[0] == '+' {
            assert(s =~= seq!['+'] + t);
        }
    }
    if digits_write(s, n) {
        lemma_digits_write_digits(s, n);
        assert(is_digit(s[0]));
    }
    if exists|u: Seq<char>| s == seq!['+'] + u && #[trigger] digits_write(u, n) {
        let u = choose|u: Seq<char>| s == seq!['+'] + u && #[trigger] digits_write(u, n);
        lemma_digits_write_digits(u, n);
        assert(s.skip(1) =~= u);
    }
}

/// A text reads as a number if and only if it writes that number and the number is
/// within the bound.
pub proof fn law_numbers_read_as_written(s: Seq<char>, max: u64, n: u64)
    ensures
        number(s, max) == Some(n) <==> writes_number(s, n as nat) && n <= max,
        number(s, max) is None <==> forall|m: nat| m <= max ==> !writes_number(s, m),
{
    lemma_number_written(s, n as nat);
    let v = decimal_value(without_plus(s));
    lemma_number_written(s, v);
    assert forall|m: nat| m != v implies !writes_number(s, m) by {
        lemma_number_written(s, m);
    }
}

/// A text reads as a 16-bit number if and only if it writes that number.
pub proof fn law_numbers16_read_as_written(s: Seq<char>, n: u16)
    ensures
        number16(s) == Some(n) <==> writes_number(s, n as nat),
        number16(s) is None <==> forall|m: nat| m <= 65535 ==> !writes_number(s, m),
{
    law_numbers_read_as_written(s, u16::MAX as u64, n as u64);
}

} // verus!
