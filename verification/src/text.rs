//! Cutting text into lines and words.

use vstd::prelude::*;
use vstd::slice::slice_subrange;

verus! {

/// The characters with the Unicode property White_Space.
pub open spec fn is_white_space(c: char) -> bool {
    let u = c as u32;
    ||| 0x09 <= u <= 0x0d
    ||| u == 0x20
    ||| u == 0x85
    ||| u == 0xa0
    ||| u == 0x1680
    ||| 0x2000 <= u <= 0x200a
    ||| u == 0x2028
    ||| u == 0x2029
    ||| u == 0x202f
    ||| u == 0x205f
    ||| u == 0x3000
}

/// The separator "any white space".
pub open spec fn white_space() -> spec_fn(char) -> bool {
    |c: char| is_white_space(c)
}

/// The separator "the character `x`".
pub open spec fn only(x: char) -> spec_fn(char) -> bool {
    |c: char| c == x
}

/// What lies between the separators of `s`: one piece more than there are
/// separators, and a piece may be empty.
pub open spec fn pieces(s: Seq<char>, sep: spec_fn(char) -> bool) -> Seq<Seq<char>>
    decreases s.len(),
{
    if s.len() == 0 {
        seq![Seq::<char>::empty()]
    } else {
        let before = pieces(s.drop_last(), sep);
        if sep(s.last()) {
            before.push(Seq::<char>::empty())
        } else {
            before.drop_last().push(before.last().push(s.last()))
        }
    }
}

/// The lines of `s`. The last one is empty where `s` ends with a line's end.
pub open spec fn lines(s: Seq<char>) -> Seq<Seq<char>> {
    pieces(s, only('\n'))
}

/// Is the text not empty?
pub open spec fn non_empty() -> spec_fn(Seq<char>) -> bool {
    |w: Seq<char>| w.len() > 0
}

/// The words of `s`: its longest runs without white space.
pub open spec fn words(s: Seq<char>) -> Seq<Seq<char>> {
    pieces(s, white_space()).filter(non_empty())
}

/// The texts that slices show.
pub open spec fn texts(v: Seq<&[char]>) -> Seq<Seq<char>> {
    v.map_values(|w: &[char]| w@)
}

/// There is always a piece.
pub proof fn lemma_pieces_non_empty(s: Seq<char>, sep: spec_fn(char) -> bool)
    ensures
        pieces(s, sep).len() > 0,
    decreases s.len(),
{
    if s.len() > 0 {
        lemma_pieces_non_empty(s.drop_last(), sep);
    }
}

/// The characters of `s`, one by one.
pub fn to_chars(s: &str) -> (v: Vec<char>)
    ensures
        v@ == s@,
{
    let mut v: Vec<char> = Vec::new();
    for c in it: s.chars()
        invariant
            v@ == it.seq().take(it.index() as int),
            it.seq() == s@,
    {
        v.push(c);
    }
    v
}

/// Cuts `text` at every `sep`.
pub fn split_on<'a>(text: &'a [char], sep: char) -> (out: Vec<&'a [char]>)
    ensures
        texts(out@) == pieces(text@, only(sep)),
{
    let mut out: Vec<&'a [char]> = Vec::new();
    let mut start: usize = 0;
    let mut i: usize = 0;
    assert(text@.take(0) =~= Seq::<char>::empty());
    while i < text.len()
        invariant
            start <= i <= text.len(),
            pieces(text@.take(i as int), only(sep)) == texts(out@).push(
                text@.subrange(start as int, i as int),
            ),
        decreases text.len() - i,
    {
        assert(text@.take(i + 1).drop_last() =~= text@.take(i as int));
        if text[i] == sep {
            out.push(slice_subrange(text, start, i));
            start = i + 1;
            assert(text@.subrange(start as int, i + 1) =~= Seq::<char>::empty());
        } else {
            assert(text@.subrange(start as int, i + 1) =~= text@.subrange(start as int, i as int).push(
                text@[i as int],
            ));
            assert(texts(out@).push(text@.subrange(start as int, i as int)).drop_last() =~= texts(out@));
        }
        i = i + 1;
    }
    out.push(slice_subrange(text, start, i));
    assert(text@.take(i as int) =~= text@);
    out
}

/// Does `c` have the property White_Space?
pub fn has_white_space(c: char) -> (b: bool)
    ensures
        b == is_white_space(c),
{
    let u: u32 = c as u32;
    (0x09 <= u && u <= 0x0d) || u == 0x20 || u == 0x85 || u == 0xa0 || u == 0x1680 || (0x2000 <= u
        && u <= 0x200a) || u == 0x2028 || u == 0x2029 || u == 0x202f || u == 0x205f || u == 0x3000
}

/// Cuts `text` into its words.
pub fn split_words<'a>(text: &'a [char]) -> (out: Vec<&'a [char]>)
    ensures
        texts(out@) == words(text@),
{
    broadcast use Seq::lemma_filter_push;

    let mut out: Vec<&'a [char]> = Vec::new();
    let mut start: usize = 0;
    let mut i: usize = 0;
    let ghost mut done: Seq<Seq<char>> = Seq::empty();
    assert(text@.take(0) =~= Seq::<char>::empty());
    assert(texts(out@) =~= done.filter(non_empty()));
    while i < text.len()
        invariant
            start <= i <= text.len(),
            pieces(text@.take(i as int), white_space()) == done.push(
                text@.subrange(start as int, i as int),
            ),
            texts(out@) == done.filter(non_empty()),
        decreases text.len() - i,
    {
        let ghost piece = text@.subrange(start as int, i as int);
        assert(text@.take(i + 1).drop_last() =~= text@.take(i as int));
        if has_white_space(text[i]) {
            if start < i {
                out.push(slice_subrange(text, start, i));
            }
            proof {
                done.lemma_filter_push(piece, non_empty());
                done = done.push(piece);
            }
            start = i + 1;
            assert(text@.subrange(start as int, i + 1) =~= Seq::<char>::empty());
        } else {
            assert(text@.subrange(start as int, i + 1) =~= piece.push(text@[i as int]));
            assert(done.push(piece).drop_last() =~= done);
        }
        i = i + 1;
    }
    proof {
        done.lemma_filter_push(text@.subrange(start as int, i as int), non_empty());
    }
    if start < i {
        out.push(slice_subrange(text, start, i));
    }
    assert(text@.take(i as int) =~= text@);
    out
}

/// Does `needle` stand in `s` from position `i` on?
pub open spec fn stands_at(s: Seq<char>, needle: Seq<char>, i: int) -> bool {
    0 <= i && i + needle.len() <= s.len() && s.subrange(i, i + needle.len()) == needle
}

/// Does `needle` stand anywhere in `s`?
pub open spec fn occurs(s: Seq<char>, needle: Seq<char>) -> bool {
    exists|i: int| stands_at(s, needle, i)
}

/// Does `text` show `needle` from position `i` on?
pub fn shows_at(text: &[char], needle: &[char], i: usize) -> (b: bool)
    requires
        i <= text@.len(),
    ensures
        b == stands_at(text@, needle@, i as int),
{
    if text.len() - i < needle.len() {
        return false;
    }
    let mut k: usize = 0;
    while k < needle.len()
        invariant
            k <= needle@.len(),
            i + needle.len() <= text.len(),
            forall|j: int| 0 <= j < k ==> text@[i + j] == #[trigger] needle@[j],
        decreases needle@.len() - k,
    {
        if text[i + k] != needle[k] {
            proof {
                let shown = text@.subrange(i as int, i + needle@.len());
                assert(shown[k as int] == text@[i + k]);
            }
            return false;
        }
        k = k + 1;
    }
    assert(text@.subrange(i as int, i + needle@.len()) =~= needle@);
    true
}

/// Is `text` the same text as `other`?
pub fn same_text(text: &[char], other: &str) -> (b: bool)
    ensures
        b == (text@ == other@),
{
    let needle: Vec<char> = to_chars(other);
    assert(text@.subrange(0, text@.len() as int) =~= text@);
    text.len() == needle.len() && shows_at(text, needle.as_slice(), 0)
}

/// Is `i` the first position from which `needle` stands in `s`?
pub open spec fn first_stands_at(s: Seq<char>, needle: Seq<char>, i: int) -> bool {
    stands_at(s, needle, i) && forall|j: int| j < i ==> !stands_at(s, needle, j)
}

/// The first position from which `needle` stands in `text`.
pub fn find_text(text: &[char], needle: &str) -> (r: Option<usize>)
    ensures
        match r {
            Some(i) => first_stands_at(text@, needle@, i as int),
            None => !occurs(text@, needle@),
        },
{
    let pattern: Vec<char> = to_chars(needle);
    let mut i: usize = 0;
    while i < text.len()
        invariant
            i <= text@.len(),
            pattern@ == needle@,
            forall|j: int| j < i ==> !stands_at(text@, needle@, j),
        decreases text@.len() - i,
    {
        if shows_at(text, pattern.as_slice(), i) {
            return Some(i);
        }
        i = i + 1;
    }
    if shows_at(text, pattern.as_slice(), i) {
        Some(i)
    } else {
        None
    }
}

/// Does `needle` stand anywhere in `text`?
pub fn contains_text(text: &[char], needle: &str) -> (b: bool)
    ensures
        b == occurs(text@, needle@),
{
    match find_text(text, needle) {
        Some(_) => true,
        None => false,
    }
}

/// Does the character `c` stand anywhere in `text`?
pub fn contains_char(text: &[char], c: char) -> (b: bool)
    ensures
        b == text@.contains(c),
{
    let mut i: usize = 0;
    while i < text.len()
        invariant
            i <= text@.len(),
            forall|j: int| 0 <= j < i ==> text@[j] != c,
        decreases text@.len() - i,
    {
        if text[i] == c {
            return true;
        }
        i = i + 1;
    }
    false
}

/// `String::push`: the character is added at the end of the string.
pub assume_specification[ String::push ](s: &mut String, c: char)
    ensures
        final(s)@ == old(s)@.push(c),
;

/// The string that holds the characters of `text`.
pub fn to_text(text: &[char]) -> (s: String)
    ensures
        s@ == text@,
{
    let mut s: String = String::new();
    let mut i: usize = 0;
    while i < text.len()
        invariant
            i <= text@.len(),
            s@ == text@.take(i as int),
        decreases text@.len() - i,
    {
        s.push(text[i]);
        i = i + 1;
        assert(text@.take(i as int) =~= text@.take(i - 1).push(text@[i - 1]));
    }
    assert(text@.take(i as int) =~= text@);
    s
}

} // verus!
