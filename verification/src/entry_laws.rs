//! What the entries and the flows of a dump say, word by word.

use crate::address::{ip_address, IpAddress};
use crate::entry::{
    address_field, class, entry, field, lemma_first_kept, line_class, line_source, names_state,
    number16_field, number64_field, source, tcp_state, ConnectionClass,
};
use crate::flows::{flow, line_flow};
use crate::laws::lemma_filter_map_add;
use crate::text::{occurs, words};
use crate::text_laws::{
    is_word, joined, law_numbers16_read_as_written, law_numbers_read_as_written, law_occurs_within,
    law_words_of_joined_words, writes_number,
};
use vstd::prelude::*;

verus! {

/// Is `needle` a part of `s`?
pub open spec fn is_part(needle: Seq<char>, s: Seq<char>) -> bool {
    exists|a: Seq<char>, b: Seq<char>| s == #[trigger] ((a + needle) + b)
}

/// A line holds an entry if and only if it has at least four words and does not
/// tell how many entries were shown. The entry is then its words.
pub proof fn law_entries_are_words(line: Seq<char>)
    ensures
        entry(line) is Some <==> words(line).len() >= 4 && !is_part(
            "flow entries have been shown"@,
            line,
        ),
        entry(line) matches Some(w) ==> w == words(line),
{
    law_occurs_within(line, "flow entries have been shown"@);
}

/// Four words or more with blanks between them are an entry, word by word.
pub proof fn law_entry_of_joined_words(parts: Seq<Seq<char>>)
    requires
        parts.len() >= 4,
        forall|i: int| 0 <= i < parts.len() ==> is_word(#[trigger] parts[i]),
        !is_part("flow entries have been shown"@, joined(parts, ' ')),
    ensures
        entry(joined(parts, ' ')) == Some(parts),
{
    law_words_of_joined_words(parts);
    law_entries_are_words(joined(parts, ' '));
}

/// A field is what stands behind its key, and a word that does not begin with the
/// key has none.
pub proof fn law_fields_stand_behind_their_key(word: Seq<char>, key: Seq<char>, rest: Seq<char>)
    ensures
        field(word, key) == Some(rest) <==> word == key + rest,
{
    if field(word, key) == Some(rest) {
        assert(word.subrange(0, key.len() as int) + word.skip(key.len() as int) =~= word);
    }
    if word == key + rest {
        assert(word.subrange(0, key.len() as int) =~= key);
        assert(word.skip(key.len() as int) =~= rest);
    }
}

/// Is the word the key with the address behind it?
pub open spec fn shows_address(word: Seq<char>, key: Seq<char>, a: IpAddress) -> bool {
    exists|t: Seq<char>| word == #[trigger] (key + t) && ip_address(t) == Some(a)
}

/// Is the word the key with an address behind it?
pub open spec fn shows_some_address(word: Seq<char>, key: Seq<char>) -> bool {
    exists|a: IpAddress| shows_address(word, key, a)
}

/// Is the word the key with the number behind it?
pub open spec fn shows_number(word: Seq<char>, key: Seq<char>, n: nat) -> bool {
    exists|t: Seq<char>| word == #[trigger] (key + t) && writes_number(t, n)
}

/// An address field is read where the key and an address make up the word.
pub proof fn law_address_fields(word: Seq<char>, key: Seq<char>, a: IpAddress)
    ensures
        address_field(key)(word) == Some(a) <==> shows_address(word, key, a),
{
    let rest = word.skip(key.len() as int);
    law_fields_stand_behind_their_key(word, key, rest);
    if shows_address(word, key, a) {
        let t = choose|t: Seq<char>| word == #[trigger] (key + t) && ip_address(t) == Some(a);
        law_fields_stand_behind_their_key(word, key, t);
    }
}

/// A 16-bit number field is read where the key and a number up to 65535 make up the
/// word.
pub proof fn law_number16_fields(word: Seq<char>, key: Seq<char>, n: u16)
    ensures
        number16_field(key)(word) == Some(n) <==> shows_number(word, key, n as nat),
{
    let rest = word.skip(key.len() as int);
    law_fields_stand_behind_their_key(word, key, rest);
    law_numbers16_read_as_written(rest, n);
    if shows_number(word, key, n as nat) {
        let t = choose|t: Seq<char>| word == #[trigger] (key + t) && writes_number(t, n as nat);
        law_fields_stand_behind_their_key(word, key, t);
        law_numbers16_read_as_written(t, n);
    }
}

/// A 64-bit number field is read where the key and a number up to
/// 18446744073709551615 make up the word.
pub proof fn law_number64_fields(word: Seq<char>, key: Seq<char>, n: u64)
    ensures
        number64_field(key)(word) == Some(n) <==> shows_number(word, key, n as nat),
{
    let rest = word.skip(key.len() as int);
    law_fields_stand_behind_their_key(word, key, rest);
    law_numbers_read_as_written(rest, u64::MAX, n);
    if shows_number(word, key, n as nat) {
        let t = choose|t: Seq<char>| word == #[trigger] (key + t) && writes_number(t, n as nat);
        law_fields_stand_behind_their_key(word, key, t);
        law_numbers_read_as_written(t, u64::MAX, n);
    }
}

pub proof fn lemma_nothing_kept<A, B>(s: Seq<A>, f: spec_fn(A) -> Option<B>)
    requires
        forall|i: int| 0 <= i < s.len() ==> f(#[trigger] s[i]) is None,
    ensures
        s.filter_map(f) == Seq::<B>::empty(),
    decreases s.len(),
{
    if s.len() > 0 {
        let t = s.drop_last();
        assert forall|i: int| 0 <= i < t.len() implies f(#[trigger] t[i]) is None by {
            assert(t[i] == s[i]);
        }
        lemma_nothing_kept(t, f);
        assert(f(s[s.len() - 1]) is None);
    }
}

/// Does the first item that gives something stand at `i`?
pub open spec fn first_given<A, B>(s: Seq<A>, f: spec_fn(A) -> Option<B>, i: int) -> bool {
    0 <= i < s.len() && f(s[i]) is Some && forall|j: int| 0 <= j < i ==> f(#[trigger] s[j]) is None
}

pub proof fn lemma_kept_from_first<A, B>(s: Seq<A>, f: spec_fn(A) -> Option<B>, i: int)
    requires
        first_given(s, f, i),
    ensures
        s.filter_map(f) == seq![f(s[i])->0] + s.skip(i + 1).filter_map(f),
{
    let a = s.take(i);
    let b = s.skip(i + 1);
    assert forall|j: int| 0 <= j < a.len() implies f(#[trigger] a[j]) is None by {
        assert(a[j] == s[j]);
    }
    lemma_nothing_kept(a, f);
    Seq::lemma_filter_map_singleton(s[i], f);
    lemma_filter_map_add(a, seq![s[i]], f);
    lemma_filter_map_add(a + seq![s[i]], b, f);
    assert((a + seq![s[i]]) + b =~= s);
    assert(s.filter_map(f) =~= seq![f(s[i])->0] + b.filter_map(f));
}

proof fn lemma_some_first<A, B>(s: Seq<A>, f: spec_fn(A) -> Option<B>, i: int)
    requires
        0 <= i < s.len(),
        f(s[i]) is Some,
    ensures
        exists|k: int| first_given(s, f, k),
    decreases i,
{
    if exists|j: int| 0 <= j < i && f(#[trigger] s[j]) is Some {
        let j = choose|j: int| 0 <= j < i && f(#[trigger] s[j]) is Some;
        lemma_some_first(s, f, j);
    } else {
        assert(first_given(s, f, i));
    }
}

pub proof fn lemma_kept_has_first<A, B>(s: Seq<A>, f: spec_fn(A) -> Option<B>)
    requires
        s.filter_map(f).len() > 0,
    ensures
        exists|k: int| first_given(s, f, k),
{
    if forall|i: int| 0 <= i < s.len() ==> f(#[trigger] s[i]) is None {
        lemma_nothing_kept(s, f);
    } else {
        let i = choose|i: int| 0 <= i < s.len() && f(#[trigger] s[i]) is Some;
        lemma_some_first(s, f, i);
    }
}

/// Do the first two items that give something stand at `i` and `j`?
pub open spec fn first_two_given<A, B>(
    s: Seq<A>,
    f: spec_fn(A) -> Option<B>,
    i: int,
    j: int,
) -> bool {
    &&& 0 <= i < j < s.len()
    &&& f(s[i]) is Some
    &&& f(s[j]) is Some
    &&& forall|k: int| 0 <= k < j && k != i ==> f(#[trigger] s[k]) is None
}

pub proof fn lemma_two_kept<A, B>(s: Seq<A>, f: spec_fn(A) -> Option<B>, i: int, j: int)
    requires
        first_two_given(s, f, i, j),
    ensures
        s.filter_map(f).len() >= 2,
        s.filter_map(f)[0] == f(s[i])->0,
        s.filter_map(f)[1] == f(s[j])->0,
{
    assert(first_given(s, f, i));
    lemma_kept_from_first(s, f, i);
    let rest = s.skip(i + 1);
    assert(rest[j - i - 1] == s[j]);
    assert forall|k: int| 0 <= k < j - i - 1 implies f(#[trigger] rest[k]) is None by {
        assert(rest[k] == s[k + i + 1]);
    }
    assert(first_given(rest, f, j - i - 1));
    lemma_kept_from_first(rest, f, j - i - 1);
}

pub proof fn lemma_two_kept_stand_somewhere<A, B>(s: Seq<A>, f: spec_fn(A) -> Option<B>)
    requires
        s.filter_map(f).len() >= 2,
    ensures
        exists|i: int, j: int| first_two_given(s, f, i, j),
{
    lemma_kept_has_first(s, f);
    let i = choose|i: int| first_given(s, f, i);
    lemma_kept_from_first(s, f, i);
    let rest = s.skip(i + 1);
    lemma_kept_has_first(rest, f);
    let m = choose|m: int| first_given(rest, f, m);
    let j = i + 1 + m;
    assert(s[j] == rest[m]);
    assert forall|k: int| 0 <= k < j && k != i implies f(#[trigger] s[k]) is None by {
        if k > i {
            assert(rest[k - i - 1] == s[k]);
        }
    }
    assert(first_two_given(s, f, i, j));
}

/// The source of an entry is the address behind the first `src=` that has one, and
/// without any such word there is no source.
pub proof fn law_source_is_the_first_src(entry_words: Seq<Seq<char>>, a: IpAddress)
    ensures
        source(entry_words) == Some(a) <==> exists|i: int|
            {
                &&& 0 <= i < entry_words.len()
                &&& shows_address(#[trigger] entry_words[i], "src="@, a)
                &&& forall|j: int|
                    0 <= j < i ==> !shows_some_address(#[trigger] entry_words[j], "src="@)
            },
        source(entry_words) is None <==> forall|i: int|
            0 <= i < entry_words.len() ==> !shows_some_address(#[trigger] entry_words[i], "src="@),
{
    let f = address_field("src="@);
    assert forall|w: Seq<char>, b: IpAddress| #[trigger] shows_address(w, "src="@, b) <==> f(w)
        == Some(b) by {
        law_address_fields(w, "src="@, b);
    }
    if source(entry_words) is Some {
        lemma_kept_has_first(entry_words, f);
        let i = choose|i: int| first_given(entry_words, f, i);
        lemma_kept_from_first(entry_words, f, i);
        let b = source(entry_words)->0;
        assert(shows_address(entry_words[i], "src="@, b));
    } else {
        assert forall|i: int| 0 <= i < entry_words.len() implies f(
            #[trigger] entry_words[i],
        ) is None by {
            if f(entry_words[i]) is Some {
                lemma_some_first(entry_words, f, i);
                let k = choose|k: int| first_given(entry_words, f, k);
                lemma_kept_from_first(entry_words, f, k);
            }
        }
    }
    if exists|i: int|
        {
            &&& 0 <= i < entry_words.len()
            &&& shows_address(#[trigger] entry_words[i], "src="@, a)
            &&& forall|j: int|
                    0 <= j < i ==> !shows_some_address(#[trigger] entry_words[j], "src="@)
        } {
        let i = choose|i: int|
            {
                &&& 0 <= i < entry_words.len()
                &&& shows_address(#[trigger] entry_words[i], "src="@, a)
                &&& forall|j: int|
                    0 <= j < i ==> !shows_some_address(#[trigger] entry_words[j], "src="@)
            };
        assert forall|j: int| 0 <= j < i implies f(#[trigger] entry_words[j]) is None by {
            if f(entry_words[j]) is Some {
                assert(shows_address(entry_words[j], "src="@, f(entry_words[j])->0));
                assert(shows_some_address(entry_words[j], "src="@));
            }
        }
        lemma_kept_from_first(entry_words, f, i);
    }
}

pub proof fn lemma_same_kept<A, B>(a: Seq<A>, b: Seq<A>, f: spec_fn(A) -> Option<B>)
    requires
        a.len() == b.len(),
        forall|i: int| 0 <= i < a.len() ==> f(#[trigger] a[i]) == f(b[i]),
    ensures
        a.filter_map(f) == b.filter_map(f),
    decreases a.len(),
{
    if a.len() > 0 {
        let (c, d) = (a.drop_last(), b.drop_last());
        assert forall|i: int| 0 <= i < c.len() implies f(#[trigger] c[i]) == f(d[i]) by {
            assert(c[i] == a[i] && d[i] == b[i]);
        }
        lemma_same_kept(c, d, f);
        assert(f(a[a.len() - 1]) == f(b[b.len() - 1]));
    }
}

/// A word that does not begin with `src=`, such as a destination, can be put in place
/// of another such word without a change of the source.
pub proof fn law_source_ignores_other_words(entry_words: Seq<Seq<char>>, i: int, word: Seq<char>)
    requires
        0 <= i < entry_words.len(),
        forall|t: Seq<char>| entry_words[i] != #[trigger] ("src="@ + t),
        forall|t: Seq<char>| word != #[trigger] ("src="@ + t),
    ensures
        source(entry_words.update(i, word)) == source(entry_words),
{
    let f = address_field("src="@);
    let other = entry_words.update(i, word);
    law_fields_stand_behind_their_key(
        entry_words[i],
        "src="@,
        entry_words[i].skip("src="@.len() as int),
    );
    law_fields_stand_behind_their_key(word, "src="@, word.skip("src="@.len() as int));
    lemma_same_kept(other, entry_words, f);
}

/// Two lines that differ in one word, which does not begin with `src=` in either, have
/// one source.
pub proof fn law_line_source_ignores_other_words(
    parts: Seq<Seq<char>>,
    i: int,
    word: Seq<char>,
)
    requires
        parts.len() >= 4,
        forall|k: int| 0 <= k < parts.len() ==> is_word(#[trigger] parts[k]),
        is_word(word),
        0 <= i < parts.len(),
        forall|t: Seq<char>| parts[i] != #[trigger] ("src="@ + t),
        forall|t: Seq<char>| word != #[trigger] ("src="@ + t),
        !is_part("flow entries have been shown"@, joined(parts, ' ')),
        !is_part("flow entries have been shown"@, joined(parts.update(i, word), ' ')),
    ensures
        line_source(joined(parts.update(i, word), ' ')) == line_source(joined(parts, ' ')),
{
    let other = parts.update(i, word);
    assert forall|k: int| 0 <= k < other.len() implies is_word(#[trigger] other[k]) by {
        if k != i {
            assert(other[k] == parts[k]);
        }
    }
    law_entry_of_joined_words(parts);
    law_entry_of_joined_words(other);
    law_source_ignores_other_words(parts, i, word);
}

/// Can the word name a TCP state: is it without an equals sign, and without a square
/// bracket at its beginning?
pub open spec fn is_bare(word: Seq<char>) -> bool {
    &&& forall|k: int| 0 <= k < word.len() ==> #[trigger] word[k] != '='
    &&& word.len() > 0 ==> word[0] != '['
}

/// The TCP state of an entry is the first bare word behind its third word. Where
/// there is none, an entry with a word that mentions OFFLOAD is established, and
/// another has no state.
pub proof fn law_tcp_state_is_the_first_bare_word(entry_words: Seq<Seq<char>>, i: int)
    ensures
        3 <= i < entry_words.len() && is_bare(entry_words[i]) && (forall|j: int|
            3 <= j < i ==> !is_bare(#[trigger] entry_words[j])) ==> tcp_state(entry_words) == Some(
            entry_words[i],
        ),
        entry_words.len() >= 3 && (forall|j: int|
            3 <= j < entry_words.len() ==> !is_bare(#[trigger] entry_words[j])) ==> {
            if exists|k: int|
                0 <= k < entry_words.len() && is_part("OFFLOAD"@, #[trigger] entry_words[k]) {
                tcp_state(entry_words) == Some("ESTABLISHED"@)
            } else {
                tcp_state(entry_words) is None
            }
        },
{
    let behind = entry_words.skip(3);
    assert forall|w: Seq<char>| #[trigger] is_bare(w) <==> names_state()(w) by {
        if names_state()(w) {
            assert forall|k: int| 0 <= k < w.len() implies #[trigger] w[k] != '=' by {
                assert(!w.contains('='));
            }
        }
    }
    if 3 <= i < entry_words.len() && is_bare(entry_words[i]) && (forall|j: int|
        3 <= j < i ==> !is_bare(#[trigger] entry_words[j])) {
        assert(behind[i - 3] == entry_words[i]);
        assert forall|j: int| 0 <= j < i - 3 implies !names_state()(#[trigger] behind[j]) by {
            assert(behind[j] == entry_words[j + 3]);
            assert(!is_bare(entry_words[j + 3]));
        }
        lemma_first_kept(behind, names_state(), i - 3);
    }
    if entry_words.len() >= 3 && (forall|j: int|
        3 <= j < entry_words.len() ==> !is_bare(#[trigger] entry_words[j])) {
        assert forall|j: int| 0 <= j < behind.len() implies !names_state()(
            #[trigger] behind[j],
        ) by {
            assert(behind[j] == entry_words[j + 3]);
            assert(!is_bare(entry_words[j + 3]));
        }
        behind.lemma_all_neg_filter_empty(names_state());
        assert forall|k: int| 0 <= k < entry_words.len() implies (occurs(
            #[trigger] entry_words[k],
            "OFFLOAD"@,
        ) <==> is_part("OFFLOAD"@, entry_words[k])) by {
            law_occurs_within(entry_words[k], "OFFLOAD"@);
        }
    }
}

/// The class of an entry: UDP for `udp`, none but for `tcp`, and for `tcp` the one of
/// its state. Established, the states on the way to a closed connection and
/// CLOSE_WAIT have a class each; all others, and no state, share one.
pub proof fn law_classes_by_protocol_and_state(entry_words: Seq<Seq<char>>)
    requires
        entry_words.len() > 0,
    ensures
        class(entry_words) is Some <==> entry_words[0] == "tcp"@ || entry_words[0] == "udp"@,
        class(entry_words) == Some(ConnectionClass::Udp) <==> entry_words[0] == "udp"@,
        class(entry_words) == Some(ConnectionClass::Established) <==> entry_words[0] == "tcp"@
            && tcp_state(entry_words) == Some("ESTABLISHED"@),
        class(entry_words) == Some(ConnectionClass::CloseWait) <==> entry_words[0] == "tcp"@
            && tcp_state(entry_words) == Some("CLOSE_WAIT"@),
        class(entry_words) == Some(ConnectionClass::TimeWait) <==> entry_words[0] == "tcp"@ && (
        tcp_state(entry_words) == Some("TIME_WAIT"@) || tcp_state(entry_words) == Some(
            "FIN_WAIT_1"@,
        ) || tcp_state(entry_words) == Some("FIN_WAIT_2"@) || tcp_state(entry_words) == Some(
            "CLOSING"@,
        ) || tcp_state(entry_words) == Some("LAST_ACK"@)),
        class(entry_words) == Some(ConnectionClass::OtherTcp) <==> entry_words[0] == "tcp"@ && (
        tcp_state(entry_words) matches Some(state) ==> state != "ESTABLISHED"@ && state
            != "CLOSE_WAIT"@ && state != "TIME_WAIT"@ && state != "FIN_WAIT_1"@ && state
            != "FIN_WAIT_2"@ && state != "CLOSING"@ && state != "LAST_ACK"@),
{
    reveal_strlit("tcp");
    reveal_strlit("udp");
    reveal_strlit("ESTABLISHED");
    reveal_strlit("CLOSE_WAIT");
    reveal_strlit("TIME_WAIT");
    reveal_strlit("FIN_WAIT_1");
    reveal_strlit("FIN_WAIT_2");
    reveal_strlit("CLOSING");
    reveal_strlit("LAST_ACK");
    assert("tcp"@[0] != "udp"@[0]);
    assert("CLOSE_WAIT"@[0] != "FIN_WAIT_1"@[0]);
    assert("CLOSE_WAIT"@[0] != "FIN_WAIT_2"@[0]);
    assert("CLOSE_WAIT"@.len() != "TIME_WAIT"@.len());
    assert("CLOSE_WAIT"@.len() != "CLOSING"@.len());
    assert("CLOSE_WAIT"@.len() != "LAST_ACK"@.len());
    assert("ESTABLISHED"@.len() == 11 && "CLOSE_WAIT"@.len() == 10 && "TIME_WAIT"@.len() == 9);
}

/// The class and the source of a line are those of its entry, and a line without an
/// entry has neither.
pub proof fn law_lines_have_what_their_entry_has(line: Seq<char>)
    ensures
        entry(line) matches Some(w) ==> line_class(line) == class(w) && line_source(line) == source(
            w,
        ) && line_flow()(line) == flow(w),
        entry(line) is None ==> line_class(line) is None && line_source(line) is None
            && line_flow()(line) is None,
{
}

} // verus!
