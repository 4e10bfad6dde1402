//! The entries of a conntrack dump, one on each line.

use crate::address::{ip_address, parse_ip_address, IpAddress};
use crate::number::{number, number16, parse_u16, parse_u64};
use crate::text::{
    contains_char, contains_text, occurs, same_text, shows_at, split_words, stands_at, texts,
    to_chars, words,
};
use vstd::prelude::*;
use vstd::slice::{slice_subrange, slice_to_vec};

verus! {

/// What the statistics count a connection as.
#[derive(Clone, Copy, Debug, PartialEq, Eq, Structural)]
pub enum ConnectionClass {
    Established,
    TimeWait,
    CloseWait,
    /// A TCP connection in any other state, or in none that is named.
    OtherTcp,
    Udp,
}

/// The line that conntrack ends its output with.
pub open spec fn is_summary(line: Seq<char>) -> bool {
    occurs(line, "flow entries have been shown"@)
}

/// The words of the entry on `line`: at least four, and not the summary's.
pub open spec fn entry(line: Seq<char>) -> Option<Seq<Seq<char>>> {
    if is_summary(line) || words(line).len() < 4 {
        None
    } else {
        Some(words(line))
    }
}

/// The rest of a word that begins with `key`.
pub open spec fn field(word: Seq<char>, key: Seq<char>) -> Option<Seq<char>> {
    if stands_at(word, key, 0) {
        Some(word.skip(key.len() as int))
    } else {
        None
    }
}

/// Reads the address behind `key`.
pub open spec fn address_field(key: Seq<char>) -> spec_fn(Seq<char>) -> Option<IpAddress> {
    |word: Seq<char>|
        match field(word, key) {
            Some(rest) => ip_address(rest),
            None => None,
        }
}

/// Reads the 16-bit number behind `key`.
pub open spec fn number16_field(key: Seq<char>) -> spec_fn(Seq<char>) -> Option<u16> {
    |word: Seq<char>|
        match field(word, key) {
            Some(rest) => number16(rest),
            None => None,
        }
}

/// Reads the 64-bit number behind `key`.
pub open spec fn number64_field(key: Seq<char>) -> spec_fn(Seq<char>) -> Option<u64> {
    |word: Seq<char>|
        match field(word, key) {
            Some(rest) => number(rest, u64::MAX),
            None => None,
        }
}

/// The words that can name a TCP state.
pub open spec fn names_state() -> spec_fn(Seq<char>) -> bool {
    |word: Seq<char>| !word.contains('=') && !(word.len() > 0 && word[0] == '[')
}

/// The TCP state of an entry: the first word behind the third that can name one.
/// An offloaded connection names none, and is established.
pub open spec fn tcp_state(words: Seq<Seq<char>>) -> Option<Seq<char>> {
    let named = words.skip(3).filter(names_state());
    if named.len() > 0 {
        Some(named[0])
    } else if exists|i: int| 0 <= i < words.len() && occurs(#[trigger] words[i], "OFFLOAD"@) {
        Some("ESTABLISHED"@)
    } else {
        None
    }
}

/// The class of a TCP connection in `state`.
pub open spec fn state_class(state: Seq<char>) -> ConnectionClass {
    if state == "ESTABLISHED"@ {
        ConnectionClass::Established
    } else if state == "TIME_WAIT"@ || state == "FIN_WAIT_1"@ || state == "FIN_WAIT_2"@ || state
        == "CLOSING"@ || state == "LAST_ACK"@ {
        ConnectionClass::TimeWait
    } else if state == "CLOSE_WAIT"@ {
        ConnectionClass::CloseWait
    } else {
        ConnectionClass::OtherTcp
    }
}

/// The class of a TCP connection whose state is named or not.
pub open spec fn tcp_class(state: Option<Seq<char>>) -> ConnectionClass {
    match state {
        Some(state) => state_class(state),
        None => ConnectionClass::OtherTcp,
    }
}

/// The class of an entry. Every TCP and every UDP entry has one, and no others.
pub open spec fn class(words: Seq<Seq<char>>) -> Option<ConnectionClass> {
    if words[0] == "tcp"@ {
        Some(tcp_class(tcp_state(words)))
    } else if words[0] == "udp"@ {
        Some(ConnectionClass::Udp)
    } else {
        None
    }
}

/// The source of an entry: the first `src=` with an address behind it.
pub open spec fn source(words: Seq<Seq<char>>) -> Option<IpAddress> {
    let sources = words.filter_map(address_field("src="@));
    if sources.len() > 0 {
        Some(sources[0])
    } else {
        None
    }
}

/// The class of the entry on `line`.
pub open spec fn line_class(line: Seq<char>) -> Option<ConnectionClass> {
    match entry(line) {
        Some(words) => class(words),
        None => None,
    }
}

/// The source of the entry on `line`.
pub open spec fn line_source(line: Seq<char>) -> Option<IpAddress> {
    match entry(line) {
        Some(words) => source(words),
        None => None,
    }
}

/// The first item that a filter keeps is the first that satisfies its predicate.
pub proof fn lemma_first_kept<A>(s: Seq<A>, p: spec_fn(A) -> bool, i: int)
    requires
        0 <= i < s.len(),
        p(s[i]),
        forall|j: int| 0 <= j < i ==> !p(#[trigger] s[j]),
    ensures
        s.filter(p).len() > 0,
        s.filter(p)[0] == s[i],
{
    s.take(i).lemma_all_neg_filter_empty(p);
    s.take(i).lemma_filter_push(s[i], p);
    assert(s.take(i).push(s[i]) =~= s.take(i + 1));
    assert(s =~= s.take(i + 1) + s.skip(i + 1));
    Seq::filter_distributes_over_add(s.take(i + 1), s.skip(i + 1), p);
}

/// Reads the entry on a line.
pub fn parse_entry<'a>(line: &'a [char]) -> (r: Option<Vec<&'a [char]>>)
    ensures
        match r {
            Some(w) => entry(line@) == Some(texts(w@)) && w@.len() >= 4,
            None => entry(line@) is None,
        },
{
    if contains_text(line, "flow entries have been shown") {
        return None;
    }
    let w: Vec<&'a [char]> = split_words(line);
    assert(texts(w@).len() == w@.len());
    if w.len() < 4 {
        return None;
    }
    Some(w)
}

/// The rest of `word`, where it begins with `key`.
fn strip_key<'a>(word: &'a [char], key: &[char]) -> (r: Option<&'a [char]>)
    ensures
        match r {
            Some(rest) => field(word@, key@) == Some(rest@),
            None => field(word@, key@) is None,
        },
{
    if shows_at(word, key, 0) {
        let rest: &'a [char] = slice_subrange(word, key.len(), word.len());
        assert(rest@ =~= word@.skip(key@.len() as int));
        Some(rest)
    } else {
        None
    }
}

/// The addresses behind `key`, in the order of the words.
pub fn address_fields(words: &Vec<&[char]>, key: &str) -> (r: Vec<IpAddress>)
    ensures
        r@ == texts(words@).filter_map(address_field(key@)),
{
    let key_chars: Vec<char> = to_chars(key);
    let ghost shown = texts(words@);
    let mut r: Vec<IpAddress> = Vec::new();
    let mut i: usize = 0;
    while i < words.len()
        invariant
            i <= words@.len(),
            shown == texts(words@),
            key_chars@ == key@,
            r@ == shown.take(i as int).filter_map(address_field(key@)),
        decreases words@.len() - i,
    {
        proof {
            shown.lemma_filter_map_take_succ(address_field(key@), i as int);
            assert(shown[i as int] == words@[i as int]@);
        }
        match strip_key(words[i], key_chars.as_slice()) {
            Some(rest) => {
                match parse_ip_address(rest) {
                    Some(address) => {
                        r.push(address);
                    },
                    None => {},
                }
            },
            None => {},
        }
        i = i + 1;
        assert(r@ =~= shown.take(i as int).filter_map(address_field(key@)));
    }
    assert(shown.take(i as int) =~= shown);
    r
}

/// The 16-bit numbers behind `key`, in the order of the words.
pub fn number16_fields(words: &Vec<&[char]>, key: &str) -> (r: Vec<u16>)
    ensures
        r@ == texts(words@).filter_map(number16_field(key@)),
{
    let key_chars: Vec<char> = to_chars(key);
    let ghost shown = texts(words@);
    let mut r: Vec<u16> = Vec::new();
    let mut i: usize = 0;
    while i < words.len()
        invariant
            i <= words@.len(),
            shown == texts(words@),
            key_chars@ == key@,
            r@ == shown.take(i as int).filter_map(number16_field(key@)),
        decreases words@.len() - i,
    {
        proof {
            shown.lemma_filter_map_take_succ(number16_field(key@), i as int);
            assert(shown[i as int] == words@[i as int]@);
        }
        match strip_key(words[i], key_chars.as_slice()) {
            Some(rest) => {
                match parse_u16(rest) {
                    Some(value) => {
                        r.push(value);
                    },
                    None => {},
                }
            },
            None => {},
        }
        i = i + 1;
        assert(r@ =~= shown.take(i as int).filter_map(number16_field(key@)));
    }
    assert(shown.take(i as int) =~= shown);
    r
}

/// The 64-bit numbers behind `key`, in the order of the words.
pub fn number64_fields(words: &Vec<&[char]>, key: &str) -> (r: Vec<u64>)
    ensures
        r@ == texts(words@).filter_map(number64_field(key@)),
{
    let key_chars: Vec<char> = to_chars(key);
    let ghost shown = texts(words@);
    let mut r: Vec<u64> = Vec::new();
    let mut i: usize = 0;
    while i < words.len()
        invariant
            i <= words@.len(),
            shown == texts(words@),
            key_chars@ == key@,
            r@ == shown.take(i as int).filter_map(number64_field(key@)),
        decreases words@.len() - i,
    {
        proof {
            shown.lemma_filter_map_take_succ(number64_field(key@), i as int);
            assert(shown[i as int] == words@[i as int]@);
        }
        match strip_key(words[i], key_chars.as_slice()) {
            Some(rest) => {
                match parse_u64(rest) {
                    Some(value) => {
                        r.push(value);
                    },
                    None => {},
                }
            },
            None => {},
        }
        i = i + 1;
        assert(r@ =~= shown.take(i as int).filter_map(number64_field(key@)));
    }
    assert(shown.take(i as int) =~= shown);
    r
}

/// Does any of the words hold `needle`?
fn any_contains(words: &Vec<&[char]>, needle: &str) -> (b: bool)
    ensures
        b == exists|i: int| 0 <= i < words@.len() && occurs(#[trigger] texts(words@)[i], needle@),
{
    let ghost shown = texts(words@);
    let mut i: usize = 0;
    while i < words.len()
        invariant
            i <= words@.len(),
            shown == texts(words@),
            forall|j: int| 0 <= j < i ==> !occurs(#[trigger] shown[j], needle@),
        decreases words@.len() - i,
    {
        assert(shown[i as int] == words@[i as int]@);
        if contains_text(words[i], needle) {
            return true;
        }
        i = i + 1;
    }
    false
}

/// The TCP state of an entry.
pub fn find_tcp_state(words: &Vec<&[char]>) -> (r: Option<Vec<char>>)
    requires
        words@.len() >= 3,
    ensures
        match r {
            Some(state) => tcp_state(texts(words@)) == Some(state@),
            None => tcp_state(texts(words@)) is None,
        },
{
    let ghost shown = texts(words@);
    let ghost behind = shown.skip(3);
    let mut i: usize = 3;
    while i < words.len()
        invariant
            3 <= i <= words@.len(),
            shown == texts(words@),
            behind == shown.skip(3),
            forall|j: int| 0 <= j < i - 3 ==> !names_state()(#[trigger] behind[j]),
        decreases words@.len() - i,
    {
        let word: &[char] = words[i];
        assert(behind[i - 3] == word@);
        if !contains_char(word, '=') && !(word.len() > 0 && word[0] == '[') {
            proof {
                lemma_first_kept(behind, names_state(), i - 3);
            }
            return Some(slice_to_vec(word));
        }
        i = i + 1;
    }
    proof {
        behind.lemma_all_neg_filter_empty(names_state());
    }
    if any_contains(words, "OFFLOAD") {
        Some(to_chars("ESTABLISHED"))
    } else {
        None
    }
}

/// The class of a TCP connection in `state`.
fn classify_state(state: &[char]) -> (r: ConnectionClass)
    ensures
        r == state_class(state@),
{
    if same_text(state, "ESTABLISHED") {
        ConnectionClass::Established
    } else if same_text(state, "TIME_WAIT") || same_text(state, "FIN_WAIT_1") || same_text(
        state,
        "FIN_WAIT_2",
    ) || same_text(state, "CLOSING") || same_text(state, "LAST_ACK") {
        ConnectionClass::TimeWait
    } else if same_text(state, "CLOSE_WAIT") {
        ConnectionClass::CloseWait
    } else {
        ConnectionClass::OtherTcp
    }
}

/// The class of an entry.
pub fn classify(words: &Vec<&[char]>) -> (r: Option<ConnectionClass>)
    requires
        words@.len() >= 3,
    ensures
        r == class(texts(words@)),
{
    assert(texts(words@)[0] == words@[0]@);
    if same_text(words[0], "tcp") {
        match find_tcp_state(words) {
            Some(state) => Some(classify_state(state.as_slice())),
            None => Some(ConnectionClass::OtherTcp),
        }
    } else if same_text(words[0], "udp") {
        Some(ConnectionClass::Udp)
    } else {
        None
    }
}

/// The source of an entry.
pub fn find_source(words: &Vec<&[char]>) -> (r: Option<IpAddress>)
    ensures
        r == source(texts(words@)),
{
    let sources: Vec<IpAddress> = address_fields(words, "src=");
    if sources.len() > 0 {
        Some(sources[0])
    } else {
        None
    }
}

} // verus!
