//! The flows of a conntrack dump, each with its two directions.

use crate::address::IpAddress;
use crate::entry::{
    address_field, address_fields, entry, find_tcp_state, number16_field, number16_fields,
    number64_field, number64_fields, parse_entry, tcp_state,
};
use crate::text::{lines, same_text, split_on, texts, to_chars, to_text};
use vstd::prelude::*;

verus! {

/// One flow: what its originator sends, and what is sent in reply.
#[derive(Clone, Debug)]
pub struct ConnectionFlowDetail {
    pub protocol: String,
    pub state: Option<String>,
    pub orig_src: IpAddress,
    pub orig_dst: IpAddress,
    pub orig_sport: u16,
    pub orig_dport: u16,
    pub repl_src: IpAddress,
    pub repl_dst: IpAddress,
    pub repl_sport: u16,
    pub repl_dport: u16,
    pub orig_packets: u64,
    pub orig_bytes: u64,
    pub repl_packets: u64,
    pub repl_bytes: u64,
    pub flags: Vec<String>,
}

/// A flow with its strings as sequences of characters.
pub struct FlowView {
    pub protocol: Seq<char>,
    pub state: Option<Seq<char>>,
    pub orig_src: IpAddress,
    pub orig_dst: IpAddress,
    pub orig_sport: u16,
    pub orig_dport: u16,
    pub repl_src: IpAddress,
    pub repl_dst: IpAddress,
    pub repl_sport: u16,
    pub repl_dport: u16,
    pub orig_packets: u64,
    pub orig_bytes: u64,
    pub repl_packets: u64,
    pub repl_bytes: u64,
    pub flags: Seq<Seq<char>>,
}

/// The characters of each string.
pub open spec fn strings(v: Seq<String>) -> Seq<Seq<char>> {
    v.map_values(|s: String| s@)
}

impl View for ConnectionFlowDetail {
    type V = FlowView;

    open spec fn view(&self) -> FlowView {
        FlowView {
            protocol: self.protocol@,
            state: match self.state {
                Some(s) => Some(s@),
                None => None,
            },
            orig_src: self.orig_src,
            orig_dst: self.orig_dst,
            orig_sport: self.orig_sport,
            orig_dport: self.orig_dport,
            repl_src: self.repl_src,
            repl_dst: self.repl_dst,
            repl_sport: self.repl_sport,
            repl_dport: self.repl_dport,
            orig_packets: self.orig_packets,
            orig_bytes: self.orig_bytes,
            repl_packets: self.repl_packets,
            repl_bytes: self.repl_bytes,
            flags: strings(self.flags@),
        }
    }
}

/// The views of the flows in a list.
pub open spec fn flow_views(v: Seq<ConnectionFlowDetail>) -> Seq<FlowView> {
    v.map_values(|f: ConnectionFlowDetail| f@)
}

/// The words in square brackets.
pub open spec fn is_flag() -> spec_fn(Seq<char>) -> bool {
    |word: Seq<char>| word.len() > 0 && word[0] == '[' && word.last() == ']'
}

/// The item at `i`; zero, where there is none.
pub open spec fn item_or_zero(s: Seq<u64>, i: int) -> u64 {
    if i < s.len() {
        s[i]
    } else {
        0
    }
}

/// The flow of an entry: TCP or UDP, with the addresses and ports of both
/// directions. Packets and bytes that are not counted are zero.
pub open spec fn flow(words: Seq<Seq<char>>) -> Option<FlowView> {
    let srcs = words.filter_map(address_field("src="@));
    let dsts = words.filter_map(address_field("dst="@));
    let sports = words.filter_map(number16_field("sport="@));
    let dports = words.filter_map(number16_field("dport="@));
    let packets = words.filter_map(number64_field("packets="@));
    let bytes = words.filter_map(number64_field("bytes="@));
    if (words[0] == "tcp"@ || words[0] == "udp"@) && srcs.len() >= 2 && dsts.len() >= 2
        && sports.len() >= 2 && dports.len() >= 2 {
        Some(
            FlowView {
                protocol: words[0],
                state: if words[0] == "tcp"@ {
                    tcp_state(words)
                } else {
                    None
                },
                orig_src: srcs[0],
                orig_dst: dsts[0],
                orig_sport: sports[0],
                orig_dport: dports[0],
                repl_src: srcs[1],
                repl_dst: dsts[1],
                repl_sport: sports[1],
                repl_dport: dports[1],
                orig_packets: item_or_zero(packets, 0),
                orig_bytes: item_or_zero(bytes, 0),
                repl_packets: item_or_zero(packets, 1),
                repl_bytes: item_or_zero(bytes, 1),
                flags: words.filter(is_flag()),
            },
        )
    } else {
        None
    }
}

/// Reads the flow on a line.
pub open spec fn line_flow() -> spec_fn(Seq<char>) -> Option<FlowView> {
    |line: Seq<char>|
        match entry(line) {
            Some(words) => flow(words),
            None => None,
        }
}

/// The flows of a dump, in the order of its lines.
pub open spec fn flows(content: Seq<char>) -> Seq<FlowView> {
    lines(content).filter_map(line_flow())
}

/// The words in square brackets.
fn find_flags(words: &Vec<&[char]>) -> (r: Vec<String>)
    ensures
        strings(r@) == texts(words@).filter(is_flag()),
{
    let ghost shown = texts(words@);
    let mut r: Vec<String> = Vec::new();
    let mut i: usize = 0;
    assert(strings(r@) =~= shown.take(0).filter(is_flag())) by {
        reveal(Seq::filter);
    }
    while i < words.len()
        invariant
            i <= words@.len(),
            shown == texts(words@),
            strings(r@) == shown.take(i as int).filter(is_flag()),
        decreases words@.len() - i,
    {
        let word: &[char] = words[i];
        proof {
            assert(shown[i as int] == word@);
            assert(shown.take(i + 1) =~= shown.take(i as int).push(word@));
            shown.take(i as int).lemma_filter_push(word@, is_flag());
        }
        if word.len() > 0 && word[0] == '[' && word[word.len() - 1] == ']' {
            let ghost before = strings(r@);
            r.push(to_text(word));
            assert(strings(r@) =~= before.push(word@));
        }
        i = i + 1;
    }
    assert(shown.take(i as int) =~= shown);
    r
}

/// The item at `i`; zero, where there is none.
fn get_or_zero(v: &Vec<u64>, i: usize) -> (r: u64)
    ensures
        r == item_or_zero(v@, i as int),
{
    if i < v.len() {
        v[i]
    } else {
        0
    }
}

/// The flow of an entry.
pub fn parse_flow(words: &Vec<&[char]>) -> (r: Option<ConnectionFlowDetail>)
    requires
        words@.len() >= 3,
    ensures
        match r {
            Some(f) => flow(texts(words@)) == Some(f@),
            None => flow(texts(words@)) is None,
        },
{
    assert(texts(words@)[0] == words@[0]@);
    let is_tcp: bool = same_text(words[0], "tcp");
    if !is_tcp && !same_text(words[0], "udp") {
        return None;
    }
    let mut state: Option<String> = None;
    if is_tcp {
        state = match find_tcp_state(words) {
            Some(s) => Some(to_text(s.as_slice())),
            None => None,
        };
    }
    let srcs: Vec<IpAddress> = address_fields(words, "src=");
    let dsts: Vec<IpAddress> = address_fields(words, "dst=");
    let sports: Vec<u16> = number16_fields(words, "sport=");
    let dports: Vec<u16> = number16_fields(words, "dport=");
    if srcs.len() < 2 || dsts.len() < 2 || sports.len() < 2 || dports.len() < 2 {
        return None;
    }
    let packets: Vec<u64> = number64_fields(words, "packets=");
    let bytes: Vec<u64> = number64_fields(words, "bytes=");
    let found = ConnectionFlowDetail {
        protocol: to_text(words[0]),
        state,
        orig_src: srcs[0],
        orig_dst: dsts[0],
        orig_sport: sports[0],
        orig_dport: dports[0],
        repl_src: srcs[1],
        repl_dst: dsts[1],
        repl_sport: sports[1],
        repl_dport: dports[1],
        orig_packets: get_or_zero(&packets, 0),
        orig_bytes: get_or_zero(&bytes, 0),
        repl_packets: get_or_zero(&packets, 1),
        repl_bytes: get_or_zero(&bytes, 1),
        flags: find_flags(words),
    };
    Some(found)
}

/// Reads the flows of a dump: one for each TCP or UDP entry that names both
/// directions, in the order of the lines.
pub fn parse_connection_flows(content: &str) -> (r: Vec<ConnectionFlowDetail>)
    ensures
        flow_views(r@) == flows(content@),
{
    let chars: Vec<char> = to_chars(content);
    let lines: Vec<&[char]> = split_on(chars.as_slice(), '\n');
    let ghost shown = texts(lines@);
    let mut r: Vec<ConnectionFlowDetail> = Vec::new();
    let mut i: usize = 0;
    assert(flow_views(r@) =~= shown.take(0).filter_map(line_flow()));
    while i < lines.len()
        invariant
            i <= lines@.len(),
            shown == texts(lines@),
            flow_views(r@) == shown.take(i as int).filter_map(line_flow()),
        decreases lines@.len() - i,
    {
        let ghost before = flow_views(r@);
        proof {
            shown.lemma_filter_map_take_succ(line_flow(), i as int);
            assert(shown[i as int] == lines@[i as int]@);
        }
        match parse_entry(lines[i]) {
            Some(words) => {
                match parse_flow(&words) {
                    Some(f) => {
                        r.push(f);
                        assert(flow_views(r@) =~= before.push(f@));
                    },
                    None => {},
                }
            },
            None => {},
        }
        i = i + 1;
        assert(flow_views(r@) =~= shown.take(i as int).filter_map(line_flow()));
    }
    assert(shown.take(i as int) =~= shown);
    r
}

} // verus!
