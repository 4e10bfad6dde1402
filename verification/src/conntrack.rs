//! The conntrack command: how it is run, and what its output gives.

use vstd::prelude::*;
use vstd::string::StringExecFns;
use vstd::utf8::{decode_utf8, valid_utf8};

verus! {

/// The address families that conntrack keeps a table for each of.
#[derive(Clone, Copy, Debug, PartialEq, Eq, Structural)]
pub enum Family {
    Ipv4,
    Ipv6,
}

/// Why a table could not be read.
#[derive(Debug)]
pub enum ConntrackError {
    /// The command did not run, for the reason given.
    NotRun(String),
    /// The command failed, and wrote this on its standard error.
    Failed { family: Family, stderr: String },
}

impl Family {
    /// The family's name on the command line.
    pub open spec fn text(self) -> Seq<char> {
        match self {
            Family::Ipv4 => "ipv4"@,
            Family::Ipv6 => "ipv6"@,
        }
    }

    /// The family's name on the command line.
    pub fn name(self) -> (r: &'static str)
        ensures
            r@ == self.text(),
    {
        match self {
            Family::Ipv4 => "ipv4",
            Family::Ipv6 => "ipv6",
        }
    }
}

impl ConntrackError {
    /// What the error says.
    pub open spec fn text(&self) -> Seq<char> {
        match self {
            ConntrackError::NotRun(reason) => reason@,
            ConntrackError::Failed { family, stderr } => "Failed to execute conntrack -L -f "@
                + family.text() + ": "@ + stderr@,
        }
    }

    /// What the error says.
    pub fn message(&self) -> (r: String)
        ensures
            r@ == self.text(),
    {
        match self {
            ConntrackError::NotRun(reason) => reason.clone(),
            ConntrackError::Failed { family, stderr } => {
                let mut r: String = "Failed to execute conntrack -L -f ".to_string();
                r.append(family.name());
                r.append(": ");
                r.append(stderr.as_str());
                r
            },
        }
    }
}

/// The arguments with which the command lists the table of a family.
pub fn conntrack_arguments(family: Family) -> (r: Vec<&'static str>)
    ensures
        r@.len() == 3,
        r@[0]@ == "-L"@,
        r@[1]@ == "-f"@,
        r@[2]@ == family.text(),
{
    vec!["-L", "-f", family.name()]
}

/// The text that bytes show, whatever they are.
pub uninterp spec fn lossy_text(bytes: Seq<u8>) -> Seq<char>;

/// Is `text` what the bytes encode, or, where they are not valid UTF-8, a text with
/// replacement characters?
pub open spec fn shows(text: Seq<char>, bytes: Seq<u8>) -> bool {
    if valid_utf8(bytes) {
        text == decode_utf8(bytes)
    } else {
        text.contains('\u{fffd}')
    }
}

/// `String::from_utf8_lossy`: the text depends on the bytes alone. It is the one that
/// they encode where they are valid UTF-8, and holds a replacement character where
/// they are not. How many of those stand for invalid bytes, and where, is left open.
#[verifier::external_body]
fn decode_lossy(bytes: &[u8]) -> (s: String)
    ensures
        s@ == lossy_text(bytes@),
        shows(s@, bytes@),
{
    String::from_utf8_lossy(bytes).into_owned()
}

/// What a finished run of the command gives: its standard output, or the error
/// that its standard error explains.
pub fn conntrack_output(family: Family, success: bool, stdout: &[u8], stderr: &[u8]) -> (r: Result<
    String,
    ConntrackError,
>)
    ensures
        match r {
            Ok(s) => success && s@ == lossy_text(stdout@) && shows(s@, stdout@),
            Err(e) => {
                &&& !success
                &&& e matches ConntrackError::Failed { family: f, stderr: t }
                &&& f == family
                &&& t@ == lossy_text(stderr@)
                &&& shows(t@, stderr@)
            },
        },
{
    if !success {
        return Err(ConntrackError::Failed { family, stderr: decode_lossy(stderr) });
    }
    Ok(decode_lossy(stdout))
}

/// How far a dump of both tables has come.
#[derive(Debug)]
pub enum DumpState {
    /// Neither table was read.
    Start,
    /// The IPv4 table was read.
    HaveIpv4(String),
    /// Nothing is left to read.
    Done(Result<String, ConntrackError>),
}

/// The dump of an IPv4 table and of an IPv6 table that may be missing.
pub open spec fn dump_text(ipv4: Seq<char>, ipv6: Option<Seq<char>>) -> Seq<char> {
    match ipv6 {
        Some(text) => ipv4 + text,
        None => ipv4,
    }
}

/// The text of a table that was read.
pub open spec fn table_text(reply: Result<String, ConntrackError>) -> Option<Seq<char>> {
    match reply {
        Ok(s) => Some(s@),
        Err(_) => None,
    }
}

impl DumpState {
    /// The table to read next.
    pub fn wanted(&self) -> (r: Option<Family>)
        ensures
            r == match self {
                DumpState::Start => Some(Family::Ipv4),
                DumpState::HaveIpv4(_) => Some(Family::Ipv6),
                DumpState::Done(_) => None,
            },
    {
        match self {
            DumpState::Start => Some(Family::Ipv4),
            DumpState::HaveIpv4(_) => Some(Family::Ipv6),
            DumpState::Done(_) => None,
        }
    }
}

/// Takes in the table that was wanted. Without the IPv4 table there is no dump. The
/// IPv6 table is added behind it, and may be missing: a kernel need not track IPv6.
pub fn dump_conntrack(state: DumpState, reply: Result<String, ConntrackError>) -> (r: DumpState)
    ensures
        match state {
            DumpState::Start => r == match reply {
                Ok(ipv4) => DumpState::HaveIpv4(ipv4),
                Err(e) => DumpState::Done(Err(e)),
            },
            DumpState::HaveIpv4(ipv4) => r matches DumpState::Done(Ok(content)) && content@
                == dump_text(ipv4@, table_text(reply)),
            DumpState::Done(_) => r == state,
        },
{
    match state {
        DumpState::Start => match reply {
            Ok(ipv4) => DumpState::HaveIpv4(ipv4),
            Err(e) => DumpState::Done(Err(e)),
        },
        DumpState::HaveIpv4(ipv4) => {
            let mut content: String = ipv4;
            match reply {
                Ok(ipv6) => {
                    content.append(ipv6.as_str());
                },
                Err(_) => {},
            }
            DumpState::Done(Ok(content))
        },
        DumpState::Done(outcome) => DumpState::Done(outcome),
    }
}

} // verus!
