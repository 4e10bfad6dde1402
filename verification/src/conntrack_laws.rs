//! What a dump holds, and what its errors say.

use crate::conntrack::{dump_text, table_text, ConntrackError, Family};
use vstd::prelude::*;

verus! {

/// A dump is the IPv4 table and behind it the IPv6 table, where that could be read.
pub proof fn law_dumps_are_the_tables(ipv4: Seq<char>, ipv6: String, e: ConntrackError)
    ensures
        dump_text(ipv4, table_text(Ok(ipv6))) == ipv4 + ipv6@,
        dump_text(ipv4, table_text(Err(e))) == ipv4,
{
}

/// The families are named as on the command line, and a failed run is told with the
/// family and what the command wrote on its standard error.
pub proof fn law_errors_tell_the_family(reason: String, stderr: String)
    ensures
        Family::Ipv4.text() == "ipv4"@,
        Family::Ipv6.text() == "ipv6"@,
        ConntrackError::NotRun(reason).text() == reason@,
        (ConntrackError::Failed { family: Family::Ipv4, stderr }).text()
            == "Failed to execute conntrack -L -f ipv4: "@ + stderr@,
        (ConntrackError::Failed { family: Family::Ipv6, stderr }).text()
            == "Failed to execute conntrack -L -f ipv6: "@ + stderr@,
{
    reveal_strlit("ipv4");
    reveal_strlit("ipv6");
    reveal_strlit(": ");
    reveal_strlit("Failed to execute conntrack -L -f ");
    reveal_strlit("Failed to execute conntrack -L -f ipv4: ");
    reveal_strlit("Failed to execute conntrack -L -f ipv6: ");
    assert("Failed to execute conntrack -L -f "@ + "ipv4"@ + ": "@
        =~= "Failed to execute conntrack -L -f ipv4: "@);
    assert("Failed to execute conntrack -L -f "@ + "ipv6"@ + ": "@
        =~= "Failed to execute conntrack -L -f ipv6: "@);
}

} // verus!
