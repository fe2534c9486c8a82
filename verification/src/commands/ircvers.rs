//! The `IRCVERS` command.

use vstd::prelude::*;

verus! {

/// The fixed reply to `IRCVERS`.
pub open spec fn version_reply() -> Seq<char> {
    "IRC Server Version: 1.0.0\n"@
}

/// The reply to send for `IRCVERS`.
pub fn execute() -> (reply: String)
    ensures
        reply@ == version_reply(),
{
    String::from_str("IRC Server Version: 1.0.0\n")
}

} // verus!
