//! The `MODE` command.

use vstd::prelude::*;

verus! {

/// The fixed reply to `MODE`.
pub open spec fn mode_reply() -> Seq<char> {
    ":DefaultServerName 800 * 0 0 GateKeeper,Ntlm,ANON 1024 *\n"@
}

/// The reply to send for `MODE`.
pub fn execute() -> (reply: String)
    ensures
        reply@ == mode_reply(),
{
    String::from_str(":DefaultServerName 800 * 0 0 GateKeeper,Ntlm,ANON 1024 *\n")
}

} // verus!
