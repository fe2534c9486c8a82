//! The `NICK` command.

use vstd::prelude::*;

verus! {

/// The acknowledgement sent when the nickname is set to `nick`.
pub open spec fn nick_ack(nick: Seq<char>) -> Seq<char> {
    "Nickname set to: "@ + nick + "\n"@
}

/// The reply sent when no nickname is given.
pub open spec fn nick_usage() -> Seq<char> {
    "Error: No nickname provided. Usage: nick <nickname>\n"@
}

/// The nickname after `NICK` with the words `parts` (`parts[0]` is the command word):
/// the second word when there is one, else the nickname is kept.
pub open spec fn nick_after(old: Option<Seq<char>>, parts: Seq<Seq<char>>) -> Option<Seq<char>> {
    if parts.len() >= 2 {
        Some(parts[1])
    } else {
        old
    }
}

/// The reply to `NICK` with the words `parts`.
pub open spec fn nick_reply(parts: Seq<Seq<char>>) -> Seq<char> {
    if parts.len() >= 2 {
        nick_ack(parts[1])
    } else {
        nick_usage()
    }
}

/// Handles `NICK`: sets the nickname to the second word and acknowledges it, or,
/// without a second word, keeps the nickname and replies with the usage.
pub fn execute(nickname: &mut Option<String>, parts: &Vec<String>) -> (reply: String)
    ensures
        final(nickname).deep_view() == nick_after(old(nickname).deep_view(), parts.deep_view()),
        reply@ == nick_reply(parts.deep_view()),
{
    if parts.len() >= 2 {
        let nick = parts[1].clone();
        let mut reply = String::from_str("Nickname set to: ");
        reply.append(nick.as_str());
        reply.append("\n");
        *nickname = Some(nick);
        reply
    } else {
        String::from_str("Error: No nickname provided. Usage: nick <nickname>\n")
    }
}


/// `NICK` with a name sets the nickname to that name whatever it was before (two earlier
/// nicknames give the same result) and acknowledges exactly that name; without a name
/// the nickname is kept.
pub proof fn lemma_nick_sets_nickname(old: Option<Seq<char>>, other: Option<Seq<char>>, parts: Seq<Seq<char>>)
    ensures
        parts.len() >= 2 ==> nick_after(old, parts) == Some(parts[1]),
        parts.len() >= 2 ==> nick_after(old, parts) == nick_after(other, parts),
        parts.len() >= 2 ==> nick_reply(parts) == "Nickname set to: "@ + parts[1] + "\n"@,
        parts.len() < 2 ==> nick_after(old, parts) == old,
        parts.len() < 2 ==> nick_reply(parts) == "Error: No nickname provided. Usage: nick <nickname>\n"@,
{
}

} // verus!
