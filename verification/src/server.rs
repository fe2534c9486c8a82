//! What the server does with each chunk a client sends: the command word, compared
//! case-insensitively, selects `MODE`, `QUIT`, `NICK` or `IRCVERS`.
//!
//! The connection loop itself (socket reads and writes, the shared user list) is driven
//! by the caller, which performs the [`Action`] returned for each chunk.

use vstd::prelude::*;
use crate::text::{chars_of, same_chars, split_whitespace, to_lowercase, from_utf8_lossy, words,
    lowercase, utf8_lossy};
use crate::commands::{ircvers, mode, nick};
use crate::commands::mode::mode_reply;
use crate::commands::ircvers::version_reply;
use crate::commands::nick::{nick_after, nick_reply};

verus! {

broadcast use vstd::string::group_string_axioms;

/// The commands the server knows.
#[derive(PartialEq, Eq, Structural, Clone, Copy, Debug)]
pub enum Command {
    Mode,
    Quit,
    Nick,
    IrcVers,
    Unknown,
}

/// The command named by a lowercased command word.
pub open spec fn command_of(word: Seq<char>) -> Command {
    if word == "mode"@ {
        Command::Mode
    } else if word == "quit"@ {
        Command::Quit
    } else if word == "nick"@ {
        Command::Nick
    } else if word == "ircvers"@ {
        Command::IrcVers
    } else {
        Command::Unknown
    }
}

fn is_word(w: &Vec<char>, lit: &str) -> (res: bool)
    ensures
        res == (w@ == lit@),
{
    let l = chars_of(lit);
    same_chars(w, &l)
}

/// The command named by a lowercased command word.
pub fn classify(lowered: &str) -> (c: Command)
    ensures
        c == command_of(lowered@),
{
    let w = chars_of(lowered);
    if is_word(&w, "mode") {
        Command::Mode
    } else if is_word(&w, "quit") {
        Command::Quit
    } else if is_word(&w, "nick") {
        Command::Nick
    } else if is_word(&w, "ircvers") {
        Command::IrcVers
    } else {
        Command::Unknown
    }
}

/// What the connection loop does next.
#[derive(Debug)]
pub enum Action {
    /// Send the reply and go on reading.
    Reply(String),
    /// Send the reply, then close the connection.
    ReplyAndClose(String),
    /// The client asked to quit: close the connection.
    Quit,
    /// The client closed the connection: close it on this side too.
    Close,
    /// Go on reading.
    Continue,
}

/// The model of an [`Action`].
pub enum ActionView {
    Reply(Seq<char>),
    ReplyAndClose(Seq<char>),
    Quit,
    Close,
    Continue,
}

impl View for Action {
    type V = ActionView;

    open spec fn view(&self) -> ActionView {
        match self {
            Action::Reply(r) => ActionView::Reply(r@),
            Action::ReplyAndClose(r) => ActionView::ReplyAndClose(r@),
            Action::Quit => ActionView::Quit,
            Action::Close => ActionView::Close,
            Action::Continue => ActionView::Continue,
        }
    }
}

/// The action for command `cmd` given the words `parts` of the message.
pub open spec fn action_of(cmd: Command, parts: Seq<Seq<char>>) -> ActionView {
    match cmd {
        Command::Mode => ActionView::Reply(mode_reply()),
        Command::Quit => ActionView::Quit,
        Command::Nick => ActionView::ReplyAndClose(nick_reply(parts)),
        Command::IrcVers => ActionView::Reply(version_reply()),
        Command::Unknown => ActionView::Continue,
    }
}

/// The nickname after command `cmd` with the words `parts`.
pub open spec fn nickname_after(cmd: Command, old: Option<Seq<char>>, parts: Seq<Seq<char>>) -> Option<Seq<char>> {
    if cmd == Command::Nick {
        nick_after(old, parts)
    } else {
        old
    }
}

/// Carries out command `cmd` for a message with the words `parts`.
pub fn dispatch(nickname: &mut Option<String>, cmd: Command, parts: &Vec<String>) -> (res: Action)
    ensures
        res@ == action_of(cmd, parts.deep_view()),
        final(nickname).deep_view() == nickname_after(cmd, old(nickname).deep_view(), parts.deep_view()),
{
    match cmd {
        Command::Mode => Action::Reply(mode::execute()),
        Command::Quit => Action::Quit,
        Command::Nick => Action::ReplyAndClose(nick::execute(nickname, parts)),
        Command::IrcVers => Action::Reply(ircvers::execute()),
        Command::Unknown => Action::Continue,
    }
}

/// The command a message text asks for: `None` when it holds no word, else the command
/// named by its first word, lowercased.
pub open spec fn message_command(text: Seq<char>) -> Option<Command> {
    if words(text).len() == 0 {
        None
    } else {
        Some(command_of(lowercase(words(text)[0])))
    }
}

/// The command a message text asks for (see [`message_command`]).
pub fn command_of_message(text: &str) -> (res: Option<Command>)
    ensures
        res == message_command(text@),
{
    let parts = split_whitespace(text);
    if parts.len() == 0 {
        return None;
    }
    let lowered = to_lowercase(parts[0].as_str());
    Some(classify(lowered.as_str()))
}

/// Handles one message text: splits it into words and carries out the command named by
/// the first word, lowercased; a text without words is passed over.
pub fn handle_message(nickname: &mut Option<String>, text: &str) -> (res: Action)
    ensures
        match message_command(text@) {
            None => res@ == ActionView::Continue && final(nickname).deep_view() == old(
                nickname,
            ).deep_view(),
            Some(cmd) => res@ == action_of(cmd, words(text@)) && final(nickname).deep_view()
                == nickname_after(cmd, old(nickname).deep_view(), words(text@)),
        },
{
    let parts = split_whitespace(text);
    if parts.len() == 0 {
        return Action::Continue;
    }
    let lowered = to_lowercase(parts[0].as_str());
    let cmd = classify(lowered.as_str());
    dispatch(nickname, cmd, &parts)
}

/// Handles the bytes of one socket read: no bytes means the client closed the connection;
/// otherwise the bytes are decoded (invalid UTF-8 replaced) and handled as a message.
pub fn handle_read(nickname: &mut Option<String>, data: &[u8]) -> (res: Action)
    ensures
        data@.len() == 0 ==> res@ == ActionView::Close && *final(nickname) == *old(nickname),
        data@.len() > 0 ==> match message_command(utf8_lossy(data@)) {
            None => res@ == ActionView::Continue && final(nickname).deep_view() == old(
                nickname,
            ).deep_view(),
            Some(cmd) => res@ == action_of(cmd, words(utf8_lossy(data@)))
                && final(nickname).deep_view() == nickname_after(
                cmd,
                old(nickname).deep_view(),
                words(utf8_lossy(data@)),
            ),
        },
{
    if data.len() == 0 {
        return Action::Close;
    }
    let text = from_utf8_lossy(data);
    handle_message(nickname, text.as_str())
}


/// Only the four command words name a command, each its own: `mode`, `quit`, `nick` and
/// `ircvers` give `Mode`, `Quit`, `Nick` and `IrcVers`, and every other word is `Unknown`.
pub proof fn lemma_only_four_commands(word: Seq<char>)
    ensures
        command_of(word) == Command::Mode <==> word == "mode"@,
        command_of(word) == Command::Quit <==> word == "quit"@,
        command_of(word) == Command::Nick <==> word == "nick"@,
        command_of(word) == Command::IrcVers <==> word == "ircvers"@,
        command_of(word) == Command::Unknown <==> (word != "mode"@ && word != "quit"@ && word
            != "nick"@ && word != "ircvers"@),
{
    reveal_strlit("mode");
    reveal_strlit("quit");
    reveal_strlit("nick");
    reveal_strlit("ircvers");
    assert("mode"@[0] == 'm' && "quit"@[0] == 'q' && "nick"@[0] == 'n' && "ircvers"@[0] == 'i');
    assert("mode"@ != "quit"@ && "mode"@ != "nick"@ && "mode"@ != "ircvers"@);
    assert("quit"@ != "nick"@ && "quit"@ != "ircvers"@ && "nick"@ != "ircvers"@);
}

/// What each command does to the connection and to the nickname: only `QUIT` quits, only
/// `NICK` replies and then closes, only an unknown command just goes on reading, `MODE`
/// and `IRCVERS` reply and go on; and only `NICK` can change the nickname.
pub proof fn lemma_command_effects(cmd: Command, old: Option<Seq<char>>, parts: Seq<Seq<char>>)
    ensures
        action_of(cmd, parts) == ActionView::Quit <==> cmd == Command::Quit,
        action_of(cmd, parts) is ReplyAndClose <==> cmd == Command::Nick,
        action_of(cmd, parts) == ActionView::Continue <==> cmd == Command::Unknown,
        action_of(cmd, parts) is Reply <==> (cmd == Command::Mode || cmd == Command::IrcVers),
        action_of(cmd, parts) != ActionView::Close,
        cmd != Command::Nick ==> nickname_after(cmd, old, parts) == old,
{
}

} // verus!
