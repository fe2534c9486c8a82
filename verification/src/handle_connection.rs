//! The echoing connection handler: every valid UTF-8 chunk is sent back to the client,
//! then its command word, compared case-insensitively, may select `MODE` or `QUIT`.

use vstd::prelude::*;
use vstd::utf8::{valid_utf8, decode_utf8};
use crate::text::{split_whitespace, to_lowercase, string_from_utf8, words, lowercase};
use crate::server::{Command, classify, command_of};

pub mod commands;

verus! {

broadcast use vstd::string::group_string_axioms;

/// What follows the echo.
#[derive(Debug)]
pub enum Followup {
    /// Nothing: go on reading.
    Nothing,
    /// Send the `MODE` reply and go on reading.
    Mode(String),
    /// Close the connection.
    Quit,
}

/// What the handler does with one socket read.
#[derive(Debug)]
pub enum EchoStep {
    /// The client closed the connection.
    Close,
    /// The bytes are not valid UTF-8: they are passed over.
    InvalidUtf8,
    /// Echo the text back; if that fails, close; otherwise carry out the follow-up.
    Echo(String, Followup),
}

/// The model of a [`Followup`].
pub enum FollowupView {
    Nothing,
    Mode(Seq<char>),
    Quit,
}

/// The model of an [`EchoStep`].
pub enum EchoStepView {
    Close,
    InvalidUtf8,
    Echo(Seq<char>, FollowupView),
}

impl View for Followup {
    type V = FollowupView;

    open spec fn view(&self) -> FollowupView {
        match self {
            Followup::Nothing => FollowupView::Nothing,
            Followup::Mode(r) => FollowupView::Mode(r@),
            Followup::Quit => FollowupView::Quit,
        }
    }
}

impl View for EchoStep {
    type V = EchoStepView;

    open spec fn view(&self) -> EchoStepView {
        match self {
            EchoStep::Close => EchoStepView::Close,
            EchoStep::InvalidUtf8 => EchoStepView::InvalidUtf8,
            EchoStep::Echo(t, f) => EchoStepView::Echo(t@, f@),
        }
    }
}

/// The follow-up for command `cmd`: this handler knows only `MODE` and `QUIT`.
pub open spec fn followup_of(cmd: Command) -> FollowupView {
    match cmd {
        Command::Mode => FollowupView::Mode(commands::mode::mode_reply()),
        Command::Quit => FollowupView::Quit,
        _ => FollowupView::Nothing,
    }
}

/// The follow-up for command `cmd`.
pub fn followup(cmd: Command) -> (res: Followup)
    ensures
        res@ == followup_of(cmd),
{
    match cmd {
        Command::Mode => Followup::Mode(commands::mode::execute()),
        Command::Quit => Followup::Quit,
        _ => Followup::Nothing,
    }
}

/// The follow-up for a text: that of its first word, lowercased; none without words.
pub open spec fn text_followup(text: Seq<char>) -> FollowupView {
    if words(text).len() == 0 {
        FollowupView::Nothing
    } else {
        followup_of(command_of(lowercase(words(text)[0])))
    }
}

/// Handles the bytes of one socket read.
pub fn handle_read(data: &[u8]) -> (res: EchoStep)
    ensures
        data@.len() == 0 ==> res@ == EchoStepView::Close,
        data@.len() > 0 && !valid_utf8(data@) ==> res@ == EchoStepView::InvalidUtf8,
        data@.len() > 0 && valid_utf8(data@) ==> res@ == EchoStepView::Echo(
            decode_utf8(data@),
            text_followup(decode_utf8(data@)),
        ),
{
    if data.len() == 0 {
        return EchoStep::Close;
    }
    let bytes = vstd::slice::slice_to_vec(data);
    match string_from_utf8(bytes) {
        None => EchoStep::InvalidUtf8,
        Some(text) => {
            let parts = split_whitespace(text.as_str());
            let f = if parts.len() == 0 {
                Followup::Nothing
            } else {
                let lowered = to_lowercase(parts[0].as_str());
                followup(classify(lowered.as_str()))
            };
            EchoStep::Echo(text, f)
        },
    }
}


/// The echoing handler acts only on `MODE` and `QUIT`: it quits exactly for `QUIT`,
/// sends the mode reply exactly for `MODE`, and for every other command (unknown ones
/// included) only echoes and goes on reading.
pub proof fn lemma_followups(cmd: Command)
    ensures
        followup_of(cmd) == FollowupView::Quit <==> cmd == Command::Quit,
        followup_of(cmd) is Mode <==> cmd == Command::Mode,
        followup_of(cmd) == FollowupView::Nothing <==> (cmd != Command::Mode && cmd != Command::Quit),
        followup_of(Command::Unknown) == FollowupView::Nothing,
{
}

} // verus!
