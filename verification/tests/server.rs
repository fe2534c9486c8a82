use ircd::commands::{ircvers, mode, nick};
use ircd::server::{classify, command_of_message, dispatch, handle_message, handle_read, Action, Command};

fn reply(a: &Action) -> Option<&str> {
    match a {
        Action::Reply(r) => Some(r.as_str()),
        _ => None,
    }
}

#[test]
fn classifies_lowercased_words() {
    assert_eq!(classify("mode"), Command::Mode);
    assert_eq!(classify("quit"), Command::Quit);
    assert_eq!(classify("nick"), Command::Nick);
    assert_eq!(classify("ircvers"), Command::IrcVers);
    assert_eq!(classify("MODE"), Command::Unknown);
    assert_eq!(classify("privmsg"), Command::Unknown);
    assert_eq!(classify(""), Command::Unknown);
}

#[test]
fn mode_replies_with_the_fixed_line() {
    let mut nick: Option<String> = None;
    let a = handle_message(&mut nick, "MoDe #chan +o\r\n");
    assert_eq!(reply(&a), Some(":DefaultServerName 800 * 0 0 GateKeeper,Ntlm,ANON 1024 *\n"));
    assert_eq!(nick, None);
}

#[test]
fn ircvers_replies_with_the_version() {
    let mut nick: Option<String> = None;
    let a = handle_message(&mut nick, "  IRCVERS");
    assert_eq!(reply(&a), Some("IRC Server Version: 1.0.0\n"));
}

#[test]
fn quit_closes() {
    let mut nick: Option<String> = Some("a".to_string());
    assert!(matches!(handle_message(&mut nick, "QUIT :bye"), Action::Quit));
    assert_eq!(nick, Some("a".to_string()));
}

#[test]
fn nick_sets_the_nickname_and_closes() {
    let mut nick: Option<String> = None;
    match handle_message(&mut nick, "NICK bob extra") {
        Action::ReplyAndClose(r) => assert_eq!(r, "Nickname set to: bob\n"),
        _ => panic!("expected a reply and a close"),
    }
    assert_eq!(nick, Some("bob".to_string()));
}

#[test]
fn nick_without_name_replies_with_usage() {
    let mut nick: Option<String> = Some("old".to_string());
    match handle_message(&mut nick, "nick\n") {
        Action::ReplyAndClose(r) => {
            assert_eq!(r, "Error: No nickname provided. Usage: nick <nickname>\n")
        }
        _ => panic!("expected a reply and a close"),
    }
    assert_eq!(nick, Some("old".to_string()));
}

#[test]
fn kelvin_sign_lowercases_to_k() {
    // U+212A KELVIN SIGN lowercases to 'k', so this is the NICK command.
    let mut nick: Option<String> = None;
    assert!(matches!(handle_message(&mut nick, "NIC\u{212A} zed"), Action::ReplyAndClose(_)));
    assert_eq!(nick, Some("zed".to_string()));
}

#[test]
fn unknown_and_empty_messages_continue() {
    let mut nick: Option<String> = None;
    assert!(matches!(handle_message(&mut nick, "PRIVMSG #a :hi"), Action::Continue));
    assert!(matches!(handle_message(&mut nick, " \t\r\n"), Action::Continue));
    assert!(matches!(handle_message(&mut nick, ""), Action::Continue));
}

#[test]
fn unicode_whitespace_separates_words() {
    let mut nick: Option<String> = None;
    assert!(matches!(handle_message(&mut nick, "nick\u{3000}amy"), Action::ReplyAndClose(_)));
    assert_eq!(nick, Some("amy".to_string()));
}

#[test]
fn empty_read_closes() {
    let mut nick: Option<String> = None;
    assert!(matches!(handle_read(&mut nick, b""), Action::Close));
}

#[test]
fn reads_are_decoded_with_replacement() {
    let mut nick: Option<String> = None;
    assert!(matches!(handle_read(&mut nick, b"QUIT\xff"), Action::Continue));
    assert!(matches!(handle_read(&mut nick, b"\xffx QUIT"), Action::Continue));
    assert!(matches!(handle_read(&mut nick, b"quit\xff now"), Action::Continue));
    assert!(matches!(handle_read(&mut nick, b"quit \xff"), Action::Quit));
}

#[test]
fn dispatch_follows_the_command() {
    let mut nick: Option<String> = None;
    let parts = vec!["nick".to_string(), "kay".to_string()];
    assert!(matches!(dispatch(&mut nick, Command::Unknown, &parts), Action::Continue));
    assert_eq!(nick, None);
    assert!(matches!(dispatch(&mut nick, Command::Nick, &parts), Action::ReplyAndClose(_)));
    assert_eq!(nick, Some("kay".to_string()));
}

#[test]
fn command_replies() {
    assert_eq!(mode::execute(), ":DefaultServerName 800 * 0 0 GateKeeper,Ntlm,ANON 1024 *\n");
    assert_eq!(ircvers::execute(), "IRC Server Version: 1.0.0\n");
    let mut n: Option<String> = None;
    assert_eq!(nick::execute(&mut n, &vec!["NICK".to_string()]), "Error: No nickname provided. Usage: nick <nickname>\n");
    assert_eq!(n, None);
    assert_eq!(nick::execute(&mut n, &vec!["NICK".to_string(), "x".to_string()]), "Nickname set to: x\n");
    assert_eq!(n, Some("x".to_string()));
}

#[test]
fn command_of_message_names_the_first_word() {
    assert_eq!(command_of_message("  Nick bob"), Some(Command::Nick));
    assert_eq!(command_of_message("JOIN #a"), Some(Command::Unknown));
    assert_eq!(command_of_message(" \t "), None);
}
