use ircd::handle_connection::{commands, followup, handle_read, EchoStep, Followup};
use ircd::server::Command;

#[test]
fn empty_read_closes_the_echo_handler() {
    assert!(matches!(handle_read(b""), EchoStep::Close));
}

#[test]
fn invalid_utf8_is_passed_over() {
    assert!(matches!(handle_read(b"mode\xff"), EchoStep::InvalidUtf8));
}

#[test]
fn text_is_echoed_then_mode_answered() {
    match handle_read(b"Mode x\n") {
        EchoStep::Echo(t, Followup::Mode(r)) => {
            assert_eq!(t, "Mode x\n");
            assert_eq!(r, ":DefaultServerName 800 * 0 0 GateKeeper,Ntlm,ANON 1024 *\n");
        }
        _ => panic!("expected an echo followed by the mode reply"),
    }
}

#[test]
fn quit_after_echo() {
    assert!(matches!(handle_read("QUIT ünïcode".as_bytes()), EchoStep::Echo(_, Followup::Quit)));
}

#[test]
fn other_commands_are_only_echoed() {
    assert!(matches!(handle_read(b"nick bob"), EchoStep::Echo(_, Followup::Nothing)));
    assert!(matches!(handle_read(b"   "), EchoStep::Echo(_, Followup::Nothing)));
}

#[test]
fn followups() {
    assert!(matches!(followup(Command::Mode), Followup::Mode(_)));
    assert!(matches!(followup(Command::Quit), Followup::Quit));
    assert!(matches!(followup(Command::IrcVers), Followup::Nothing));
    assert_eq!(commands::mode::execute(), ":DefaultServerName 800 * 0 0 GateKeeper,Ntlm,ANON 1024 *\n");
}
