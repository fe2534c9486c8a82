use ircd::transport::{IrcStream, ReadStep, StreamError, MAX_MESSAGE_SIZE};

fn message(step: ReadStep) -> Option<String> {
    match step {
        ReadStep::Message(m) => Some(m),
        _ => None,
    }
}

fn needs_bytes(step: &ReadStep) -> bool {
    matches!(step, ReadStep::NeedBytes)
}

#[test]
fn new_stream_needs_bytes() {
    let mut s = IrcStream::new();
    assert!(needs_bytes(&s.read()));
}

#[test]
fn reads_lines_terminated_by_lf() {
    let mut s = IrcStream::new();
    assert_eq!(s.receive(b"NICK bob\nUSER x\n"), Ok(()));
    assert_eq!(message(s.read()), Some("NICK bob".to_string()));
    assert_eq!(message(s.read()), Some("USER x".to_string()));
    assert!(needs_bytes(&s.read()));
}

#[test]
fn crlf_leaves_a_lone_lf_that_asks_for_more_bytes() {
    let mut s = IrcStream::new();
    assert_eq!(s.receive(b"PING a\r\nPING b\r\n"), Ok(()));
    assert_eq!(message(s.read()), Some("PING a".to_string()));
    // The LF after the CR is an empty line: it is dropped and more bytes are asked for,
    // even though another line is already buffered.
    assert!(needs_bytes(&s.read()));
    assert_eq!(message(s.read()), Some("PING b".to_string()));
}

#[test]
fn partial_line_waits_for_the_rest() {
    let mut s = IrcStream::new();
    assert_eq!(s.receive(b"PRIV"), Ok(()));
    assert!(needs_bytes(&s.read()));
    assert_eq!(s.receive(b"MSG #a :hi\r"), Ok(()));
    assert_eq!(message(s.read()), Some("PRIVMSG #a :hi".to_string()));
}

#[test]
fn no_bytes_means_closed_connection() {
    let mut s = IrcStream::new();
    assert_eq!(s.receive(b""), Err(StreamError::ConnectionClosed));
}

#[test]
fn too_large_buffer_is_refused_and_cleared() {
    let mut s = IrcStream::new();
    let chunk = vec![b'a'; MAX_MESSAGE_SIZE];
    assert_eq!(s.receive(&chunk), Ok(()));
    assert_eq!(s.receive(&chunk[..MAX_MESSAGE_SIZE - 1]), Ok(()));
    assert_eq!(s.receive(b"b"), Err(StreamError::MessageTooLarge));
    assert_eq!(s.receive(b"OK\n"), Ok(()));
    assert_eq!(message(s.read()), Some("OK".to_string()));
}

#[test]
fn closed_stream_reports_closed() {
    let mut s = IrcStream::new();
    assert_eq!(s.receive(b"A\n"), Ok(()));
    s.close();
    assert!(matches!(s.read(), ReadStep::Closed));
}

#[test]
fn invalid_utf8_is_replaced() {
    let mut s = IrcStream::new();
    assert_eq!(s.receive(&[0x66, 0xff, 0x6f, b'\n']), Ok(()));
    assert_eq!(message(s.read()), Some("f\u{FFFD}o".to_string()));
}

#[test]
fn write_appends_crlf() {
    let s = IrcStream::new();
    assert_eq!(s.write("PONG :x"), "PONG :x\r\n");
    assert_eq!(s.write(""), "\r\n");
}

#[test]
fn what_is_written_is_read_back() {
    let writer = IrcStream::new();
    let mut reader = IrcStream::new();
    let line = writer.write("PRIVMSG #ü :héllo wörld");
    assert_eq!(reader.receive(line.as_bytes()), Ok(()));
    assert_eq!(message(reader.read()), Some("PRIVMSG #ü :héllo wörld".to_string()));
    assert!(needs_bytes(&reader.read()));
}

#[test]
fn new_stream_is_empty_and_open() {
    let mut s = IrcStream::new();
    assert!(needs_bytes(&s.read()));
    s.close();
    assert!(matches!(s.read(), ReadStep::Closed));
}

#[test]
fn invalid_line_gives_non_empty_message() {
    let mut s = IrcStream::new();
    assert_eq!(s.receive(&[0xc3, b'\r']), Ok(()));
    assert_eq!(message(s.read()), Some("\u{FFFD}".to_string()));
}
