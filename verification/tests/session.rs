use multissh::session::{
    auth_outcome, capture_call, decode_chunk, duration_millis, escalate, Captured, ChannelEvent,
    Stream, CONNECT_TIMEOUT_SECS, INACTIVITY_TIMEOUT_SECS,
};

fn data(text: &str) -> ChannelEvent {
    ChannelEvent::Data(text.as_bytes().to_vec())
}

fn extended(text: &str) -> ChannelEvent {
    ChannelEvent::ExtendedData(text.as_bytes().to_vec())
}

#[test]
fn timeouts_are_five_seconds() {
    assert_eq!(CONNECT_TIMEOUT_SECS, 5);
    assert_eq!(INACTIVITY_TIMEOUT_SECS, 5);
}

#[test]
fn escalate_leaves_a_plain_command_alone() {
    assert_eq!(escalate("ls -l", &None, &None), "ls -l");
    assert_eq!(escalate("ls -l", &None, &Some("secret".to_string())), "ls -l");
}

#[test]
fn escalate_hands_the_command_to_sudo() {
    assert_eq!(escalate("ls -l", &Some("root".to_string()), &None), "sudo -u root ls -l");
}

#[test]
fn escalate_pipes_the_password() {
    assert_eq!(
        escalate("ls -l", &Some("root".to_string()), &Some("secret".to_string())),
        "echo secret | sudo -u root -S  ls -l"
    );
}

#[test]
fn auth_outcome_tells_rejection() {
    assert_eq!(auth_outcome(true), Ok(()));
    assert_eq!(auth_outcome(false), Err("Authentication failed".to_string()));
}

#[test]
fn duration_millis_adds_up() {
    assert_eq!(duration_millis(0, 0), 0);
    assert_eq!(duration_millis(2, 345), 2345);
    assert_eq!(duration_millis(1, 1500), 2500);
    assert_eq!(duration_millis(18_446_744_073_709_551, 615), u64::MAX);
}

#[test]
fn decode_chunk_trims_the_text() {
    assert_eq!(decode_chunk(b"  hello world \n"), Ok("hello world"));
    assert_eq!(decode_chunk(b""), Ok(""));
    assert_eq!(decode_chunk("\u{a0}gr\u{fc}n\u{2003}".as_bytes()), Ok("gr\u{fc}n"));
}

#[test]
fn decode_chunk_refuses_what_is_not_utf8() {
    let bytes: [u8; 3] = [b'a', 0xff, b'b'];
    let expected = std::str::from_utf8(&bytes).unwrap_err().to_string();
    assert_eq!(decode_chunk(&bytes), Err(expected));
    assert!(decode_chunk(&[0xc3]).is_err());
    assert!(decode_chunk(&[0xed, 0xa0, 0x80]).is_err());
    assert!(decode_chunk(&[0xc0, 0x80]).is_err());
}

#[test]
fn capture_adds_chunks_to_their_streams_in_order() {
    let result = capture_call(
        &vec![
            data("one\n"),
            extended("warn \n"),
            data(" two"),
            ChannelEvent::Other,
            ChannelEvent::ExitStatus(0),
            extended("ing"),
        ],
        42,
    );
    assert_eq!(result, Ok(("onetwo".to_string(), "warning".to_string(), Some(0), 42)));
}

#[test]
fn capture_without_exit_status_is_an_error() {
    assert_eq!(capture_call(&vec![data("out")], 7), Err("No exit code".to_string()));
    assert_eq!(capture_call(&Vec::new(), 7), Err("No exit code".to_string()));
}

#[test]
fn capture_keeps_the_last_exit_status() {
    let result =
        capture_call(&vec![ChannelEvent::ExitStatus(1), ChannelEvent::ExitStatus(3)], 0);
    assert_eq!(result, Ok((String::new(), String::new(), Some(3), 0)));
}

#[test]
fn capture_ends_at_a_chunk_that_is_not_utf8() {
    let bad = vec![0x66, 0x80];
    let expected = std::str::from_utf8(&bad).unwrap_err().to_string();
    let result = capture_call(
        &vec![data("fine"), ChannelEvent::ExtendedData(bad), ChannelEvent::ExitStatus(0)],
        1,
    );
    assert_eq!(result, Err(expected));
}

#[test]
fn capture_step_by_step() {
    let capture = Captured::new();
    assert_eq!(capture, Captured { out: String::new(), err: String::new(), code: None });
    let capture = capture.feed(&data(" a ")).unwrap();
    let capture = capture.feed(&ChannelEvent::ExitStatus(2)).unwrap();
    let capture = capture.take_chunk(Stream::Error, Ok("e")).unwrap();
    let capture = capture.take_chunk(Stream::Output, Ok("b")).unwrap();
    assert_eq!(
        capture,
        Captured { out: "ab".to_string(), err: "e".to_string(), code: Some(2) }
    );
    assert_eq!(
        Captured::new().take_chunk(Stream::Output, Err("bad".to_string())),
        Err("bad".to_string())
    );
    assert_eq!(capture.finish(11), Ok(("ab".to_string(), "e".to_string(), Some(2), 11)));
}
