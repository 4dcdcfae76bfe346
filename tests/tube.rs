use pwn::buffer::Buffer;
use pwn::find_subsequence;
use pwn::tube::{
    absorb_read, bridge_step, clean_start, drain_after, listen_endpoint, with_newline, take_through,
    BridgeAction, BridgeEvent, Fill, CHUNK_SIZE,
};

fn buffer_of(bytes: &[u8]) -> Buffer {
    let mut b = Buffer::new();
    b.add(bytes.to_vec());
    b
}

#[test]
fn find_subsequence_finds_leftmost() {
    assert_eq!(find_subsequence(b"abcabc", b"bc"), Some(1));
    assert_eq!(find_subsequence(b"abcabc", b"abc"), Some(0));
    assert_eq!(find_subsequence(b"abcabc", b"cab"), Some(2));
    assert_eq!(find_subsequence(b"abcabc", b"abd"), None);
    assert_eq!(find_subsequence(b"ab", b"abc"), None);
    assert_eq!(find_subsequence(b"", b"a"), None);
    assert_eq!(find_subsequence(b"xyz", b""), Some(0));
    assert_eq!(find_subsequence(b"aaab", b"ab"), Some(2));
}

#[test]
fn take_through_cuts_after_the_whole_delimiter() {
    let mut b = buffer_of(b"login: rest");
    assert_eq!(take_through(&mut b, b": "), Some(b"login: ".to_vec()));
    assert_eq!(b.get(0), b"rest".to_vec());
}

#[test]
fn take_through_without_delimiter_keeps_buffer() {
    let mut b = buffer_of(b"no newline yet");
    assert_eq!(take_through(&mut b, b"\n"), None);
    assert_eq!(b.len(), 14);
}

#[test]
fn take_through_delimiter_at_end_takes_everything() {
    let mut b = buffer_of(b"line\n");
    assert_eq!(take_through(&mut b, b"\n"), Some(b"line\n".to_vec()));
    assert!(b.is_empty());
}

#[test]
fn take_through_first_of_several_lines() {
    let mut b = buffer_of(b"one\ntwo\n");
    assert_eq!(take_through(&mut b, b"\n"), Some(b"one\n".to_vec()));
    assert_eq!(take_through(&mut b, b"\n"), Some(b"two\n".to_vec()));
    assert_eq!(take_through(&mut b, b"\n"), None);
}

#[test]
fn take_through_empty_delimiter_takes_nothing() {
    let mut b = buffer_of(b"abc");
    assert_eq!(take_through(&mut b, b""), Some(Vec::new()));
    assert_eq!(b.len(), 3);
}

#[test]
fn absorb_short_read_ends_fill() {
    let mut b = buffer_of(b"ab");
    let r = absorb_read(&mut b, 5, Some(b"cd".to_vec()));
    assert!(r == Fill::Done(7));
    assert_eq!(b.get(0), b"abcd".to_vec());
}

#[test]
fn absorb_full_chunk_asks_for_more() {
    let mut b = Buffer::new();
    let r = absorb_read(&mut b, 0, Some(vec![7u8; CHUNK_SIZE]));
    assert!(r == Fill::More(CHUNK_SIZE));
    assert_eq!(b.len(), CHUNK_SIZE);
    let r = absorb_read(&mut b, CHUNK_SIZE, Some(vec![8u8; 3]));
    assert!(r == Fill::Done(CHUNK_SIZE + 3));
    assert_eq!(b.len(), CHUNK_SIZE + 3);
}

#[test]
fn absorb_timeout_is_not_an_error() {
    let mut b = buffer_of(b"kept");
    let r = absorb_read(&mut b, 0, None);
    assert!(r == Fill::Done(0));
    assert_eq!(b.get(0), b"kept".to_vec());
}

#[test]
fn clean_with_zero_timeout_drains_without_reading() {
    let mut b = buffer_of(b"abc");
    assert_eq!(clean_start(&mut b, true), Some(b"abc".to_vec()));
    assert!(b.is_empty());
}

#[test]
fn clean_with_timeout_fills_first() {
    let mut b = buffer_of(b"abc");
    assert_eq!(clean_start(&mut b, false), None);
    assert_eq!(b.len(), 3);
}

#[test]
fn drain_continues_while_fills_bring_bytes() {
    let mut b = buffer_of(b"ab");
    assert_eq!(drain_after(&mut b, Some(2)), None);
    assert_eq!(b.len(), 2);
    assert_eq!(drain_after(&mut b, Some(0)), Some(b"ab".to_vec()));
    assert!(b.is_empty());
}

#[test]
fn drain_keeps_what_came_before_a_failed_fill() {
    let mut b = buffer_of(b"partial");
    assert_eq!(drain_after(&mut b, None), Some(b"partial".to_vec()));
    assert!(b.is_empty());
}

#[test]
fn line_appends_one_newline() {
    assert_eq!(with_newline(b"test".to_vec()), b"test\n".to_vec());
    assert_eq!(with_newline(Vec::new()), b"\n".to_vec());
}

#[test]
fn line_survives_any_split_of_reads() {
    let sent = with_newline(b"test".to_vec());
    for cut in 0..=sent.len() {
        let mut b = Buffer::new();
        let r1 = absorb_read(&mut b, 0, Some(sent[..cut].to_vec()));
        let total = match r1 {
            Fill::Done(t) => t,
            Fill::More(t) => t,
        };
        absorb_read(&mut b, total, Some(sent[cut..].to_vec()));
        assert_eq!(take_through(&mut b, b"\n"), Some(b"test\n".to_vec()));
        assert!(b.is_empty());
    }
}

#[test]
fn echo_round_trip_received_whole() {
    let mut b = Buffer::new();
    let sent = with_newline(b"test".to_vec());
    let r = absorb_read(&mut b, 0, Some(sent));
    assert!(r == Fill::Done(5));
    assert_eq!(b.get(0), b"test\n".to_vec());
}

#[test]
fn bridge_sends_lines_and_stops_on_end() {
    match bridge_step(BridgeEvent::Line(b"ls".to_vec())) {
        BridgeAction::Send(bytes) => assert_eq!(bytes, b"ls\n".to_vec()),
        _ => panic!("a line is sent"),
    }
    assert!(matches!(bridge_step(BridgeEvent::Sent), BridgeAction::Prompt));
    assert!(matches!(bridge_step(BridgeEvent::InputEnded), BridgeAction::Shutdown));
    assert!(matches!(bridge_step(BridgeEvent::SendFailed), BridgeAction::Shutdown));
}

#[test]
fn listen_endpoint_defaults() {
    assert_eq!(listen_endpoint(None, None), ("0.0.0.0".to_string(), 0));
    assert_eq!(
        listen_endpoint(Some("127.0.0.1".to_string()), Some(4444)),
        ("127.0.0.1".to_string(), 4444)
    );
}
