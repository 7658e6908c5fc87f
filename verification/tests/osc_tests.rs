//! The strict OSC exchange: framing, the fence, the failure taxonomy.

use xterm_query::{query_osc, query_osc_buffer, InputEvent, OscEngine, Step, XQError};

fn xterm() -> Option<Vec<u8>> {
    Some(b"xterm-256color".to_vec())
}

fn one_read(bytes: &[u8]) -> Vec<InputEvent> {
    vec![InputEvent::Bytes(bytes.to_vec())]
}

fn byte_by_byte(bytes: &[u8]) -> Vec<InputEvent> {
    bytes.iter().map(|b| InputEvent::Bytes(vec![*b])).collect()
}

#[test]
fn background_color_reply_is_sliced_between_esc_and_terminator() {
    let mut buffer = vec![0u8; 100];
    let input = b"\x1b11;rgb:0000/0000/0000\x07\x1bZ... \x1b[0n";
    let r = query_osc_buffer(&xterm(), &mut buffer, one_read(input));
    assert_eq!(r, Ok(b"11;rgb:0000/0000/0000".to_vec()));
    let s = query_osc(&xterm(), one_read(input));
    assert_eq!(s, Ok("11;rgb:0000/0000/0000".to_string()));
}

#[test]
fn fence_answered_alone_is_not_an_osc_response() {
    let mut buffer = vec![0u8; 100];
    let r = query_osc_buffer(&xterm(), &mut buffer, one_read(b"\x1b[0n"));
    assert_eq!(r, Err(XQError::NotAnOSCResponse));
}

#[test]
fn fence_right_after_frame_start_is_not_an_osc_response() {
    let mut buffer = vec![0u8; 100];
    let events = vec![
        InputEvent::Bytes(b"\x1b".to_vec()),
        InputEvent::Bytes(b"n".to_vec()),
    ];
    let r = query_osc_buffer(&xterm(), &mut buffer, events);
    assert_eq!(r, Err(XQError::NotAnOSCResponse));
}

#[test]
fn fragmented_reply_equals_single_read() {
    let input = b"\x1b]11;rgb:1111/2222/3333\x1b junk \x1b[0n";
    let mut b1 = vec![0u8; 100];
    let mut b2 = vec![0u8; 100];
    let whole = query_osc_buffer(&xterm(), &mut b1, one_read(input));
    let pieces = query_osc_buffer(&xterm(), &mut b2, byte_by_byte(input));
    assert_eq!(whole, Ok(b"]11;rgb:1111/2222/3333".to_vec()));
    assert_eq!(whole, pieces);
}

#[test]
fn only_the_first_terminator_ends_the_frame() {
    let mut buffer = vec![0u8; 100];
    let r = query_osc_buffer(&xterm(), &mut buffer, one_read(b"\x1bAB\x07CD\x07\x1b[0n"));
    assert_eq!(r, Ok(b"AB".to_vec()));
}

#[test]
fn fence_byte_before_frame_start_is_ignored() {
    let mut buffer = vec![0u8; 100];
    let r = query_osc_buffer(&xterm(), &mut buffer, one_read(b"noise\x1bA\x07n"));
    assert_eq!(r, Ok(b"A".to_vec()));
}

#[test]
fn small_buffer_overflows_instead_of_truncating() {
    let mut buffer = vec![0u8; 4];
    let events = vec![
        InputEvent::Bytes(b"ab".to_vec()),
        InputEvent::Bytes(b"cd".to_vec()),
        InputEvent::Bytes(b"ef".to_vec()),
    ];
    let r = query_osc_buffer(&xterm(), &mut buffer, events);
    assert_eq!(r, Err(XQError::BufferOverflow));
    assert_eq!(buffer, b"abcd".to_vec());
}

#[test]
fn no_input_at_all_is_a_timeout() {
    let mut buffer = vec![0u8; 100];
    let r = query_osc_buffer(&xterm(), &mut buffer, Vec::new());
    assert_eq!(r, Err(XQError::Timeout));
}

#[test]
fn elapsed_wait_is_a_timeout() {
    let mut buffer = vec![0u8; 100];
    let r = query_osc_buffer(&xterm(), &mut buffer, vec![InputEvent::TimedOut]);
    assert_eq!(r, Err(XQError::Timeout));
    assert_eq!(buffer, vec![0u8; 100]);
}

#[test]
fn closed_stream_is_not_an_osc_response() {
    let mut buffer = vec![0u8; 100];
    let r = query_osc_buffer(&xterm(), &mut buffer, vec![InputEvent::Bytes(Vec::new())]);
    assert_eq!(r, Err(XQError::NotAnOSCResponse));
}

#[test]
fn failed_wait_is_io() {
    let mut buffer = vec![0u8; 100];
    let events = vec![InputEvent::Failed("read failed".to_string())];
    let r = query_osc_buffer(&xterm(), &mut buffer, events);
    assert_eq!(r, Err(XQError::IO("read failed".to_string())));
}

#[test]
fn dumb_terminal_is_unsupported_untouched() {
    let mut buffer = vec![9u8; 10];
    let events = one_read(b"\x1bA\x07n");
    let r = query_osc_buffer(&Some(b"dumb".to_vec()), &mut buffer, events);
    assert_eq!(r, Err(XQError::Unsupported));
    assert_eq!(buffer, vec![9u8; 10]);
}

#[test]
fn absent_terminal_identity_is_unsupported() {
    let mut buffer = vec![0u8; 10];
    let r = query_osc_buffer(&None, &mut buffer, one_read(b"\x1bA\x07n"));
    assert_eq!(r, Err(XQError::Unsupported));
}

#[test]
fn received_bytes_land_at_the_front_of_the_buffer() {
    let mut buffer = vec![0u8; 8];
    let r = query_osc_buffer(&xterm(), &mut buffer, one_read(b"\x1bA\x07n"));
    assert_eq!(r, Ok(b"A".to_vec()));
    assert_eq!(buffer, b"\x1bA\x07n\0\0\0\0".to_vec());
}

#[test]
fn query_osc_rejects_invalid_utf8_content() {
    let r = query_osc(&xterm(), one_read(b"\x1b\xff\x07n"));
    assert_eq!(r, Err(XQError::Utf8));
}

#[test]
fn engine_reports_progress_step_by_step() {
    let mut eng = OscEngine::new(100);
    assert_eq!(eng.filled(), 0);
    assert_eq!(eng.room(), 100);
    assert_eq!(eng.on_event(InputEvent::Bytes(b"\x1b11;rgb".to_vec())), Step::Pending);
    assert_eq!(eng.filled(), 7);
    assert_eq!(eng.room(), 93);
    let step = eng.on_event(InputEvent::Bytes(b":0/0\x07\x1b[0n".to_vec()));
    assert_eq!(step, Step::Done(Ok(b"11;rgb:0/0".to_vec())));
    assert_eq!(eng.into_bytes(), b"\x1b11;rgb:0/0\x07\x1b[0n".to_vec());
}

#[test]
fn screen_identity_is_accepted_for_the_exchange() {
    let mut buffer = vec![0u8; 100];
    let r = query_osc_buffer(&Some(b"screen".to_vec()), &mut buffer, one_read(b"\x1bA\x07n"));
    assert_eq!(r, Ok(b"A".to_vec()));
}

#[test]
fn zero_capacity_buffer_overflows_at_once() {
    let mut buffer = Vec::new();
    let r = query_osc_buffer(&xterm(), &mut buffer, one_read(b"\x1bA\x07n"));
    assert_eq!(r, Err(XQError::BufferOverflow));
    assert_eq!(buffer, Vec::<u8>::new());
}
