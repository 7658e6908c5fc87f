//! The simple, non-framed exchange and its text wrapper.

use xterm_query::{query, query_buffer, InputEvent, XQError};

#[test]
fn query_buffer_reads_into_buffer() {
    let mut buffer = vec![0u8; 8];
    let r = query_buffer(&mut buffer, InputEvent::Bytes(b"abc".to_vec()));
    assert_eq!(r, Ok(3));
    assert_eq!(buffer, b"abc\0\0\0\0\0".to_vec());
}

#[test]
fn query_buffer_takes_only_what_fits() {
    let mut buffer = vec![0u8; 2];
    let r = query_buffer(&mut buffer, InputEvent::Bytes(b"abcd".to_vec()));
    assert_eq!(r, Ok(2));
    assert_eq!(buffer, b"ab".to_vec());
}

#[test]
fn query_buffer_empty_read_is_zero() {
    let mut buffer = vec![7u8; 4];
    let r = query_buffer(&mut buffer, InputEvent::Bytes(Vec::new()));
    assert_eq!(r, Ok(0));
    assert_eq!(buffer, vec![7u8; 4]);
}

#[test]
fn query_buffer_timeout() {
    let mut buffer = vec![7u8; 4];
    let r = query_buffer(&mut buffer, InputEvent::TimedOut);
    assert_eq!(r, Err(XQError::Timeout));
    assert_eq!(buffer, vec![7u8; 4]);
}

#[test]
fn query_buffer_failed_wait_is_io() {
    let mut buffer = vec![0u8; 4];
    let r = query_buffer(&mut buffer, InputEvent::Failed("poll failed".to_string()));
    assert_eq!(r, Err(XQError::IO("poll failed".to_string())));
}

#[test]
fn query_returns_text() {
    let r = query(InputEvent::Bytes(b"\x1b[?64;4c".to_vec()));
    assert_eq!(r, Ok("\x1b[?64;4c".to_string()));
}

#[test]
fn query_decodes_multibyte_text() {
    let r = query(InputEvent::Bytes("réponse".as_bytes().to_vec()));
    let s = r.unwrap();
    assert_eq!(s, "réponse");
    assert_eq!(s.chars().count(), 7);
}

#[test]
fn query_rejects_invalid_utf8() {
    let r = query(InputEvent::Bytes(vec![0xff, 0xfe, 0x41]));
    assert_eq!(r, Err(XQError::Utf8));
}

#[test]
fn query_timeout() {
    assert_eq!(query(InputEvent::TimedOut), Err(XQError::Timeout));
}
