//! The bytes an OSC query puts on the wire, per terminal identity.

use xterm_query::{osc_wire_bytes, XQError};

#[test]
fn xterm_sends_query_then_fence_unwrapped() {
    let r = osc_wire_bytes("\x1b]11;?\x07", &Some(b"xterm".to_vec()));
    assert_eq!(r, Ok(b"\x1b]11;?\x07\x1b[5n".to_vec()));
}

#[test]
fn screen_family_wraps_in_a_device_control_string() {
    let r = osc_wire_bytes("\x1b]11;?\x07", &Some(b"screen-256color".to_vec()));
    assert_eq!(r, Ok(b"\x1bP\x1b]11;?\x07\x1b[5n\x1b\\".to_vec()));
}

#[test]
fn plain_screen_wraps_too() {
    let r = osc_wire_bytes("q", &Some(b"screen".to_vec()));
    assert_eq!(r, Ok(b"\x1bPq\x1b[5n\x1b\\".to_vec()));
}

#[test]
fn dumb_terminal_gets_no_bytes() {
    let r = osc_wire_bytes("\x1b]11;?\x07", &Some(b"dumb".to_vec()));
    assert_eq!(r, Err(XQError::Unsupported));
}

#[test]
fn absent_identity_gets_no_bytes() {
    let r = osc_wire_bytes("\x1b]11;?\x07", &None);
    assert_eq!(r, Err(XQError::Unsupported));
}

#[test]
fn almost_screen_is_not_wrapped() {
    let r = osc_wire_bytes("q", &Some(b"scree".to_vec()));
    assert_eq!(r, Ok(b"q\x1b[5n".to_vec()));
}
