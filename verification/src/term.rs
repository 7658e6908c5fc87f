//! Terminal identity, and the exact bytes an OSC query puts on the wire.
//!
//! The identity is the value of the terminal-type environment variable, as
//! raw bytes, supplied by the caller. An absent or `dumb` identity is
//! rejected outright; a `screen`-family identity makes the outgoing query be
//! wrapped in a Device Control String so the multiplexer forwards it
//! uninterpreted.

use vstd::prelude::*;

use vstd::string::StringSliceAdditionalSpecFns;

use crate::error::XQError;
use crate::frame::ESC;

verus! {

/// The identity that names a terminal too limited to answer: `dumb`.
pub open spec fn dumb_name() -> Seq<u8> {
    seq![0x64u8, 0x75u8, 0x6du8, 0x62u8]
}

/// The identity prefix of the multiplexers that need escaping: `screen`.
pub open spec fn screen_prefix() -> Seq<u8> {
    seq![0x73u8, 0x63u8, 0x72u8, 0x65u8, 0x65u8, 0x6eu8]
}

/// An identity on which an OSC query is refused before any byte is sent:
/// absent, or exactly `dumb`.
pub open spec fn spec_term_rejected(term: Option<Seq<u8>>) -> bool {
    match term {
        None => true,
        Some(t) => t == dumb_name(),
    }
}

/// Does this identity require the Device Control String wrapping?
pub open spec fn spec_needs_wrap(t: Seq<u8>) -> bool {
    t.len() >= 6 && t.take(6) == screen_prefix()
}

/// The view of a caller-supplied identity.
pub open spec fn term_view(term: Option<Vec<u8>>) -> Option<Seq<u8>> {
    match term {
        None => None,
        Some(t) => Some(t@),
    }
}

/// The Device Status Report request appended after every OSC query as the
/// fence: `ESC [ 5 n`.
pub open spec fn fence_request() -> Seq<u8> {
    seq![ESC, 0x5bu8, 0x35u8, 0x6eu8]
}

/// The Device Control String prologue: `ESC P`.
pub open spec fn dcs_open() -> Seq<u8> {
    seq![ESC, 0x50u8]
}

/// The Device Control String epilogue: `ESC \`.
pub open spec fn dcs_close() -> Seq<u8> {
    seq![ESC, 0x5cu8]
}

/// The exact bytes sent for an OSC query: the query itself followed by the
/// fence request, the whole wrapped in a Device Control String when the
/// terminal is a `screen`-family multiplexer.
pub open spec fn spec_wire_bytes(q: Seq<u8>, wrap: bool) -> Seq<u8> {
    if wrap {
        dcs_open() + q + fence_request() + dcs_close()
    } else {
        q + fence_request()
    }
}

/// Is this identity exactly `dumb`?
pub fn is_dumb(t: &Vec<u8>) -> (r: bool)
    ensures
        r == (t@ == dumb_name()),
{
    let r = t.len() == 4 && t[0] == 0x64 && t[1] == 0x75 && t[2] == 0x6d && t[3] == 0x62;
    proof {
        if r {
            assert(t@ =~= dumb_name());
        }
    }
    r
}

/// Does this identity begin with `screen`?
pub fn needs_wrap(t: &Vec<u8>) -> (r: bool)
    ensures
        r == spec_needs_wrap(t@),
{
    let r = t.len() >= 6 && t[0] == 0x73 && t[1] == 0x63 && t[2] == 0x72 && t[3] == 0x65
        && t[4] == 0x65 && t[5] == 0x6e;
    proof {
        if r {
            assert(t@.take(6) =~= screen_prefix());
        } else if t@.len() >= 6 {
            assert(t@.take(6)[0] == t@[0]);
            assert(t@.take(6)[1] == t@[1]);
            assert(t@.take(6)[2] == t@[2]);
            assert(t@.take(6)[3] == t@[3]);
            assert(t@.take(6)[4] == t@[4]);
            assert(t@.take(6)[5] == t@[5]);
        }
    }
    r
}

/// The bytes to write to the terminal's output for an OSC query, or
/// `Unsupported` when the terminal identity is absent or `dumb` — in which
/// case nothing at all is to be sent.
pub fn osc_wire_bytes(query: &str, term: &Option<Vec<u8>>) -> (r: Result<Vec<u8>, XQError>)
    ensures
        spec_term_rejected(term_view(*term)) <==> r == Err::<Vec<u8>, XQError>(
            XQError::Unsupported,
        ),
        match r {
            Ok(w) => !spec_term_rejected(term_view(*term)) && (term matches Some(t) && w@
                == spec_wire_bytes(query.spec_bytes(), spec_needs_wrap(t@))),
            Err(e) => e == XQError::Unsupported && spec_term_rejected(term_view(*term)),
        },
{
    match term {
        None => Err(XQError::Unsupported),
        Some(t) => {
            if is_dumb(t) {
                return Err(XQError::Unsupported);
            }
            let wrap = needs_wrap(t);
            let mut w: Vec<u8> = Vec::new();
            if wrap {
                w.push(ESC);
                w.push(0x50);
            }
            let mut qb = vstd::slice::slice_to_vec(query.as_bytes());
            w.append(&mut qb);
            w.push(ESC);
            w.push(0x5b);
            w.push(0x35);
            w.push(0x6e);
            if wrap {
                w.push(ESC);
                w.push(0x5c);
            }
            proof {
                assert(w@ =~= spec_wire_bytes(query.spec_bytes(), spec_needs_wrap(t@)));
            }
            Ok(w)
        },
    }
}

} // verus!
