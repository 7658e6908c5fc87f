//! Synchronous, timeout-bounded querying of a terminal emulator over its
//! escape-sequence request/response protocols.
//!
//! The heart of the library is the OSC exchange: a query is written to the
//! terminal's output with a Device Status Report request appended as a fence,
//! and the reply is assembled from whatever reads deliver, scanning for the
//! frame start (ESC), the frame terminator (ESC or BEL) and the fence byte.
//! All of the parsing and decision logic lives here, as verified functions
//! over the bytes and events involved. The actual waiting, reading and
//! writing belong to the caller, who obtains the bytes to send from
//! [`osc_wire_bytes`], performs each wait-and-read itself, and hands every
//! outcome in as an [`InputEvent`] — either one at a time through
//! [`OscEngine`], or as a whole recorded sequence through the query
//! functions.

mod engine;
mod error;
mod frame;
mod laws;
mod term;

pub use engine::{event_step, osc_run, res_view, InputEvent, OscEngine, Step};
pub use error::XQError;
pub use frame::{
    frame_verdict, is_terminator, ok_content, resolved, resolves_ok, scan_end, scan_fence,
    scan_start, BEL, ESC, FENCE,
};
pub use laws::{
    all_timeouts, bytes_events, concat_bytes, lemma_fence_before_terminator,
    lemma_overflow_not_truncation, lemma_reads_resolve_to_stream, lemma_timeout_when_no_input,
    lemma_valid_reply_roundtrip, stream_verdict,
};
pub use term::{
    dumb_name, fence_request, osc_wire_bytes, screen_prefix, spec_needs_wrap, spec_term_rejected,
    spec_wire_bytes, term_view,
};

use vstd::math::min;
use vstd::prelude::*;
use vstd::utf8::{decode_utf8, valid_utf8};

verus! {

/// How many reply bytes the convenience wrappers allow for: ample for a
/// typical single-line escape reply.
pub const RESPONSE_CAP: usize = 100;

/// Relies on `String::from_utf8`: it succeeds exactly on UTF-8-valid bytes,
/// and then returns their decoding.
#[verifier::external_body]
fn bytes_to_string(v: Vec<u8>) -> (r: Option<String>)
    ensures
        r is Some <==> valid_utf8(v@),
        r matches Some(s) ==> s@ == decode_utf8(v@),
{
    match String::from_utf8(v) {
        Ok(s) => Some(s),
        Err(_) => None,
    }
}

/// One simple, non-framed exchange: the caller has written its query and
/// performed a single wait-and-read, whose outcome is `event`. The bytes
/// read land at the front of `buffer` — a read longer than the buffer is
/// taken only up to its length — and the count taken is returned. A timeout
/// or a failure leaves the buffer untouched.
pub fn query_buffer(buffer: &mut Vec<u8>, event: InputEvent) -> (r: Result<usize, XQError>)
    ensures
        final(buffer)@.len() == old(buffer)@.len(),
        match event {
            InputEvent::TimedOut => r == Err::<usize, XQError>(XQError::Timeout) && *final(buffer)
                == *old(buffer),
            InputEvent::Failed(m) => r == Err::<usize, XQError>(XQError::IO(m)) && *final(buffer)
                == *old(buffer),
            InputEvent::Bytes(v) => ({
                let n = min(v@.len() as int, old(buffer)@.len() as int);
                &&& r == Ok::<usize, XQError>(n as usize)
                &&& final(buffer)@ == v@.take(n) + old(buffer)@.skip(n)
            }),
        },
{
    match event {
        InputEvent::TimedOut => Err(XQError::Timeout),
        InputEvent::Failed(m) => Err(XQError::IO(m)),
        InputEvent::Bytes(v) => {
            let n: usize = if v.len() < buffer.len() {
                v.len()
            } else {
                buffer.len()
            };
            let mut out: Vec<u8> = Vec::new();
            let mut i: usize = 0;
            while i < n
                invariant
                    i <= n,
                    n <= v@.len(),
                    out@ == v@.take(i as int),
                decreases n - i,
            {
                out.push(v[i]);
                proof {
                    assert(out@ =~= v@.take(i + 1));
                }
                i += 1;
            }
            let mut k: usize = n;
            while k < buffer.len()
                invariant
                    n <= k <= buffer@.len(),
                    *buffer == *old(buffer),
                    out@ == v@.take(n as int) + buffer@.subrange(n as int, k as int),
                decreases buffer@.len() - k,
            {
                out.push(buffer[k]);
                proof {
                    assert(out@ =~= v@.take(n as int) + buffer@.subrange(n as int, k + 1));
                }
                k += 1;
            }
            proof {
                assert(out@ =~= v@.take(n as int) + buffer@.skip(n as int));
            }
            *buffer = out;
            Ok(n)
        },
    }
}

/// The simple exchange with an internal buffer of [`RESPONSE_CAP`] bytes,
/// returning the bytes read as text. Bytes that are not valid UTF-8 are an
/// encoding failure, not a truncated success.
pub fn query(event: InputEvent) -> (r: Result<String, XQError>)
    ensures
        match event {
            InputEvent::TimedOut => r == Err::<String, XQError>(XQError::Timeout),
            InputEvent::Failed(m) => r == Err::<String, XQError>(XQError::IO(m)),
            InputEvent::Bytes(v) => ({
                let got = v@.take(min(v@.len() as int, RESPONSE_CAP as int));
                match r {
                    Ok(s) => valid_utf8(got) && s@ == decode_utf8(got),
                    Err(e) => e == XQError::Utf8 && !valid_utf8(got),
                }
            }),
        },
{
    let mut buffer: Vec<u8> = vec![0u8; RESPONSE_CAP];
    let ghost ev0 = event;
    let n: usize = match query_buffer(&mut buffer, event) {
        Ok(n) => n,
        Err(e) => {
            return Err(e);
        },
    };
    buffer.truncate(n);
    proof {
        match ev0 {
            InputEvent::Bytes(gv) => {
                assert(buffer@ =~= gv@.take(min(gv@.len() as int, RESPONSE_CAP as int)));
            },
            _ => {},
        }
    }
    match bytes_to_string(buffer) {
        Some(s) => Ok(s),
        None => Err(XQError::Utf8),
    }
}

/// One strict OSC exchange, replayed over a recorded or simulated sequence
/// of input events.
///
/// The terminal identity decides first: an absent or `dumb` identity fails
/// with `Unsupported` before anything else, the buffer untouched. Otherwise
/// the engine runs exactly as [`osc_run`] says, with the length of `buffer`
/// as the capacity: the reply content is returned on success, and the bytes
/// received end up at the front of the buffer.
pub fn query_osc_buffer(term: &Option<Vec<u8>>, buffer: &mut Vec<u8>, events: Vec<InputEvent>) -> (r:
    Result<Vec<u8>, XQError>)
    ensures
        final(buffer)@.len() == old(buffer)@.len(),
        spec_term_rejected(term_view(*term)) ==> r == Err::<Vec<u8>, XQError>(XQError::Unsupported)
            && *final(buffer) == *old(buffer),
        !spec_term_rejected(term_view(*term)) ==> ({
            let (verdict, acc) = osc_run(Seq::<u8>::empty(), old(buffer)@.len(), events@);
            &&& res_view(r) == verdict
            &&& final(buffer)@ == acc + old(buffer)@.skip(acc.len() as int)
        }),
{
    match term {
        None => {
            return Err(XQError::Unsupported);
        },
        Some(t) => {
            if term::is_dumb(t) {
                return Err(XQError::Unsupported);
            }
        },
    }
    let cap: usize = buffer.len();
    let ghost all_events = events@;
    let ghost target = osc_run(Seq::<u8>::empty(), cap as nat, all_events);
    proof {
        engine::lemma_osc_run_len(Seq::<u8>::empty(), cap as nat, all_events);
    }
    let mut eng = OscEngine::new(cap);
    let mut evs = events;
    let mut verdict: Result<Vec<u8>, XQError> = Err(XQError::Timeout);
    let mut settled: bool = false;
    while evs.len() > 0 && !settled
        invariant
            eng.capacity_spec() == cap as nat,
            settled ==> res_view(verdict) == target.0 && eng.bytes() == target.1,
            !settled ==> eng.wf() && osc_run(eng.bytes(), cap as nat, evs@) == target,
            !settled ==> verdict == Err::<Vec<u8>, XQError>(XQError::Timeout),
        decreases evs@.len(),
    {
        let ghost pre_bytes = eng.bytes();
        let ghost pre_evs = evs@;
        let ev = evs.remove(0);
        proof {
            assert(pre_evs[0] == ev);
            assert(evs@ =~= pre_evs.drop_first());
        }
        match eng.on_event(ev) {
            Step::Pending => {
                proof {
                    assert(osc_run(pre_bytes, cap as nat, pre_evs) == osc_run(
                        eng.bytes(),
                        cap as nat,
                        evs@,
                    ));
                }
            },
            Step::Done(r) => {
                proof {
                    assert(osc_run(pre_bytes, cap as nat, pre_evs) == target);
                }
                verdict = r;
                settled = true;
            },
        }
    }
    proof {
        if !settled {
            assert(osc_run(eng.bytes(), cap as nat, evs@) == target);
        }
    }
    if !settled {
        if eng.filled() >= cap {
            verdict = Err(XQError::BufferOverflow);
        }
    }
    proof {
        assert(target.1.len() <= cap);
    }
    let mut out = eng.into_bytes();
    let mut k: usize = out.len();
    while k < buffer.len()
        invariant
            target.1.len() <= k <= buffer@.len(),
            *buffer == *old(buffer),
            out@ == target.1 + buffer@.subrange(target.1.len() as int, k as int),
        decreases buffer@.len() - k,
    {
        out.push(buffer[k]);
        proof {
            assert(out@ =~= target.1 + buffer@.subrange(target.1.len() as int, k + 1));
        }
        k += 1;
    }
    proof {
        assert(out@ =~= target.1 + buffer@.skip(target.1.len() as int));
    }
    *buffer = out;
    verdict
}

/// The strict OSC exchange with an internal buffer of [`RESPONSE_CAP`]
/// bytes, returning the reply content as text. Content that is not valid
/// UTF-8 is an encoding failure.
pub fn query_osc(term: &Option<Vec<u8>>, events: Vec<InputEvent>) -> (r: Result<String, XQError>)
    ensures
        spec_term_rejected(term_view(*term)) ==> r == Err::<String, XQError>(XQError::Unsupported),
        !spec_term_rejected(term_view(*term)) ==> ({
            let (verdict, acc) = osc_run(Seq::<u8>::empty(), RESPONSE_CAP as nat, events@);
            match verdict {
                Ok(content) => match r {
                    Ok(s) => valid_utf8(content) && s@ == decode_utf8(content),
                    Err(e) => e == XQError::Utf8 && !valid_utf8(content),
                },
                Err(e) => r == Err::<String, XQError>(e),
            }
        }),
{
    let mut buffer: Vec<u8> = vec![0u8; RESPONSE_CAP];
    let content = match query_osc_buffer(term, &mut buffer, events) {
        Ok(content) => content,
        Err(e) => {
            return Err(e);
        },
    };
    match bytes_to_string(content) {
        Some(s) => Ok(s),
        None => Err(XQError::Utf8),
    }
}

} // verus!
