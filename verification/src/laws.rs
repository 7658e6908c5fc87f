//! The general guarantees of the OSC exchange, stated and proved once over
//! the spec functions that the query functions' contracts use.

use vstd::math::min;
use vstd::prelude::*;

use crate::engine::{osc_run, InputEvent};
use crate::error::XQError;
use crate::frame::{
    esc_pred, fence_pred, frame_verdict, is_terminator, lemma_first_match,
    lemma_first_match_unique, lemma_verdict_extend, ok_content, resolved, resolves_ok, scan_end,
    scan_fence, scan_start, term_pred, BEL, ESC, FENCE,
};

verus! {

/// The verdict of the OSC exchange as a function of the raw input stream
/// alone: what any run returns whose reads deliver exactly `s` into a buffer
/// of capacity `cap`.
pub open spec fn stream_verdict(s: Seq<u8>, cap: nat) -> Result<Seq<u8>, XQError> {
    let filled = s.take(min(s.len() as int, cap as int));
    if resolved(filled) {
        frame_verdict(filled)
    } else if s.len() >= cap {
        Err(XQError::BufferOverflow)
    } else {
        Err(XQError::Timeout)
    }
}

/// Every event is a wait that timed out: no byte ever arrives.
pub open spec fn all_timeouts(events: Seq<InputEvent>) -> bool {
    forall|i: int| 0 <= i < events.len() ==> (#[trigger] events[i]) is TimedOut
}

/// Every event is a non-empty read.
pub open spec fn bytes_events(events: Seq<InputEvent>) -> bool {
    forall|i: int|
        0 <= i < events.len() ==> ((#[trigger] events[i]) matches InputEvent::Bytes(v)
            && v@.len() > 0)
}

/// The whole stream the reads deliver, in order.
pub open spec fn concat_bytes(events: Seq<InputEvent>) -> Seq<u8>
    decreases events.len(),
{
    if events.len() == 0 {
        Seq::empty()
    } else {
        (match events[0] {
            InputEvent::Bytes(v) => v@,
            _ => Seq::empty(),
        }) + concat_bytes(events.drop_first())
    }
}

/// If no bytes ever arrive — every wait times out, or no event comes at all
/// — the exchange fails with `Timeout`.
pub proof fn lemma_timeout_when_no_input(cap: nat, events: Seq<InputEvent>)
    requires
        cap > 0,
        all_timeouts(events),
    ensures
        osc_run(Seq::empty(), cap, events).0 == Err::<Seq<u8>, XQError>(XQError::Timeout),
{
    if events.len() > 0 {
        assert(events[0] is TimedOut);
    }
}

/// Induction step behind [`lemma_reads_resolve_to_stream`]: an exchange that
/// has already taken the first `k` bytes of the stream `s`, with the rest
/// still to arrive over non-empty reads, ends as `stream_verdict(s, cap)`
/// says.
proof fn lemma_run_from_stream(s: Seq<u8>, k: int, cap: nat, events: Seq<InputEvent>)
    requires
        bytes_events(events),
        0 <= k <= s.len(),
        k <= cap,
        s.skip(k) == concat_bytes(events),
        !resolved(s.take(k)),
    ensures
        osc_run(s.take(k), cap, events).0 == stream_verdict(s, cap),
    decreases events.len(),
{
    let acc = s.take(k);
    if events.len() == 0 {
        assert(s.skip(k).len() == 0);
        assert(s.len() == k);
        assert(acc =~= s);
        assert(s.take(min(s.len() as int, cap as int)) =~= acc);
    } else {
        let ev = events[0];
        assert((ev matches InputEvent::Bytes(v) && v@.len() > 0));
        let v = (match ev {
            InputEvent::Bytes(v) => v,
            _ => arbitrary(),
        });
        if k >= cap {
            assert(s.take(min(s.len() as int, cap as int)) =~= acc);
            assert(s.len() >= cap);
        } else {
            let tn = min(v@.len() as int, cap - k);
            let acc2 = acc + v@.take(tn);
            let k2 = k + tn;
            let rest = concat_bytes(events.drop_first());
            assert(s.skip(k) == v@ + rest);
            assert forall|i: int| 0 <= i < v@.len() implies s[k + i] == v@[i] by {
                assert(s.skip(k)[i] == s[k + i]);
                assert((v@ + rest)[i] == v@[i]);
            }
            assert(acc2 =~= s.take(k2));
            if resolved(acc2) {
                let m = min(s.len() as int, cap as int);
                let filled = s.take(m);
                assert(k2 <= m);
                assert(filled =~= acc2 + filled.skip(k2));
                lemma_verdict_extend(acc2, filled.skip(k2));
                assert(frame_verdict(filled) == frame_verdict(acc2));
                assert(s.len() >= k2);
            } else if k2 >= cap {
                assert(k2 == cap);
                assert(s.len() >= cap);
                assert(s.take(min(s.len() as int, cap as int)) =~= acc2);
            } else {
                assert(tn == v@.len());
                assert(s.skip(k2).len() == rest.len());
                assert forall|i: int| 0 <= i < rest.len() implies s.skip(k2)[i] == rest[i] by {
                    assert(s.skip(k2)[i] == s[k2 + i]);
                    assert(s.skip(k)[tn + i] == s[k + (tn + i)]);
                    assert((v@ + rest)[tn + i] == rest[i]);
                }
                assert(s.skip(k2) =~= rest);
                lemma_run_from_stream(s, k2, cap, events.drop_first());
            }
        }
    }
}

/// Over reads alone, the outcome depends only on the concatenated stream:
/// however the reply is fragmented — one read, or one byte per read — the
/// exchange returns exactly `stream_verdict` of the whole stream.
pub proof fn lemma_reads_resolve_to_stream(cap: nat, events: Seq<InputEvent>)
    requires
        bytes_events(events),
    ensures
        osc_run(Seq::empty(), cap, events).0 == stream_verdict(concat_bytes(events), cap),
{
    let s = concat_bytes(events);
    assert(s.skip(0) =~= s);
    assert(Seq::<u8>::empty() =~= s.take(0));
    lemma_run_from_stream(s, 0, cap, events);
}

/// A well-formed reply — possible junk without ESC, the opening ESC, a
/// payload free of ESC, BEL and the fence byte, a terminator, then anything
/// until the fence — resolves to exactly the payload, however it is
/// fragmented across reads, as long as it fits the buffer.
pub proof fn lemma_valid_reply_roundtrip(
    events: Seq<InputEvent>,
    pre: Seq<u8>,
    x: Seq<u8>,
    t: u8,
    mid: Seq<u8>,
    cap: nat,
)
    requires
        bytes_events(events),
        concat_bytes(events) == pre + seq![ESC] + x + seq![t] + mid + seq![FENCE],
        forall|i: int| 0 <= i < pre.len() ==> pre[i] != ESC,
        forall|i: int| 0 <= i < x.len() ==> x[i] != ESC && x[i] != BEL && x[i] != FENCE,
        is_terminator(t),
        pre.len() + x.len() + mid.len() + 3 <= cap,
    ensures
        osc_run(Seq::empty(), cap, events).0 == Ok::<Seq<u8>, XQError>(x),
{
    let s = concat_bytes(events);
    let st = pre.len() as int;
    let e = st + 1 + x.len();
    let last = s.len() - 1;
    assert(s.len() == pre.len() + x.len() + mid.len() + 3);
    assert(forall|i: int| 0 <= i < pre.len() ==> s[i] == pre[i]);
    assert(s[st] == ESC);
    assert(forall|i: int| 0 <= i < x.len() ==> s[st + 1 + i] == x[i]);
    assert(s[e] == t);
    assert(forall|i: int| 0 <= i < mid.len() ==> s[e + 1 + i] == mid[i]);
    assert(s[last] == FENCE);
    lemma_first_match_unique(s, 0, esc_pred(), st);
    assert(scan_start(s) == Some(st));
    assert(forall|j: int| st < j < e ==> s[j] == x[j - st - 1]);
    assert(forall|j: int| st < j < e ==> !is_terminator(s[j]));
    lemma_first_match_unique(s, st + 1, term_pred(), e);
    assert(scan_end(s) == Some(e));
    lemma_first_match(s, st + 1, fence_pred());
    match scan_fence(s) {
        None => {
            assert(s[last] == FENCE);
            assert(false);
        },
        Some(f) => {
            assert(s[f] == FENCE);
            assert(forall|j: int| st < j < e ==> s[j] != FENCE);
            assert(s[e] != FENCE);
            assert(f > e);
            assert(resolves_ok(s));
            assert(ok_content(s) =~= x);
        },
    }
    assert(s.take(min(s.len() as int, cap as int)) =~= s);
    lemma_reads_resolve_to_stream(cap, events);
}

/// The fence arriving before any terminator is the positive signal that the
/// query itself went unanswered: the exchange fails with `NotAnOSCResponse`,
/// however the stream is fragmented.
pub proof fn lemma_fence_before_terminator(
    events: Seq<InputEvent>,
    pre: Seq<u8>,
    x: Seq<u8>,
    cap: nat,
)
    requires
        bytes_events(events),
        concat_bytes(events) == pre + seq![ESC] + x + seq![FENCE],
        forall|i: int| 0 <= i < pre.len() ==> pre[i] != ESC,
        forall|i: int| 0 <= i < x.len() ==> x[i] != ESC && x[i] != BEL && x[i] != FENCE,
        pre.len() + x.len() + 2 <= cap,
    ensures
        osc_run(Seq::empty(), cap, events).0 == Err::<Seq<u8>, XQError>(
            XQError::NotAnOSCResponse,
        ),
{
    let s = concat_bytes(events);
    let st = pre.len() as int;
    let f = st + 1 + x.len();
    assert(s.len() == pre.len() + x.len() + 2);
    assert(forall|i: int| 0 <= i < pre.len() ==> s[i] == pre[i]);
    assert(s[st] == ESC);
    assert(forall|i: int| 0 <= i < x.len() ==> s[st + 1 + i] == x[i]);
    assert(s[f] == FENCE);
    lemma_first_match_unique(s, 0, esc_pred(), st);
    assert(scan_start(s) == Some(st));
    assert(forall|j: int| st < j < f ==> s[j] == x[j - st - 1]);
    assert(forall|j: int| st < j < f ==> s[j] != FENCE);
    lemma_first_match_unique(s, st + 1, fence_pred(), f);
    assert(scan_fence(s) == Some(f));
    lemma_first_match(s, st + 1, term_pred());
    match scan_end(s) {
        None => {},
        Some(e2) => {
            assert(is_terminator(s[e2]));
            assert(forall|j: int| st < j < f ==> !is_terminator(s[j]));
            assert(!is_terminator(s[f]));
            assert(false);
        },
    }
    assert(!resolves_ok(s));
    assert(s.take(min(s.len() as int, cap as int)) =~= s);
    lemma_reads_resolve_to_stream(cap, events);
}

/// A reply that needs more than the buffer's capacity before resolving
/// fails with `BufferOverflow` — never with a silently truncated success.
pub proof fn lemma_overflow_not_truncation(events: Seq<InputEvent>, cap: nat)
    requires
        bytes_events(events),
        concat_bytes(events).len() >= cap,
        !resolved(concat_bytes(events).take(cap as int)),
    ensures
        osc_run(Seq::empty(), cap, events).0 == Err::<Seq<u8>, XQError>(XQError::BufferOverflow),
{
    lemma_reads_resolve_to_stream(cap, events);
}

} // verus!
