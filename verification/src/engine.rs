//! The OSC query engine: one request/response exchange, driven by events.
//!
//! The engine never touches the terminal itself. The caller writes the query
//! (see [`crate::term::osc_wire_bytes`]), then repeatedly waits on the input
//! handle and reads, handing each outcome in as an [`InputEvent`]. The engine
//! accumulates the reply bytes in a bounded buffer, scans them for the OSC
//! frame, and decides when the exchange is over and with what result.

use vstd::math::min;
use vstd::prelude::*;

use crate::error::XQError;
use crate::frame::{
    esc_pred, fence_pred, frame_verdict, is_terminator, lemma_first_match,
    lemma_first_match_unique, ok_content, resolved, scan_end, scan_start, term_pred, BEL, ESC,
    FENCE,
};

verus! {

/// One outcome of a wait-then-read iteration on the terminal's input.
#[derive(Debug, PartialEq, Eq)]
pub enum InputEvent {
    /// The handle became readable and the read returned these bytes; an
    /// empty read means the stream has closed.
    Bytes(Vec<u8>),
    /// The wait elapsed without the handle becoming readable.
    TimedOut,
    /// The wait or the read failed; the message describes the failure.
    Failed(String),
}

/// What the engine asks of its driver after an event.
#[derive(Debug, PartialEq, Eq)]
pub enum Step {
    /// The frame has not resolved yet: wait and read again.
    Pending,
    /// The exchange is over, with the reply content or a failure.
    Done(Result<Vec<u8>, XQError>),
}

/// The result of the exchange, with the reply as a byte sequence.
pub open spec fn res_view(r: Result<Vec<u8>, XQError>) -> Result<Seq<u8>, XQError> {
    match r {
        Ok(v) => Ok(v@),
        Err(e) => Err(e),
    }
}

/// What one event does to an exchange holding the bytes `acc` in a buffer of
/// capacity `cap`: either a final result, or the bytes accumulated so far.
/// A read longer than the remaining space is taken only up to that space.
pub open spec fn event_step(acc: Seq<u8>, cap: nat, ev: InputEvent) -> (Option<
    Result<Seq<u8>, XQError>,
>, Seq<u8>) {
    if acc.len() >= cap {
        (Some(Err(XQError::BufferOverflow)), acc)
    } else {
        match ev {
            InputEvent::TimedOut => (Some(Err(XQError::Timeout)), acc),
            InputEvent::Failed(m) => (Some(Err(XQError::IO(m))), acc),
            InputEvent::Bytes(v) => {
                if v@.len() == 0 {
                    (Some(Err(XQError::NotAnOSCResponse)), acc)
                } else {
                    let acc2 = acc + v@.take(min(v@.len() as int, cap - acc.len()));
                    if resolved(acc2) {
                        (Some(frame_verdict(acc2)), acc2)
                    } else if acc2.len() >= cap {
                        (Some(Err(XQError::BufferOverflow)), acc2)
                    } else {
                        (None, acc2)
                    }
                }
            },
        }
    }
}

/// The result of the whole exchange over a sequence of events, starting from
/// the bytes `acc`, together with the bytes accumulated when it ended.
/// Exhausting the events means no further byte ever arrives, which is a
/// timeout.
pub open spec fn osc_run(acc: Seq<u8>, cap: nat, events: Seq<InputEvent>) -> (Result<
    Seq<u8>,
    XQError,
>, Seq<u8>)
    decreases events.len(),
{
    if events.len() == 0 {
        if acc.len() >= cap {
            (Err(XQError::BufferOverflow), acc)
        } else {
            (Err(XQError::Timeout), acc)
        }
    } else {
        let (step, acc2) = event_step(acc, cap, events[0]);
        match step {
            Some(r) => (r, acc2),
            None => osc_run(acc2, cap, events.drop_first()),
        }
    }
}

/// The accumulated bytes never outgrow the capacity.
pub proof fn lemma_osc_run_len(acc: Seq<u8>, cap: nat, events: Seq<InputEvent>)
    requires
        acc.len() <= cap,
    ensures
        osc_run(acc, cap, events).1.len() <= cap,
    decreases events.len(),
{
    if events.len() > 0 {
        let (step, acc2) = event_step(acc, cap, events[0]);
        assert(acc2.len() <= cap);
        if step is None {
            lemma_osc_run_len(acc2, cap, events.drop_first());
        }
    }
}

/// One OSC exchange in progress: the reply bytes accumulated so far, the
/// capacity they must fit in, and the frame-start and frame-end positions
/// recorded by the scan.
pub struct OscEngine {
    buf: Vec<u8>,
    cap: usize,
    start: Option<usize>,
    end: Option<usize>,
}

impl OscEngine {
    /// The reply bytes accumulated so far.
    pub closed spec fn bytes(self) -> Seq<u8> {
        self.buf@
    }

    /// The capacity the reply must fit in.
    pub closed spec fn capacity_spec(self) -> nat {
        self.cap as nat
    }

    /// The engine's invariant: the recorded positions are exactly what the
    /// scan of the accumulated bytes yields, and no fence has been seen.
    pub closed spec fn wf(self) -> bool {
        &&& self.buf@.len() <= self.cap
        &&& match self.start {
            None => scan_start(self.buf@) is None,
            Some(st) => scan_start(self.buf@) == Some(st as int),
        }
        &&& match self.end {
            None => scan_end(self.buf@) is None,
            Some(e) => scan_end(self.buf@) == Some(e as int),
        }
        &&& !resolved(self.buf@)
    }

    /// A fresh engine for a reply of at most `capacity` bytes.
    pub fn new(capacity: usize) -> (r: OscEngine)
        ensures
            r.wf(),
            r.bytes() == Seq::<u8>::empty(),
            r.capacity_spec() == capacity as nat,
    {
        OscEngine { buf: Vec::new(), cap: capacity, start: None, end: None }
    }

    /// How many reply bytes have arrived so far.
    pub fn filled(&self) -> (r: usize)
        ensures
            r == self.bytes().len(),
    {
        self.buf.len()
    }

    /// How many more bytes the buffer can take.
    pub fn room(&self) -> (r: usize)
        ensures
            r == if self.bytes().len() <= self.capacity_spec() {
                self.capacity_spec() - self.bytes().len()
            } else {
                0
            },
    {
        if self.buf.len() <= self.cap {
            self.cap - self.buf.len()
        } else {
            0
        }
    }

    /// The accumulated reply bytes, surrendering the engine.
    pub fn into_bytes(self) -> (r: Vec<u8>)
        ensures
            r@ == self.bytes(),
    {
        self.buf
    }

    /// Feed one input event: scan any new bytes and decide whether the
    /// exchange is over, exactly as [`event_step`] says.
    #[verifier::loop_isolation(false)]
    pub fn on_event(&mut self, ev: InputEvent) -> (step: Step)
        requires
            old(self).wf(),
        ensures
            final(self).capacity_spec() == old(self).capacity_spec(),
            ({
                let (sr, acc2) = event_step(old(self).bytes(), old(self).capacity_spec(), ev);
                &&& final(self).bytes() == acc2
                &&& match step {
                    Step::Pending => sr is None && final(self).wf(),
                    Step::Done(r) => sr == Some(res_view(r)),
                }
            }),
    {
        if self.buf.len() >= self.cap {
            return Step::Done(Err(XQError::BufferOverflow));
        }
        match ev {
            InputEvent::TimedOut => Step::Done(Err(XQError::Timeout)),
            InputEvent::Failed(m) => Step::Done(Err(XQError::IO(m))),
            InputEvent::Bytes(v) => {
                if v.len() == 0 {
                    return Step::Done(Err(XQError::NotAnOSCResponse));
                }
                let ghost buf0 = self.buf@;
                let ghost cap0 = self.cap;
                let ghost start0 = self.start;
                let ghost end0 = self.end;
                let old_len: usize = self.buf.len();
                let room: usize = self.cap - old_len;
                let take_n: usize = if v.len() < room {
                    v.len()
                } else {
                    room
                };
                let mut i: usize = 0;
                while i < take_n
                    invariant
                        i <= take_n,
                        take_n <= v@.len(),
                        self.buf@ == buf0 + v@.take(i as int),
                        self.cap == cap0,
                        self.start == start0,
                        self.end == end0,
                    decreases take_n - i,
                {
                    let b = v[i];
                    self.buf.push(b);
                    proof {
                        assert(self.buf@ =~= buf0 + v@.take(i + 1));
                    }
                    i += 1;
                }
                let ghost acc2 = buf0 + v@.take(take_n as int);
                proof {
                    assert(acc2 == buf0 + v@.take(
                        min(v@.len() as int, cap0 as int - buf0.len()),
                    ));
                    assert(forall|k: int| 0 <= k < buf0.len() ==> acc2[k] == buf0[k]);
                    lemma_first_match(buf0, 0, esc_pred());
                    match scan_start(buf0) {
                        Some(st) => {
                            lemma_first_match(buf0, st + 1, term_pred());
                            lemma_first_match(buf0, st + 1, fence_pred());
                        },
                        None => {},
                    }
                }
                let new_len: usize = self.buf.len();
                let mut j: usize = old_len;
                while j < new_len
                    invariant
                        old_len <= j <= new_len,
                        new_len == self.buf@.len(),
                        self.buf@ == acc2,
                        self.cap == cap0,
                        match self.start {
                            None => forall|k: int| 0 <= k < j ==> acc2[k] != ESC,
                            Some(st) => st < j && acc2[st as int] == ESC && (forall|k: int|
                                0 <= k < st ==> acc2[k] != ESC),
                        },
                        match self.end {
                            None => match self.start {
                                Some(st) => forall|k: int|
                                    st < k < j ==> !is_terminator(acc2[k]),
                                None => true,
                            },
                            Some(e) => match self.start {
                                Some(st) => st < e < j && is_terminator(acc2[e as int]) && (
                                forall|k: int| st < k < e ==> !is_terminator(acc2[k])),
                                None => false,
                            },
                        },
                        match self.start {
                            Some(st) => forall|k: int| st < k < j ==> acc2[k] != FENCE,
                            None => true,
                        },
                    decreases new_len - j,
                {
                    let b = self.buf[j];
                    match self.start {
                        None => {
                            if b == ESC {
                                self.start = Some(j);
                            }
                        },
                        Some(st) => {
                            if b == ESC || b == BEL {
                                if self.end.is_none() {
                                    self.end = Some(j);
                                }
                            } else if b == FENCE {
                                proof {
                                    lemma_first_match_unique(acc2, 0, esc_pred(), st as int);
                                    lemma_first_match_unique(
                                        acc2,
                                        st as int + 1,
                                        fence_pred(),
                                        j as int,
                                    );
                                }
                                match self.end {
                                    None => {
                                        proof {
                                            lemma_first_match(acc2, st as int + 1, term_pred());
                                        }
                                        return Step::Done(Err(XQError::NotAnOSCResponse));
                                    },
                                    Some(e) => {
                                        proof {
                                            lemma_first_match_unique(
                                                acc2,
                                                st as int + 1,
                                                term_pred(),
                                                e as int,
                                            );
                                        }
                                        let content = copy_range(&self.buf, st + 1, e);
                                        proof {
                                            assert(content@ =~= ok_content(acc2));
                                        }
                                        return Step::Done(Ok(content));
                                    },
                                }
                            }
                        },
                    }
                    j += 1;
                }
                proof {
                    match self.start {
                        None => {
                            lemma_first_match(acc2, 0, esc_pred());
                        },
                        Some(st) => {
                            lemma_first_match_unique(acc2, 0, esc_pred(), st as int);
                            lemma_first_match(acc2, st as int + 1, term_pred());
                            lemma_first_match(acc2, st as int + 1, fence_pred());
                            match self.end {
                                Some(e) => {
                                    lemma_first_match_unique(
                                        acc2,
                                        st as int + 1,
                                        term_pred(),
                                        e as int,
                                    );
                                },
                                None => {},
                            }
                        },
                    }
                }
                if self.buf.len() >= self.cap {
                    return Step::Done(Err(XQError::BufferOverflow));
                }
                Step::Pending
            },
        }
    }
}

/// The bytes of `v` from `lo` up to but not including `hi`, as a fresh vector.
fn copy_range(v: &Vec<u8>, lo: usize, hi: usize) -> (r: Vec<u8>)
    requires
        lo <= hi <= v@.len(),
    ensures
        r@ == v@.subrange(lo as int, hi as int),
{
    let mut r: Vec<u8> = Vec::new();
    let mut k: usize = lo;
    while k < hi
        invariant
            lo <= k <= hi <= v@.len(),
            r@ == v@.subrange(lo as int, k as int),
        decreases hi - k,
    {
        r.push(v[k]);
        proof {
            assert(r@ =~= v@.subrange(lo as int, k + 1));
        }
        k += 1;
    }
    r
}

} // verus!
