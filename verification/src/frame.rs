//! The OSC frame, as a logical view over the bytes received so far.
//!
//! A reply stream resolves at the first fence byte (`n`) seen after the frame
//! start (the first ESC). The resolution is a success when a terminator (ESC
//! or BEL) was recorded between the two, and the reply content is then the
//! bytes strictly between the frame start and that first terminator.

use vstd::prelude::*;

use crate::error::XQError;

verus! {

/// The escape byte: it opens a frame, and may also terminate one.
pub const ESC: u8 = 0x1b;

/// The bell byte: like ESC, it terminates an OSC reply.
pub const BEL: u8 = 0x07;

/// The byte that ends a Device Status Report reply (ASCII `n`), used as the
/// fence.
pub const FENCE: u8 = 0x6e;

/// Does this byte terminate an OSC reply?
pub open spec fn is_terminator(b: u8) -> bool {
    b == ESC || b == BEL
}

/// The index of the first byte at or after `from` satisfying `p`, if any.
pub open spec fn first_match(s: Seq<u8>, from: int, p: spec_fn(u8) -> bool) -> Option<int>
    recommends
        0 <= from,
    decreases s.len() - from,
{
    if from < 0 || from >= s.len() {
        None
    } else if p(s[from]) {
        Some(from)
    } else {
        first_match(s, from + 1, p)
    }
}

/// The predicate matched by the frame-start byte.
pub open spec fn esc_pred() -> spec_fn(u8) -> bool {
    |b: u8| b == ESC
}

/// The predicate matched by a frame terminator.
pub open spec fn term_pred() -> spec_fn(u8) -> bool {
    |b: u8| is_terminator(b)
}

/// The predicate matched by the fence byte.
pub open spec fn fence_pred() -> spec_fn(u8) -> bool {
    |b: u8| b == FENCE
}

/// The frame start: the index of the first ESC byte, if any.
pub open spec fn scan_start(s: Seq<u8>) -> Option<int> {
    first_match(s, 0, esc_pred())
}

/// The frame end: the index of the first terminator after the frame start.
pub open spec fn scan_end(s: Seq<u8>) -> Option<int> {
    match scan_start(s) {
        Some(st) => first_match(s, st + 1, term_pred()),
        None => None,
    }
}

/// The fence position: the index of the first fence byte after the frame start.
pub open spec fn scan_fence(s: Seq<u8>) -> Option<int> {
    match scan_start(s) {
        Some(st) => first_match(s, st + 1, fence_pred()),
        None => None,
    }
}

/// The scan has resolved: a fence byte was seen after a frame start.
pub open spec fn resolved(s: Seq<u8>) -> bool {
    scan_fence(s) is Some
}

/// The resolution is a success: a terminator was recorded before the fence.
pub open spec fn resolves_ok(s: Seq<u8>) -> bool {
    match (scan_end(s), scan_fence(s)) {
        (Some(e), Some(f)) => e < f,
        _ => false,
    }
}

/// The reply content on success: the bytes strictly between the frame start
/// and the first terminator.
pub open spec fn ok_content(s: Seq<u8>) -> Seq<u8>
    recommends
        resolves_ok(s),
{
    match (scan_start(s), scan_end(s)) {
        (Some(st), Some(e)) => s.subrange(st + 1, e),
        _ => Seq::empty(),
    }
}

/// What a resolved stream yields: the content, or the positive signal that
/// the terminal answered the fence without ever framing a reply.
pub open spec fn frame_verdict(s: Seq<u8>) -> Result<Seq<u8>, XQError>
    recommends
        resolved(s),
{
    if resolves_ok(s) {
        Ok(ok_content(s))
    } else {
        Err(XQError::NotAnOSCResponse)
    }
}

/// `first_match` finds a match at or after `from`, before which nothing
/// matches; or there is no match at all.
pub proof fn lemma_first_match(s: Seq<u8>, from: int, p: spec_fn(u8) -> bool)
    requires
        0 <= from,
    ensures
        match first_match(s, from, p) {
            Some(i) => from <= i < s.len() && p(s[i]) && (forall|j: int|
                from <= j < i ==> !p(s[j])),
            None => forall|j: int| from <= j < s.len() ==> !p(s[j]),
        },
    decreases s.len() - from,
{
    if from < s.len() && !p(s[from]) {
        lemma_first_match(s, from + 1, p);
    }
}

/// An index that matches, and before which nothing matches, is the first.
pub proof fn lemma_first_match_unique(s: Seq<u8>, from: int, p: spec_fn(u8) -> bool, i: int)
    requires
        0 <= from <= i < s.len(),
        p(s[i]),
        forall|j: int| from <= j < i ==> !p(s[j]),
    ensures
        first_match(s, from, p) == Some(i),
    decreases i - from,
{
    if from < i {
        lemma_first_match_unique(s, from + 1, p, i);
    }
}

/// A match found in a prefix stays the first match of any extension.
pub proof fn lemma_first_match_extend(s: Seq<u8>, t: Seq<u8>, from: int, p: spec_fn(u8) -> bool)
    requires
        0 <= from,
        first_match(s, from, p) is Some,
    ensures
        first_match(s + t, from, p) == first_match(s, from, p),
{
    lemma_first_match(s, from, p);
    let i = first_match(s, from, p)->Some_0;
    assert((s + t)[i] == s[i]);
    assert(forall|j: int| from <= j < i ==> (s + t)[j] == s[j]);
    lemma_first_match_unique(s + t, from, p, i);
}

/// A resolved stream keeps its verdict under any extension: the frame is
/// settled by the bytes up to the fence.
pub proof fn lemma_verdict_extend(s: Seq<u8>, t: Seq<u8>)
    requires
        resolved(s),
    ensures
        resolved(s + t),
        frame_verdict(s + t) == frame_verdict(s),
{
    let u = s + t;
    lemma_first_match(s, 0, esc_pred());
    let st = scan_start(s)->Some_0;
    lemma_first_match_extend(s, t, 0, esc_pred());
    assert(scan_start(u) == Some(st));
    lemma_first_match_extend(s, t, st + 1, fence_pred());
    let f = scan_fence(s)->Some_0;
    assert(scan_fence(u) == Some(f));
    lemma_first_match(s, st + 1, fence_pred());
    match scan_end(s) {
        Some(e) => {
            lemma_first_match_extend(s, t, st + 1, term_pred());
            assert(scan_end(u) == Some(e));
            if e < f {
                lemma_first_match(s, st + 1, fence_pred());
                lemma_first_match(s, st + 1, term_pred());
                assert(forall|j: int| 0 <= j < s.len() ==> u[j] == s[j]);
                assert(ok_content(u) =~= ok_content(s));
            }
        },
        None => {
            lemma_first_match(s, st + 1, term_pred());
            match first_match(u, st + 1, term_pred()) {
                Some(e2) => {
                    lemma_first_match(u, st + 1, term_pred());
                    assert(forall|j: int| st + 1 <= j < s.len() ==> u[j] == s[j]);
                    assert(e2 >= s.len());
                    assert(f < s.len());
                    assert(!resolves_ok(u));
                },
                None => {
                    assert(!resolves_ok(u));
                },
            }
        },
    }
}

} // verus!
