use vstd::prelude::*;

verus! {

/// The failure taxonomy of a terminal query.
///
/// A caller distinguishes the kinds: `Timeout` and `NotAnOSCResponse` are the
/// normal "the terminal does not support this" outcomes, while the others
/// report genuine trouble with the exchange or its setup.
#[derive(Debug, PartialEq, Eq)]
pub enum XQError {
    /// The underlying wait, read or write failed; the message describes it.
    IO(String),
    /// The reply bytes are not valid UTF-8 text.
    Utf8,
    /// The reply was recognized but its content is malformed.
    WrongFormat(String),
    /// No input became ready within the timeout.
    Timeout,
    /// The terminal explicitly reported an error status code.
    TerminalError(i64),
    /// The platform wait primitive failed with the given errno.
    NixError(i32),
    /// The fence reply arrived before any frame terminator, or the input
    /// stream closed early: the query itself went unanswered.
    NotAnOSCResponse,
    /// The reply buffer filled completely before a frame resolved.
    BufferOverflow,
    /// The platform or the attached terminal cannot carry the query at all.
    Unsupported,
}

} // verus!
