//! Non-blocking byte sink and source interfaces, and the error taxonomy
//! shared by every codec operation.

use vstd::prelude::*;

verus! {

/// The kinds of failure a codec operation can report.
///
/// `InvalidInput` marks a misuse of the codec protocol by the calling code,
/// while the remaining kinds describe problems with the byte stream itself.
#[derive(Debug, Clone, Copy, PartialEq, Eq, Structural)]
pub enum Error {
    /// The calling code misused the codec protocol.
    InvalidInput,
    /// The byte stream itself is invalid.
    InvalidData,
    /// The byte source ran out of bytes before a decode finished.
    UnexpectedEof,
    /// The byte sink accepted zero bytes for a pending write.
    WriteZero,
}

/// The error reported when an internal codec contract has been violated.
pub fn invalid_input() -> (e: Error)
    ensures
        e == Error::InvalidInput,
{
    Error::InvalidInput
}

/// The error reported when the decoded bytes violate a data contract.
pub fn invalid_data() -> (e: Error)
    ensures
        e == Error::InvalidData,
{
    Error::InvalidData
}

/// The error reported when a byte source ends before a decode finishes.
pub fn unexpected_eof() -> (e: Error)
    ensures
        e == Error::UnexpectedEof,
{
    Error::UnexpectedEof
}

/// The error reported when a byte sink makes no progress on a write.
pub fn write_zero() -> (e: Error)
    ensures
        e == Error::WriteZero,
{
    Error::WriteZero
}

/// The outcome of one write attempt against an [`AsyncWrite`] sink.
#[derive(Debug, Clone, Copy, PartialEq, Eq, Structural)]
pub enum PollWrite {
    /// The sink accepted this many bytes.
    Ready(usize),
    /// The sink cannot accept bytes right now.
    Pending,
    /// The sink failed.
    Error(Error),
}

/// The outcome of one read attempt against an [`AsyncRead`] source.
#[derive(Debug, Clone, Copy, PartialEq, Eq, Structural)]
pub enum PollRead {
    /// The source produced this many bytes; zero means end of input.
    Ready(usize),
    /// The source has no bytes right now, but may have some later.
    Pending,
    /// The source failed.
    Error(Error),
}

/// The outcome of one peek attempt against an [`AsyncBufRead`] source.
pub enum PollPeek {
    /// A copy of a prefix of the unread bytes; empty means end of input.
    Ready(Vec<u8>),
    /// The source has no bytes right now, but may have some later.
    Pending,
    /// The source failed.
    Error(Error),
}

/// The outcome of a flush or close attempt against an [`AsyncWrite`] sink.
#[derive(Debug, Clone, Copy, PartialEq, Eq, Structural)]
pub enum PollFlush {
    /// The operation completed.
    Ready,
    /// The sink cannot complete the operation right now.
    Pending,
    /// The sink failed.
    Error(Error),
}

/// A non-blocking byte sink: each write attempt accepts some bytes,
/// reports that it is not currently ready, or fails.
///
/// Whatever the sink's scheduling behaviour, the bytes it holds only ever
/// grow by exactly the bytes that a `poll_write` call handed over.
pub trait AsyncWrite: Sized {
    /// The bytes this sink has accepted so far, oldest first.
    spec fn written(&self) -> Seq<u8>;

    /// How many failures this sink has reported so far.  The count lets a
    /// caller's contract tell a failure the sink itself reported apart
    /// from one the caller detected.
    spec fn faults(&self) -> nat;

    /// Attempt to write `buf[start..end]`; any prefix may be accepted.
    ///
    /// Accepting zero bytes for a non-empty range signals that the sink is
    /// permanently out of space.
    fn poll_write(&mut self, buf: &Vec<u8>, start: usize, end: usize) -> (r: PollWrite)
        requires
            start <= end <= buf@.len(),
        ensures
            match r {
                PollWrite::Ready(n) => n <= end - start && final(self).written() == old(self).written() + buf@.subrange(start as int, start + n) && final(self).faults() == old(self).faults(),
                PollWrite::Pending => final(self).written() == old(self).written() && final(self).faults() == old(self).faults(),
                PollWrite::Error(_) => final(self).written() == old(self).written() && final(self).faults() == old(self).faults() + 1,
            },
    ;

    /// Attempt to flush the sink; the accepted bytes are unaffected.
    fn poll_flush(&mut self) -> (r: PollFlush)
        ensures
            final(self).written() == old(self).written(),
            final(self).faults() == if r is Error {
                old(self).faults() as int + 1
            } else {
                old(self).faults() as int
            },
    ;

    /// Attempt to close the sink; the accepted bytes are unaffected.
    fn poll_close(&mut self) -> (r: PollFlush)
        ensures
            final(self).written() == old(self).written(),
            final(self).faults() == if r is Error {
                old(self).faults() as int + 1
            } else {
                old(self).faults() as int
            },
    ;
}

/// A non-blocking byte source: each read attempt produces some bytes,
/// reports that it is not currently ready, or fails.
///
/// The source is committed to one stream of bytes: reads deliver exactly
/// the next unread bytes of that stream, in order.
pub trait AsyncRead: Sized {
    /// The bytes this source has not yet delivered, oldest first.
    spec fn remaining(&self) -> Seq<u8>;

    /// How many failures this source has reported so far.  The count lets
    /// a caller's contract tell a failure the source itself reported apart
    /// from one the caller detected.
    spec fn faults(&self) -> nat;

    /// Attempt to read into `buf[start..end]`; any non-empty count of bytes
    /// may be produced while any remain.
    ///
    /// Producing zero bytes for a non-empty range signals end of input.
    fn poll_read(&mut self, buf: &mut Vec<u8>, start: usize, end: usize) -> (r: PollRead)
        requires
            start <= end <= old(buf)@.len(),
        ensures
            final(buf)@.len() == old(buf)@.len(),
            match r {
                PollRead::Ready(n) => {
                    &&& final(self).faults() == old(self).faults()
                    &&& n <= end - start
                    &&& n <= old(self).remaining().len()
                    &&& (n == 0 ==> old(self).remaining().len() == 0 || end == start)
                    &&& final(buf)@ == old(buf)@.subrange(0, start as int) + old(self).remaining().take(n as int) + old(buf)@.subrange(start + n, old(buf)@.len() as int)
                    &&& final(self).remaining() == old(self).remaining().skip(n as int)
                },
                PollRead::Pending => final(self).remaining() == old(self).remaining() && final(buf)@ == old(buf)@ && final(self).faults() == old(self).faults(),
                PollRead::Error(_) => final(self).remaining() == old(self).remaining() && final(buf)@ == old(buf)@ && final(self).faults() == old(self).faults() + 1,
            },
    ;
}

/// A non-blocking byte source that can also hand out a copy of a prefix of
/// its unread bytes before they are consumed.
pub trait AsyncBufRead: AsyncRead {
    /// Attempt to look at the next unread bytes without consuming them.
    ///
    /// An empty prefix for a source that still holds bytes is not allowed:
    /// it signals end of input.
    fn poll_peek(&mut self) -> (r: PollPeek)
        ensures
            final(self).remaining() == old(self).remaining(),
            match r {
                PollPeek::Ready(v) => {
                    &&& final(self).faults() == old(self).faults()
                    &&& v@.len() <= old(self).remaining().len()
                    &&& v@ == old(self).remaining().take(v@.len() as int)
                    &&& (v@.len() == 0 ==> old(self).remaining().len() == 0)
                },
                PollPeek::Pending => final(self).faults() == old(self).faults(),
                PollPeek::Error(_) => final(self).faults() == old(self).faults() + 1,
            },
    ;

    /// Discard the next `amt` unread bytes, after a peek surfaced them.
    fn consume(&mut self, amt: usize)
        requires
            amt <= old(self).remaining().len(),
        ensures
            final(self).remaining() == old(self).remaining().skip(amt as int),
            final(self).faults() == old(self).faults(),
    ;
}

} // verus!
