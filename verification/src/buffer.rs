//! Resumable partial-I/O primitives over fixed byte windows.
//!
//! A [`BufferCursor`] tracks progress through a byte window held elsewhere;
//! a [`BufferState`] owns the window alongside its cursor.  Every
//! fixed-width codec drives one of these to push or pull its wire bytes,
//! one suspension at a time.

use vstd::prelude::*;

use crate::codec::{PollDecodeStatus, PollEncodeStatus};
use crate::io::{AsyncBufRead, AsyncRead, AsyncWrite, Error, PollPeek, PollRead, PollWrite};

verus! {

/// Retains the current index state into a serialization buffer.
///
/// `offset` is progress; `len` is the logical end of the window.  A window
/// of zero length marks the cursor as failed: it will not resume further.
pub struct BufferCursor {
    offset: usize,
    len: usize,
}

impl BufferCursor {
    /// The logical end of the window.
    pub closed spec fn spec_len(&self) -> nat {
        self.len as nat
    }

    /// The number of bytes processed so far.
    pub closed spec fn spec_offset(&self) -> nat {
        self.offset as nat
    }

    /// More bytes are expected to be processed.
    pub open spec fn spec_pending(&self) -> bool {
        self.spec_offset() < self.spec_len()
    }

    /// The cursor has been marked as failed.
    pub open spec fn spec_failed(&self) -> bool {
        self.spec_len() == 0
    }

    /// Instantiate a new cursor over the beginning of the provided buffer.
    pub fn new(buf: &Vec<u8>) -> (r: BufferCursor)
        ensures
            r.spec_offset() == 0,
            r.spec_len() == buf@.len(),
    {
        BufferCursor::with_len(buf.len())
    }

    /// Instantiate a new cursor for a window of the given length.
    pub fn with_len(len: usize) -> (r: BufferCursor)
        ensures
            r.spec_offset() == 0,
            r.spec_len() == len,
    {
        BufferCursor { offset: 0, len }
    }

    /// Return the length of the cursor's window.
    pub fn len(&self) -> (r: usize)
        ensures
            r == self.spec_len(),
    {
        self.len
    }

    /// Return whether the window is empty (which also marks failure).
    pub fn is_empty(&self) -> (r: bool)
        ensures
            r == (self.spec_len() == 0),
    {
        self.len == 0
    }

    /// Return whether more data is expected to be processed.
    pub fn is_pending(&self) -> (r: bool)
        ensures
            r == self.spec_pending(),
    {
        self.offset < self.len
    }

    /// Extend the window by `n` bytes.
    pub fn extend_len(&mut self, n: usize)
        requires
            old(self).spec_len() + n <= usize::MAX,
        ensures
            final(self).spec_len() == old(self).spec_len() + n,
            final(self).spec_offset() == old(self).spec_offset(),
    {
        self.len = self.len + n;
    }

    fn mark_as_error(&mut self)
        ensures
            final(self).spec_len() == 0,
            final(self).spec_offset() == 0,
    {
        self.offset = 0;
        self.len = 0;
    }

    /// Attempt to flush `data[offset..len]` to the sink, advancing the
    /// offset by however many bytes the sink accepts per attempt.
    ///
    /// A sink that accepts zero bytes is a hard failure; a sink that
    /// reports not-ready suspends with the current offset preserved.
    pub fn start_write<W: AsyncWrite>(&mut self, writer: &mut W, data: &Vec<u8>) -> (r: PollEncodeStatus<Error>)
        requires
            old(self).spec_pending(),
            old(self).spec_len() <= data@.len(),
        ensures
            match r {
                PollEncodeStatus::Fini => {
                    &&& final(self).spec_offset() == final(self).spec_len() == old(self).spec_len()
                    &&& final(writer).written() == old(writer).written() + data@.subrange(old(self).spec_offset() as int, old(self).spec_len() as int)
                },
                PollEncodeStatus::Pending => {
                    &&& final(self).spec_len() == old(self).spec_len()
                    &&& old(self).spec_offset() <= final(self).spec_offset() < final(self).spec_len()
                    &&& final(writer).written() == old(writer).written() + data@.subrange(old(self).spec_offset() as int, final(self).spec_offset() as int)
                },
                PollEncodeStatus::Error(e) => {
                    &&& final(self).spec_failed()
                    &&& (final(writer).faults() == old(writer).faults() ==> e == Error::WriteZero)
                    &&& exists|q: int|
                        #![trigger data@.subrange(old(self).spec_offset() as int, q)]
                        {
                            &&& old(self).spec_offset() <= q <= old(self).spec_len()
                            &&& final(writer).written() == old(writer).written() + data@.subrange(old(self).spec_offset() as int, q)
                        }
                },
            },
    {
        while self.offset < self.len
            invariant
                self.len == old(self).len,
                old(self).offset <= self.offset <= self.len,
                self.len <= data@.len(),
                writer.faults() == old(writer).faults(),
                writer.written() == old(writer).written() + data@.subrange(old(self).offset as int, self.offset as int),
            decreases self.len - self.offset,
        {
            let ghost mid = self.offset as int;
            match writer.poll_write(data, self.offset, self.len) {
                PollWrite::Ready(n) => {
                    if n == 0 {
                        proof {
                            assert(data@.subrange(mid, mid + 0) =~= Seq::<u8>::empty());
                            assert(old(writer).written() + data@.subrange(old(self).offset as int, mid) + Seq::<u8>::empty() =~= old(writer).written() + data@.subrange(old(self).offset as int, mid));
                            assert(data@.subrange(old(self).spec_offset() as int, mid) == data@.subrange(old(self).offset as int, mid));
                        }
                        self.mark_as_error();
                        return PollEncodeStatus::Error(crate::io::write_zero());
                    } else {
                        proof {
                            assert(data@.subrange(old(self).offset as int, mid) + data@.subrange(mid, mid + n) =~= data@.subrange(old(self).offset as int, mid + n));
                        }
                        self.offset = self.offset + n;
                    }
                },
                PollWrite::Pending => {
                    return PollEncodeStatus::Pending;
                },
                PollWrite::Error(e) => {
                    proof {
                        assert(writer.written() == old(writer).written() + data@.subrange(old(self).offset as int, mid));
                        assert(data@.subrange(old(self).spec_offset() as int, mid) == data@.subrange(old(self).offset as int, mid));
                    }
                    self.mark_as_error();
                    return PollEncodeStatus::Error(e);
                },
            }
        }
        PollEncodeStatus::Fini
    }

    /// Attempt to write all of the bytes in `data[offset..len]`, guarding
    /// against a window that outruns the data or was marked failed.
    pub fn write_remaining<W: AsyncWrite>(&mut self, writer: &mut W, data: &Vec<u8>) -> (r: PollEncodeStatus<Error>)
        requires
            old(self).spec_offset() <= old(self).spec_len(),
        ensures
            match r {
                PollEncodeStatus::Fini => {
                    &&& old(self).spec_len() != 0 && old(self).spec_len() <= data@.len()
                    &&& final(self).spec_offset() == final(self).spec_len() == old(self).spec_len()
                    &&& final(writer).written() == old(writer).written() + data@.subrange(old(self).spec_offset() as int, old(self).spec_len() as int)
                },
                PollEncodeStatus::Pending => {
                    &&& old(self).spec_len() <= data@.len()
                    &&& final(self).spec_len() == old(self).spec_len()
                    &&& old(self).spec_offset() <= final(self).spec_offset() < final(self).spec_len()
                    &&& final(writer).written() == old(writer).written() + data@.subrange(old(self).spec_offset() as int, final(self).spec_offset() as int)
                },
                PollEncodeStatus::Error(e) => {
                    &&& final(self).spec_failed()
                    &&& ((old(self).spec_len() == 0 || old(self).spec_len() > data@.len()) ==> (final(writer).written() == old(writer).written() && e == Error::InvalidInput))
                    &&& ((old(self).spec_len() != 0 && old(self).spec_len() <= data@.len() && final(writer).faults() == old(writer).faults()) ==> e == Error::WriteZero)
                    &&& (old(self).spec_len() <= data@.len() ==> exists|q: int|
                        #![trigger data@.subrange(old(self).spec_offset() as int, q)]
                        {
                            &&& old(self).spec_offset() <= q <= old(self).spec_len()
                            &&& final(writer).written() == old(writer).written() + data@.subrange(old(self).spec_offset() as int, q)
                        })
                },
            },
    {
        if self.len > data.len() || self.len == 0 {
            proof {
                if self.len == 0 {
                    assert(data@.subrange(old(self).offset as int, old(self).offset as int) =~= Seq::<u8>::empty());
                    assert(old(writer).written() + Seq::<u8>::empty() =~= old(writer).written());
                }
            }
            self.mark_as_error();
            PollEncodeStatus::Error(crate::io::invalid_input())
        } else if self.offset >= self.len {
            proof {
                assert(data@.subrange(old(self).offset as int, old(self).len as int) =~= Seq::<u8>::empty());
                assert(old(writer).written() + Seq::<u8>::empty() =~= old(writer).written());
            }
            PollEncodeStatus::Fini
        } else {
            self.start_write(writer, data)
        }
    }

    /// Attempt to fill `data[offset..len]` from the source, advancing the
    /// offset by however many bytes the source produces per attempt.
    ///
    /// A source that produces zero bytes before the window is full is a
    /// hard failure; one that reports not-ready suspends with the current
    /// offset preserved.
    pub fn start_read<R: AsyncRead>(&mut self, reader: &mut R, data: &mut Vec<u8>) -> (r: PollDecodeStatus<(), Error>)
        requires
            old(self).spec_pending(),
            old(self).spec_len() <= old(data)@.len(),
        ensures
            final(data)@.len() == old(data)@.len(),
            match r {
                PollDecodeStatus::Fini(_) => {
                    &&& final(self).spec_offset() == final(self).spec_len() == old(self).spec_len()
                    &&& old(self).spec_len() - old(self).spec_offset() <= old(reader).remaining().len()
                    &&& final(reader).remaining() == old(reader).remaining().skip(old(self).spec_len() - old(self).spec_offset())
                    &&& final(data)@ == old(data)@.subrange(0, old(self).spec_offset() as int) + old(reader).remaining().take(old(self).spec_len() - old(self).spec_offset()) + old(data)@.subrange(old(self).spec_len() as int, old(data)@.len() as int)
                },
                PollDecodeStatus::Pending => {
                    &&& final(self).spec_len() == old(self).spec_len()
                    &&& old(self).spec_offset() <= final(self).spec_offset() < final(self).spec_len()
                    &&& final(self).spec_offset() - old(self).spec_offset() <= old(reader).remaining().len()
                    &&& final(reader).remaining() == old(reader).remaining().skip(final(self).spec_offset() - old(self).spec_offset())
                    &&& final(data)@ == old(data)@.subrange(0, old(self).spec_offset() as int) + old(reader).remaining().take(final(self).spec_offset() - old(self).spec_offset()) + old(data)@.subrange(final(self).spec_offset() as int, old(data)@.len() as int)
                },
                PollDecodeStatus::Error(e) => {
                    &&& final(self).spec_failed()
                    &&& (final(reader).faults() == old(reader).faults() ==> (e == Error::UnexpectedEof && final(reader).remaining().len() == 0))
                    &&& exists|k: int|
                        #![trigger old(reader).remaining().skip(k)]
                        {
                            &&& 0 <= k < old(self).spec_len() - old(self).spec_offset()
                            &&& k <= old(reader).remaining().len()
                            &&& final(reader).remaining() == old(reader).remaining().skip(k)
                        }
                },
            },
    {
        while self.offset < self.len
            invariant
                self.len == old(self).len,
                old(self).offset <= self.offset <= self.len,
                self.len <= data@.len(),
                data@.len() == old(data)@.len(),
                reader.faults() == old(reader).faults(),
                self.offset - old(self).offset <= old(reader).remaining().len(),
                reader.remaining() == old(reader).remaining().skip(self.offset - old(self).offset),
                data@ == old(data)@.subrange(0, old(self).offset as int) + old(reader).remaining().take(self.offset - old(self).offset) + old(data)@.subrange(self.offset as int, old(data)@.len() as int),
            decreases self.len - self.offset,
        {
            let ghost consumed_before = self.offset - old(self).offset;
            let ghost data_before = data@;
            let ghost mid = self.offset as int;
            match reader.poll_read(data, self.offset, self.len) {
                PollRead::Ready(n) => {
                    if n == 0 {
                        proof {
                            assert(reader.remaining() == old(reader).remaining().skip(consumed_before));
                        }
                        self.mark_as_error();
                        return PollDecodeStatus::Error(crate::io::unexpected_eof());
                    } else {
                        proof {
                            let all = old(reader).remaining();
                            assert(all.skip(consumed_before).take(n as int) =~= all.subrange(consumed_before, consumed_before + n));
                            assert(all.skip(consumed_before).skip(n as int) =~= all.skip(consumed_before + n));
                        }
                        self.offset = self.offset + n;
                        proof {
                            let all = old(reader).remaining();
                            let k = self.offset - old(self).offset;
                            assert(data@ =~= old(data)@.subrange(0, old(self).offset as int) + all.take(k) + old(data)@.subrange(self.offset as int, old(data)@.len() as int)) by {
                                assert(data_before.subrange(0, mid) =~= old(data)@.subrange(0, old(self).offset as int) + all.take(consumed_before));
                                assert(data_before.subrange(mid + n, old(data)@.len() as int) =~= old(data)@.subrange(mid + n, old(data)@.len() as int));
                                assert(all.take(consumed_before) + all.subrange(consumed_before, consumed_before + n) =~= all.take(k));
                            }
                        }
                    }
                },
                PollRead::Pending => {
                    return PollDecodeStatus::Pending;
                },
                PollRead::Error(e) => {
                    proof {
                        assert(reader.remaining() == old(reader).remaining().skip(consumed_before));
                    }
                    self.mark_as_error();
                    return PollDecodeStatus::Error(e);
                },
            }
        }
        PollDecodeStatus::Fini(())
    }

    /// Attempt to read all remaining expected bytes into `data[offset..len]`,
    /// guarding against a window that outruns the data or was marked failed.
    pub fn read_remaining<R: AsyncRead>(&mut self, reader: &mut R, data: &mut Vec<u8>) -> (r: PollDecodeStatus<(), Error>)
        requires
            old(self).spec_offset() <= old(self).spec_len(),
        ensures
            final(data)@.len() == old(data)@.len(),
            match r {
                PollDecodeStatus::Fini(_) => {
                    &&& old(self).spec_len() != 0 && old(self).spec_len() <= old(data)@.len()
                    &&& final(self).spec_offset() == final(self).spec_len() == old(self).spec_len()
                    &&& old(self).spec_len() - old(self).spec_offset() <= old(reader).remaining().len()
                    &&& final(reader).remaining() == old(reader).remaining().skip(old(self).spec_len() - old(self).spec_offset())
                    &&& final(data)@ == old(data)@.subrange(0, old(self).spec_offset() as int) + old(reader).remaining().take(old(self).spec_len() - old(self).spec_offset()) + old(data)@.subrange(old(self).spec_len() as int, old(data)@.len() as int)
                },
                PollDecodeStatus::Pending => {
                    &&& old(self).spec_len() <= old(data)@.len()
                    &&& final(self).spec_len() == old(self).spec_len()
                    &&& old(self).spec_offset() <= final(self).spec_offset() < final(self).spec_len()
                    &&& final(self).spec_offset() - old(self).spec_offset() <= old(reader).remaining().len()
                    &&& final(reader).remaining() == old(reader).remaining().skip(final(self).spec_offset() - old(self).spec_offset())
                    &&& final(data)@ == old(data)@.subrange(0, old(self).spec_offset() as int) + old(reader).remaining().take(final(self).spec_offset() - old(self).spec_offset()) + old(data)@.subrange(final(self).spec_offset() as int, old(data)@.len() as int)
                },
                PollDecodeStatus::Error(e) => {
                    &&& final(self).spec_failed()
                    &&& ((old(self).spec_len() == 0 || old(self).spec_len() > old(data)@.len()) ==> (final(reader).remaining() == old(reader).remaining() && final(data)@ == old(data)@ && e == Error::InvalidInput))
                    &&& ((old(self).spec_len() != 0 && old(self).spec_len() <= old(data)@.len() && final(reader).faults() == old(reader).faults()) ==> (e == Error::UnexpectedEof && final(reader).remaining().len() == 0))
                    &&& exists|k: int|
                        #![trigger old(reader).remaining().skip(k)]
                        {
                            &&& 0 <= k <= old(reader).remaining().len()
                            &&& (old(self).spec_len() != 0 && old(self).spec_len() <= old(data)@.len() ==> old(self).spec_offset() + k < old(self).spec_len())
                            &&& final(reader).remaining() == old(reader).remaining().skip(k)
                        }
                },
            },
    {
        if self.len > data.len() || self.len == 0 {
            proof {
                assert(old(reader).remaining().skip(0) =~= old(reader).remaining());
                assert(exists|k: int|
                    #![trigger old(reader).remaining().skip(k)]
                    {
                        &&& 0 <= k <= old(reader).remaining().len()
                        &&& (old(self).spec_len() != 0 && old(self).spec_len() <= old(data)@.len() ==> old(self).spec_offset() + k < old(self).spec_len())
                        &&& old(reader).remaining() == old(reader).remaining().skip(k)
                    }) by {
                    assert(old(reader).remaining().skip(0) =~= old(reader).remaining());
                }
            }
            self.mark_as_error();
            PollDecodeStatus::Error(crate::io::invalid_input())
        } else if self.offset >= self.len {
            proof {
                assert(old(reader).remaining().skip(0) =~= old(reader).remaining());
                assert(old(data)@.subrange(0, old(self).offset as int) + old(reader).remaining().take(0) + old(data)@.subrange(old(self).len as int, old(data)@.len() as int) =~= old(data)@);
            }
            PollDecodeStatus::Fini(())
        } else {
            let r = self.start_read(reader, data);
            proof {
                match &r {
                    PollDecodeStatus::Error(_) => {
                        let k = choose|k: int|
                            #![trigger old(reader).remaining().skip(k)]
                            {
                                &&& 0 <= k < old(self).spec_len() - old(self).spec_offset()
                                &&& k <= old(reader).remaining().len()
                                &&& reader.remaining() == old(reader).remaining().skip(k)
                            };
                        assert(old(self).spec_offset() + k < old(self).spec_len());
                    },
                    _ => {},
                }
            }
            r
        }
    }

    /// Append the window's remaining expected bytes straight from the
    /// source's peeked bytes into a growable buffer, consuming only as many
    /// bytes as are still needed.
    pub fn fill_vec<R: AsyncRead + AsyncBufRead>(&mut self, reader: &mut R, data: &mut Vec<u8>) -> (r: PollDecodeStatus<(), Error>)
        requires
            old(self).spec_pending(),
        ensures
            match r {
                PollDecodeStatus::Fini(_) => {
                    &&& final(self).spec_offset() == final(self).spec_len() == old(self).spec_len()
                    &&& old(self).spec_len() - old(self).spec_offset() <= old(reader).remaining().len()
                    &&& final(reader).remaining() == old(reader).remaining().skip(old(self).spec_len() - old(self).spec_offset())
                    &&& final(data)@ == old(data)@ + old(reader).remaining().take(old(self).spec_len() - old(self).spec_offset())
                },
                PollDecodeStatus::Pending => {
                    &&& final(self).spec_len() == old(self).spec_len()
                    &&& old(self).spec_offset() <= final(self).spec_offset() < final(self).spec_len()
                    &&& final(self).spec_offset() - old(self).spec_offset() <= old(reader).remaining().len()
                    &&& final(reader).remaining() == old(reader).remaining().skip(final(self).spec_offset() - old(self).spec_offset())
                    &&& final(data)@ == old(data)@ + old(reader).remaining().take(final(self).spec_offset() - old(self).spec_offset())
                },
                PollDecodeStatus::Error(e) => {
                    &&& final(self).spec_failed()
                    &&& (final(reader).faults() == old(reader).faults() ==> (e == Error::UnexpectedEof && final(reader).remaining().len() == 0))
                    &&& exists|k: int|
                        #![trigger old(reader).remaining().skip(k)]
                        {
                            &&& 0 <= k < old(self).spec_len() - old(self).spec_offset()
                            &&& k <= old(reader).remaining().len()
                            &&& final(reader).remaining() == old(reader).remaining().skip(k)
                            &&& final(data)@ == old(data)@ + old(reader).remaining().take(k)
                        }
                },
            },
    {
        while self.offset < self.len
            invariant
                self.len == old(self).len,
                old(self).offset <= self.offset <= self.len,
                reader.faults() == old(reader).faults(),
                self.offset - old(self).offset <= old(reader).remaining().len(),
                reader.remaining() == old(reader).remaining().skip(self.offset - old(self).offset),
                data@ == old(data)@ + old(reader).remaining().take(self.offset - old(self).offset),
            decreases self.len - self.offset,
        {
            let ghost consumed_before = self.offset - old(self).offset;
            match reader.poll_peek() {
                PollPeek::Ready(peeked) => {
                    if peeked.len() == 0 {
                        proof {
                            assert(reader.remaining() == old(reader).remaining().skip(consumed_before));
                        }
                        self.mark_as_error();
                        return PollDecodeStatus::Error(crate::io::unexpected_eof());
                    } else {
                        let still = self.len - self.offset;
                        let n = if peeked.len() < still { peeked.len() } else { still };
                        let ghost data_mid = data@;
                        let mut i: usize = 0;
                        while i < n
                            invariant
                                i <= n,
                                n <= peeked@.len(),
                                data@ == data_mid + peeked@.take(i as int),
                            decreases n - i,
                        {
                            data.push(peeked[i]);
                            i = i + 1;
                            assert(peeked@.take(i as int) =~= peeked@.take(i - 1).push(peeked@[i - 1]));
                        }
                        reader.consume(n);
                        proof {
                            let all = old(reader).remaining();
                            assert(peeked@.take(n as int) =~= all.skip(consumed_before).take(n as int));
                            assert(all.skip(consumed_before).take(n as int) =~= all.subrange(consumed_before, consumed_before + n));
                            assert(all.take(consumed_before) + all.subrange(consumed_before, consumed_before + n) =~= all.take(consumed_before + n));
                            assert(all.skip(consumed_before).skip(n as int) =~= all.skip(consumed_before + n));
                            assert(data@ =~= old(data)@ + all.take(consumed_before + n));
                        }
                        self.offset = self.offset + n;
                    }
                },
                PollPeek::Pending => {
                    return PollDecodeStatus::Pending;
                },
                PollPeek::Error(e) => {
                    proof {
                        assert(reader.remaining() == old(reader).remaining().skip(consumed_before));
                    }
                    self.mark_as_error();
                    return PollDecodeStatus::Error(e);
                },
            }
        }
        PollDecodeStatus::Fini(())
    }
}

/// A fixed byte window owned together with the cursor that walks it.
///
/// Every fixed-width primitive codec holds one of these: the window is the
/// value's complete wire image on encode, or the bytes gathered so far on
/// decode.
pub struct BufferState {
    cur: BufferCursor,
    buf: Vec<u8>,
}

impl BufferState {
    /// The contents of the window.
    pub closed spec fn bytes(&self) -> Seq<u8> {
        self.buf@
    }

    /// The cursor tracking progress through the window.
    pub closed spec fn spec_cur(&self) -> BufferCursor {
        self.cur
    }

    /// Initialize a new buffer state with the contents of `buf`.
    pub fn with_contents(buf: Vec<u8>) -> (r: BufferState)
        ensures
            r.bytes() == buf@,
            r.spec_cur().spec_offset() == 0,
            r.spec_cur().spec_len() == buf@.len(),
    {
        let cur = BufferCursor::new(&buf);
        BufferState { cur, buf }
    }

    /// Initialize a new buffer state over the first `n` bytes of `buf`.
    pub fn with_partial_contents(buf: Vec<u8>, n: usize) -> (r: BufferState)
        requires
            n <= buf@.len(),
        ensures
            r.bytes() == buf@,
            r.spec_cur().spec_offset() == 0,
            r.spec_cur().spec_len() == n,
    {
        let cur = BufferCursor::with_len(n);
        BufferState { cur, buf }
    }

    /// Initialize a new buffer state with a zeroed window of length `len`.
    pub fn init(len: usize) -> (r: BufferState)
        ensures
            r.bytes() == Seq::<u8>::new(len as nat, |i: int| 0u8),
            r.spec_cur().spec_offset() == 0,
            r.spec_cur().spec_len() == len,
    {
        let mut buf: Vec<u8> = Vec::new();
        let mut i: usize = 0;
        while i < len
            invariant
                i <= len,
                buf@ =~= Seq::<u8>::new(i as nat, |j: int| 0u8),
            decreases len - i,
        {
            buf.push(0u8);
            i = i + 1;
            proof {
                assert(buf@ =~= Seq::<u8>::new(i as nat, |j: int| 0u8));
            }
        }
        Self::with_contents(buf)
    }

    /// Mark the window as failed; it will not resume further.
    pub fn abort(&mut self)
        ensures
            final(self).spec_cur().spec_failed(),
            final(self).spec_cur().spec_offset() == 0,
            final(self).bytes() == old(self).bytes(),
    {
        self.cur = BufferCursor::with_len(0);
    }

    /// Return the entire contents of the window.
    pub fn buffer(&self) -> (r: &Vec<u8>)
        ensures
            r@ == self.bytes(),
    {
        &self.buf
    }

    /// Return whether more data is expected to be processed.
    pub fn is_pending(&self) -> (r: bool)
        ensures
            r == self.spec_cur().spec_pending(),
    {
        self.cur.is_pending()
    }

    /// Return the length of the window.
    pub fn len(&self) -> (r: usize)
        ensures
            r == self.spec_cur().spec_len(),
    {
        self.cur.len()
    }

    /// Return whether the window is empty (which also marks failure).
    pub fn is_empty(&self) -> (r: bool)
        ensures
            r == (self.spec_cur().spec_len() == 0),
    {
        self.cur.is_empty()
    }

    /// Extend the window to accommodate `n` more bytes, clipped to the
    /// pre-allocated buffer.
    pub fn extend_len(&mut self, n: usize)
        requires
            old(self).spec_cur().spec_len() <= old(self).bytes().len(),
        ensures
            final(self).bytes() == old(self).bytes(),
            final(self).spec_cur().spec_offset() == old(self).spec_cur().spec_offset(),
            final(self).spec_cur().spec_len() == if old(self).spec_cur().spec_len() + n <= old(self).bytes().len() {
                old(self).spec_cur().spec_len() + n
            } else {
                old(self).bytes().len() as int
            },
    {
        let avail = self.buf.len() - self.cur.len();
        let add = if n < avail { n } else { avail };
        self.cur.extend_len(add);
    }

    /// Attempt to write the window's remaining bytes to the sink.
    pub fn start_write<W: AsyncWrite>(&mut self, writer: &mut W) -> (r: PollEncodeStatus<Error>)
        requires
            old(self).spec_cur().spec_pending(),
            old(self).spec_cur().spec_len() <= old(self).bytes().len(),
        ensures
            final(self).bytes() == old(self).bytes(),
            match r {
                PollEncodeStatus::Fini => {
                    &&& final(self).spec_cur().spec_offset() == final(self).spec_cur().spec_len() == old(self).spec_cur().spec_len()
                    &&& final(writer).written() == old(writer).written() + old(self).bytes().subrange(old(self).spec_cur().spec_offset() as int, old(self).spec_cur().spec_len() as int)
                },
                PollEncodeStatus::Pending => {
                    &&& final(self).spec_cur().spec_len() == old(self).spec_cur().spec_len()
                    &&& old(self).spec_cur().spec_offset() <= final(self).spec_cur().spec_offset() < final(self).spec_cur().spec_len()
                    &&& final(writer).written() == old(writer).written() + old(self).bytes().subrange(old(self).spec_cur().spec_offset() as int, final(self).spec_cur().spec_offset() as int)
                },
                PollEncodeStatus::Error(e) => {
                    &&& final(self).spec_cur().spec_failed()
                    &&& (final(writer).faults() == old(writer).faults() ==> e == Error::WriteZero)
                    &&& exists|q: int|
                        #![trigger old(self).bytes().subrange(old(self).spec_cur().spec_offset() as int, q)]
                        {
                            &&& old(self).spec_cur().spec_offset() <= q <= old(self).spec_cur().spec_len()
                            &&& final(writer).written() == old(writer).written() + old(self).bytes().subrange(old(self).spec_cur().spec_offset() as int, q)
                        }
                },
            },
    {
        self.cur.start_write(writer, &self.buf)
    }

    /// Attempt to write all remaining bytes from the window.
    pub fn write_remaining<W: AsyncWrite>(&mut self, writer: &mut W) -> (r: PollEncodeStatus<Error>)
        requires
            old(self).spec_cur().spec_offset() <= old(self).spec_cur().spec_len(),
        ensures
            final(self).bytes() == old(self).bytes(),
            match r {
                PollEncodeStatus::Fini => {
                    &&& old(self).spec_cur().spec_len() != 0 && old(self).spec_cur().spec_len() <= old(self).bytes().len()
                    &&& final(self).spec_cur().spec_offset() == final(self).spec_cur().spec_len() == old(self).spec_cur().spec_len()
                    &&& final(writer).written() == old(writer).written() + old(self).bytes().subrange(old(self).spec_cur().spec_offset() as int, old(self).spec_cur().spec_len() as int)
                },
                PollEncodeStatus::Pending => {
                    &&& old(self).spec_cur().spec_len() <= old(self).bytes().len()
                    &&& final(self).spec_cur().spec_len() == old(self).spec_cur().spec_len()
                    &&& old(self).spec_cur().spec_offset() <= final(self).spec_cur().spec_offset() < final(self).spec_cur().spec_len()
                    &&& final(writer).written() == old(writer).written() + old(self).bytes().subrange(old(self).spec_cur().spec_offset() as int, final(self).spec_cur().spec_offset() as int)
                },
                PollEncodeStatus::Error(e) => {
                    &&& final(self).spec_cur().spec_failed()
                    &&& ((old(self).spec_cur().spec_len() == 0 || old(self).spec_cur().spec_len() > old(self).bytes().len()) ==> (final(writer).written() == old(writer).written() && e == Error::InvalidInput))
                    &&& ((old(self).spec_cur().spec_len() != 0 && old(self).spec_cur().spec_len() <= old(self).bytes().len() && final(writer).faults() == old(writer).faults()) ==> e == Error::WriteZero)
                    &&& (old(self).spec_cur().spec_len() <= old(self).bytes().len() ==> exists|q: int|
                        #![trigger old(self).bytes().subrange(old(self).spec_cur().spec_offset() as int, q)]
                        {
                            &&& old(self).spec_cur().spec_offset() <= q <= old(self).spec_cur().spec_len()
                            &&& final(writer).written() == old(writer).written() + old(self).bytes().subrange(old(self).spec_cur().spec_offset() as int, q)
                        })
                },
            },
    {
        self.cur.write_remaining(writer, &self.buf)
    }

    /// Attempt to fill the window's remaining bytes from the source.
    pub fn start_read<R: AsyncRead>(&mut self, reader: &mut R) -> (r: PollDecodeStatus<(), Error>)
        requires
            old(self).spec_cur().spec_pending(),
            old(self).spec_cur().spec_len() <= old(self).bytes().len(),
        ensures
            final(self).bytes().len() == old(self).bytes().len(),
            match r {
                PollDecodeStatus::Fini(_) => {
                    &&& final(self).spec_cur().spec_offset() == final(self).spec_cur().spec_len() == old(self).spec_cur().spec_len()
                    &&& old(self).spec_cur().spec_len() - old(self).spec_cur().spec_offset() <= old(reader).remaining().len()
                    &&& final(reader).remaining() == old(reader).remaining().skip(old(self).spec_cur().spec_len() - old(self).spec_cur().spec_offset())
                    &&& final(self).bytes() == old(self).bytes().subrange(0, old(self).spec_cur().spec_offset() as int) + old(reader).remaining().take(old(self).spec_cur().spec_len() - old(self).spec_cur().spec_offset()) + old(self).bytes().subrange(old(self).spec_cur().spec_len() as int, old(self).bytes().len() as int)
                },
                PollDecodeStatus::Pending => {
                    &&& final(self).spec_cur().spec_len() == old(self).spec_cur().spec_len()
                    &&& old(self).spec_cur().spec_offset() <= final(self).spec_cur().spec_offset() < final(self).spec_cur().spec_len()
                    &&& final(self).spec_cur().spec_offset() - old(self).spec_cur().spec_offset() <= old(reader).remaining().len()
                    &&& final(reader).remaining() == old(reader).remaining().skip(final(self).spec_cur().spec_offset() - old(self).spec_cur().spec_offset())
                    &&& final(self).bytes() == old(self).bytes().subrange(0, old(self).spec_cur().spec_offset() as int) + old(reader).remaining().take(final(self).spec_cur().spec_offset() - old(self).spec_cur().spec_offset()) + old(self).bytes().subrange(final(self).spec_cur().spec_offset() as int, old(self).bytes().len() as int)
                },
                PollDecodeStatus::Error(e) => {
                    &&& final(self).spec_cur().spec_failed()
                    &&& (final(reader).faults() == old(reader).faults() ==> (e == Error::UnexpectedEof && final(reader).remaining().len() == 0))
                    &&& exists|k: int|
                        #![trigger old(reader).remaining().skip(k)]
                        {
                            &&& 0 <= k < old(self).spec_cur().spec_len() - old(self).spec_cur().spec_offset()
                            &&& k <= old(reader).remaining().len()
                            &&& final(reader).remaining() == old(reader).remaining().skip(k)
                        }
                },
            },
    {
        let BufferState { cur, buf } = self;
        cur.start_read(reader, buf)
    }

    /// Attempt to read all remaining expected bytes into the window.
    pub fn read_remaining<R: AsyncRead>(&mut self, reader: &mut R) -> (r: PollDecodeStatus<(), Error>)
        requires
            old(self).spec_cur().spec_offset() <= old(self).spec_cur().spec_len(),
        ensures
            final(self).bytes().len() == old(self).bytes().len(),
            match r {
                PollDecodeStatus::Fini(_) => {
                    &&& old(self).spec_cur().spec_len() != 0 && old(self).spec_cur().spec_len() <= old(self).bytes().len()
                    &&& final(self).spec_cur().spec_offset() == final(self).spec_cur().spec_len() == old(self).spec_cur().spec_len()
                    &&& old(self).spec_cur().spec_len() - old(self).spec_cur().spec_offset() <= old(reader).remaining().len()
                    &&& final(reader).remaining() == old(reader).remaining().skip(old(self).spec_cur().spec_len() - old(self).spec_cur().spec_offset())
                    &&& final(self).bytes() == old(self).bytes().subrange(0, old(self).spec_cur().spec_offset() as int) + old(reader).remaining().take(old(self).spec_cur().spec_len() - old(self).spec_cur().spec_offset()) + old(self).bytes().subrange(old(self).spec_cur().spec_len() as int, old(self).bytes().len() as int)
                },
                PollDecodeStatus::Pending => {
                    &&& old(self).spec_cur().spec_len() <= old(self).bytes().len()
                    &&& final(self).spec_cur().spec_len() == old(self).spec_cur().spec_len()
                    &&& old(self).spec_cur().spec_offset() <= final(self).spec_cur().spec_offset() < final(self).spec_cur().spec_len()
                    &&& final(self).spec_cur().spec_offset() - old(self).spec_cur().spec_offset() <= old(reader).remaining().len()
                    &&& final(reader).remaining() == old(reader).remaining().skip(final(self).spec_cur().spec_offset() - old(self).spec_cur().spec_offset())
                    &&& final(self).bytes() == old(self).bytes().subrange(0, old(self).spec_cur().spec_offset() as int) + old(reader).remaining().take(final(self).spec_cur().spec_offset() - old(self).spec_cur().spec_offset()) + old(self).bytes().subrange(final(self).spec_cur().spec_offset() as int, old(self).bytes().len() as int)
                },
                PollDecodeStatus::Error(e) => {
                    &&& final(self).spec_cur().spec_failed()
                    &&& ((old(self).spec_cur().spec_len() == 0 || old(self).spec_cur().spec_len() > old(self).bytes().len()) ==> (final(reader).remaining() == old(reader).remaining() && final(self).bytes() == old(self).bytes() && e == Error::InvalidInput))
                    &&& ((old(self).spec_cur().spec_len() != 0 && old(self).spec_cur().spec_len() <= old(self).bytes().len() && final(reader).faults() == old(reader).faults()) ==> (e == Error::UnexpectedEof && final(reader).remaining().len() == 0))
                    &&& exists|k: int|
                        #![trigger old(reader).remaining().skip(k)]
                        {
                            &&& 0 <= k <= old(reader).remaining().len()
                            &&& (old(self).spec_cur().spec_len() != 0 && old(self).spec_cur().spec_len() <= old(self).bytes().len() ==> old(self).spec_cur().spec_offset() + k < old(self).spec_cur().spec_len())
                            &&& final(reader).remaining() == old(reader).remaining().skip(k)
                        }
                },
            },
    {
        let BufferState { cur, buf } = self;
        cur.read_remaining(reader, buf)
    }
}

} // verus!
