//! In-memory byte sinks and sources.
//!
//! [`AsyncSliceWriter`] and [`AsyncSliceReader`] are bounded, always-ready
//! adapters over owned byte buffers.  [`ThrottledWriter`] and
//! [`ThrottledReader`] move at most one byte per call and suspend between
//! calls, which makes them a stress harness for resumption.

use vstd::prelude::*;

use crate::io::{AsyncBufRead, AsyncRead, AsyncWrite, Error, PollFlush, PollPeek, PollRead, PollWrite};

verus! {

/// A byte sink over a caller-chosen capacity that is always ready.
///
/// Should a write be attempted once the capacity is exhausted, an error of
/// [`Error::WriteZero`] is returned.
pub struct AsyncSliceWriter {
    buf: Vec<u8>,
    cap: usize,
    faults: Ghost<nat>,
}

impl AsyncSliceWriter {
    /// The total capacity this writer was created with.
    pub closed spec fn spec_capacity(&self) -> nat {
        self.cap as nat
    }

    /// Instantiate a writer with space for `cap` bytes.
    pub fn new(cap: usize) -> (r: AsyncSliceWriter)
        ensures
            r.written() == Seq::<u8>::empty(),
            r.spec_capacity() == cap,
    {
        AsyncSliceWriter { buf: Vec::new(), cap, faults: Ghost(0) }
    }

    /// The number of bytes written so far.
    pub fn bytes_written(&self) -> (r: usize)
        ensures
            r == self.written().len(),
    {
        self.buf.len()
    }

    /// The bytes written so far.
    pub fn as_written(&self) -> (r: &Vec<u8>)
        ensures
            r@ == self.written(),
    {
        &self.buf
    }

    /// Consume the writer and return the bytes written so far.
    pub fn into_written(self) -> (r: Vec<u8>)
        ensures
            r@ == self.written(),
    {
        self.buf
    }
}

impl AsyncWrite for AsyncSliceWriter {
    closed spec fn written(&self) -> Seq<u8> {
        self.buf@
    }

    closed spec fn faults(&self) -> nat {
        self.faults@
    }

    fn poll_write(&mut self, buf: &Vec<u8>, start: usize, end: usize) -> (r: PollWrite)
        ensures
            final(self).spec_capacity() == old(self).spec_capacity(),
            end == start ==> r == PollWrite::Ready(0),
            (end > start && old(self).written().len() >= old(self).spec_capacity()) ==> r == PollWrite::Error(Error::WriteZero),
            (end > start && old(self).written().len() < old(self).spec_capacity()) ==> (r matches PollWrite::Ready(n) && n == if end - start < old(self).spec_capacity() - old(self).written().len() {
                (end - start) as int
            } else {
                old(self).spec_capacity() - old(self).written().len()
            }),
    {
        let len = self.buf.len();
        let room = if len < self.cap { self.cap - len } else { 0 };
        if end == start {
            assert(old(self).buf@ + buf@.subrange(start as int, start as int) =~= old(self).buf@);
            PollWrite::Ready(0)
        } else if room == 0 {
            proof {
                self.faults@ = self.faults@ + 1;
            }
            PollWrite::Error(Error::WriteZero)
        } else {
            let n = if end - start < room { end - start } else { room };
            let stop = start + n;
            let mut j: usize = start;
            while j < stop
                invariant
                    start <= j <= stop,
                    stop == start + n,
                    stop <= end <= buf@.len(),
                    self.buf@ == old(self).buf@ + buf@.subrange(start as int, j as int),
                    self.cap == old(self).cap,
                    self.faults@ == old(self).faults@,
                decreases stop - j,
            {
                self.buf.push(buf[j]);
                j = j + 1;
                assert(buf@.subrange(start as int, j as int) == buf@.subrange(start as int, j - 1).push(buf@[j - 1]));
            }
            PollWrite::Ready(n)
        }
    }

    fn poll_flush(&mut self) -> (r: PollFlush)
        ensures
            r == PollFlush::Ready,
    {
        PollFlush::Ready
    }

    fn poll_close(&mut self) -> (r: PollFlush)
        ensures
            r == PollFlush::Ready,
    {
        PollFlush::Ready
    }
}

/// A byte source over an owned buffer that is always ready and never
/// acquires more data once the buffer is exhausted.
pub struct AsyncSliceReader {
    buf: Vec<u8>,
    cur: usize,
}

impl AsyncSliceReader {
    /// The reader's position, clipped to the end of its buffer.
    closed spec fn pos(&self) -> int {
        if self.cur <= self.buf@.len() {
            self.cur as int
        } else {
            self.buf@.len() as int
        }
    }

    /// Instantiate a reader over the provided bytes.
    pub fn new(buf: Vec<u8>) -> (r: AsyncSliceReader)
        ensures
            r.remaining() == buf@,
            r.stream_len() == buf@.len(),
    {
        AsyncSliceReader { buf, cur: 0 }
    }

    /// The total number of bytes this reader was created over.
    pub closed spec fn stream_len(&self) -> nat {
        self.buf@.len()
    }

    /// The number of bytes read so far.
    pub fn bytes_read(&self) -> (r: usize)
        ensures
            r == self.stream_len() - self.remaining().len(),
    {
        if self.cur <= self.buf.len() {
            self.cur
        } else {
            self.buf.len()
        }
    }
}

impl AsyncRead for AsyncSliceReader {
    closed spec fn remaining(&self) -> Seq<u8> {
        self.buf@.skip(self.pos())
    }

    closed spec fn faults(&self) -> nat {
        0
    }

    fn poll_read(&mut self, buf: &mut Vec<u8>, start: usize, end: usize) -> (r: PollRead)
        ensures
            final(self).stream_len() == old(self).stream_len(),
            r matches PollRead::Ready(n) && n == if old(self).remaining().len() < end - start {
                old(self).remaining().len() as int
            } else {
                (end - start) as int
            },
    {
        let len = self.buf.len();
        let base = if self.cur <= len { self.cur } else { len };
        self.cur = base;
        let avail = len - base;
        let want = end - start;
        let n = if avail < want { avail } else { want };
        let mut j: usize = 0;
        while j < n
            invariant
                j <= n,
                len == self.buf@.len(),
                self.cur <= self.buf@.len(),
                avail == self.buf@.len() - self.cur,
                n <= avail,
                start + n <= end <= buf@.len(),
                buf@.len() == old(buf)@.len(),
                self.buf@ == old(self).buf@,
                self.remaining() == old(self).remaining(),
                buf@ == old(buf)@.subrange(0, start as int) + self.remaining().take(j as int) + old(buf)@.subrange(start + j, old(buf)@.len() as int),
            decreases n - j,
        {
            let b = self.buf[self.cur + j];
            buf.set(start + j, b);
            j = j + 1;
            proof {
                let pre = old(buf)@.subrange(0, start as int) + self.remaining().take(j - 1) + old(buf)@.subrange(start + j - 1, old(buf)@.len() as int);
                let post = old(buf)@.subrange(0, start as int) + self.remaining().take(j as int) + old(buf)@.subrange(start + j, old(buf)@.len() as int);
                assert(self.remaining().take(j as int) == self.remaining().take(j - 1).push(self.buf@[self.cur + j - 1]));
                assert(pre.update(start + j - 1, b) =~= post);
            }
        }
        proof {
            assert(old(buf)@ =~= old(buf)@.subrange(0, start as int) + self.remaining().take(0) + old(buf)@.subrange(start as int, old(buf)@.len() as int));
        }
        self.cur = self.cur + n;
        proof {
            assert(self.remaining() =~= old(self).remaining().skip(n as int));
        }
        PollRead::Ready(n)
    }
}

impl AsyncBufRead for AsyncSliceReader {
    fn poll_peek(&mut self) -> (r: PollPeek)
        ensures
            final(self).stream_len() == old(self).stream_len(),
            r matches PollPeek::Ready(v) && v@ == old(self).remaining(),
    {
        let len = self.buf.len();
        let base = if self.cur <= len { self.cur } else { len };
        self.cur = base;
        let mut v: Vec<u8> = Vec::new();
        let mut j: usize = base;
        while j < self.buf.len()
            invariant
                base <= j <= self.buf@.len(),
                self.cur == base,
                base <= self.buf@.len(),
                self.buf@ == old(self).buf@,
                self.remaining() == old(self).remaining(),
                v@ == self.buf@.subrange(base as int, j as int),
            decreases self.buf@.len() - j,
        {
            v.push(self.buf[j]);
            j = j + 1;
            assert(self.buf@.subrange(base as int, j as int) == self.buf@.subrange(base as int, j - 1).push(self.buf@[j - 1]));
        }
        proof {
            assert(v@ =~= self.remaining().take(v@.len() as int));
        }
        PollPeek::Ready(v)
    }

    fn consume(&mut self, amt: usize)
        ensures
            final(self).stream_len() == old(self).stream_len(),
    {
        let len = self.buf.len();
        let base = if self.cur <= len { self.cur } else { len };
        self.cur = base + amt;
        proof {
            assert(self.remaining() =~= old(self).remaining().skip(amt as int));
        }
    }
}

/// A sink that accepts at most one byte per call and reports itself not
/// ready on every other call.
pub struct ThrottledWriter {
    inner: AsyncSliceWriter,
    ready: bool,
}

impl ThrottledWriter {
    /// Instantiate a throttled writer with space for `cap` bytes.
    pub fn new(cap: usize) -> (r: ThrottledWriter)
        ensures
            r.written() == Seq::<u8>::empty(),
    {
        ThrottledWriter { inner: AsyncSliceWriter::new(cap), ready: false }
    }

    /// The bytes written so far.
    pub fn as_written(&self) -> (r: &Vec<u8>)
        ensures
            r@ == self.written(),
    {
        self.inner.as_written()
    }

    /// Consume the writer and return the bytes written so far.
    pub fn into_written(self) -> (r: Vec<u8>)
        ensures
            r@ == self.written(),
    {
        self.inner.into_written()
    }
}

impl AsyncWrite for ThrottledWriter {
    closed spec fn written(&self) -> Seq<u8> {
        self.inner.written()
    }

    closed spec fn faults(&self) -> nat {
        self.inner.faults()
    }

    fn poll_write(&mut self, buf: &Vec<u8>, start: usize, end: usize) -> (r: PollWrite)
        ensures
            r matches PollWrite::Ready(n) ==> n <= 1,
    {
        if !self.ready {
            self.ready = true;
            PollWrite::Pending
        } else {
            self.ready = false;
            let stop = if end - start > 1 { start + 1 } else { end };
            self.inner.poll_write(buf, start, stop)
        }
    }

    fn poll_flush(&mut self) -> (r: PollFlush) {
        if !self.ready {
            self.ready = true;
            PollFlush::Pending
        } else {
            self.ready = false;
            self.inner.poll_flush()
        }
    }

    fn poll_close(&mut self) -> (r: PollFlush) {
        if !self.ready {
            self.ready = true;
            PollFlush::Pending
        } else {
            self.ready = false;
            self.inner.poll_close()
        }
    }
}

/// A source that produces at most one byte per call and reports itself not
/// ready on every other call.
pub struct ThrottledReader {
    inner: AsyncSliceReader,
    ready: bool,
}

impl ThrottledReader {
    /// Instantiate a throttled reader over the provided bytes.
    pub fn new(buf: Vec<u8>) -> (r: ThrottledReader)
        ensures
            r.remaining() == buf@,
    {
        ThrottledReader { inner: AsyncSliceReader::new(buf), ready: false }
    }
}

impl AsyncRead for ThrottledReader {
    closed spec fn remaining(&self) -> Seq<u8> {
        self.inner.remaining()
    }

    closed spec fn faults(&self) -> nat {
        self.inner.faults()
    }

    fn poll_read(&mut self, buf: &mut Vec<u8>, start: usize, end: usize) -> (r: PollRead)
        ensures
            r matches PollRead::Ready(n) ==> n <= 1,
    {
        if !self.ready {
            self.ready = true;
            PollRead::Pending
        } else {
            self.ready = false;
            let stop = if end - start > 1 { start + 1 } else { end };
            self.inner.poll_read(buf, start, stop)
        }
    }
}

impl AsyncBufRead for ThrottledReader {
    fn poll_peek(&mut self) -> (r: PollPeek) {
        if !self.ready {
            self.ready = true;
            PollPeek::Pending
        } else {
            self.ready = false;
            let r = self.inner.poll_peek();
            match r {
                PollPeek::Ready(v) => {
                    if v.len() > 1 {
                        let mut w: Vec<u8> = Vec::new();
                        w.push(v[0]);
                        proof {
                            assert(w@ =~= v@.take(1));
                            assert(v@.take(1) =~= self.remaining().take(1));
                        }
                        PollPeek::Ready(w)
                    } else {
                        PollPeek::Ready(v)
                    }
                },
                PollPeek::Pending => PollPeek::Pending,
                PollPeek::Error(e) => PollPeek::Error(e),
            }
        }
    }

    fn consume(&mut self, amt: usize) {
        self.inner.consume(amt);
    }
}

} // verus!
