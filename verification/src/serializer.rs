//! The push front end: a sink-like state machine that accepts at most one
//! item at a time and drives its encode to completion before accepting the
//! next, giving natural backpressure.

use vstd::prelude::*;

use crate::codec::{Encode, PollEncodeStatus};
use crate::io::{AsyncWrite, Error, PollFlush};

verus! {

/// Creates a new [`Serializer`] from the specified format and writer.
pub fn serializer<F, W>(format: F, writer: W) -> (r: Serializer<F, W>)
    ensures
        r.format == format,
        r.writer == writer,
{
    Serializer::new(format, writer)
}

/// A wrapper type around a specific format and writer.
pub struct Serializer<F, W> {
    /// The format used for encoding.
    pub format: F,
    /// The writer to push encoded bytes to.
    pub writer: W,
}

impl<F, W> Serializer<F, W> {
    /// Instantiates a new [`Serializer`] from the format and writer.
    pub fn new(format: F, writer: W) -> (r: Serializer<F, W>)
        ensures
            r.format == format,
            r.writer == writer,
    {
        Serializer { format, writer }
    }

    /// Converts the [`Serializer`] into a sink for items of one shape.
    pub fn into_sink<D: Encode>(self) -> (r: Serialize<F, W, D>)
        where
            W: AsyncWrite,
        ensures
            r.is_ready_spec(),
            r.writer_written() == self.writer.written(),
            r.spec_format() == self.format,
    {
        Serialize::new(self)
    }

    /// Serializes a single value, polling the writer until the whole wire
    /// image has been pushed or the poll budget runs out.
    ///
    /// A finished serialize has appended exactly the value's wire image to
    /// the writer, however often the writer suspended along the way.
    pub fn serialize<D: Encode>(&mut self, data: &<D as Encode>::Data, max_polls: usize) -> (r: PollEncodeStatus<Error>)
        where
            W: AsyncWrite,
        requires
            D::encodable(*data),
        ensures
            final(self).format == old(self).format,
            match r {
                PollEncodeStatus::Fini => final(self).writer.written() == old(self).writer.written() + D::encoding(*data),
                PollEncodeStatus::Pending => exists|p: int|
                    0 <= p <= D::encoding(*data).len() && final(self).writer.written() == old(self).writer.written() + #[trigger] D::encoding(*data).take(p),
                PollEncodeStatus::Error(_) => exists|p: int|
                    0 <= p <= D::encoding(*data).len() && final(self).writer.written() == old(self).writer.written() + #[trigger] D::encoding(*data).take(p),
            },
    {
        let mut enc = D::init(data);
        let mut polls: usize = 0;
        while polls < max_polls
            invariant
                D::encodable(*data),
                enc.wf(*data),
                !enc.done() && !enc.failed(),
                polls <= max_polls,
                self.format == old(self).format,
                self.writer.written() == old(self).writer.written() + D::encoding(*data).take(enc.progress(*data)),
                0 <= enc.progress(*data) <= D::encoding(*data).len(),
            decreases max_polls - polls,
        {
            let ghost p0 = enc.progress(*data);
            match enc.poll_encode(&mut self.writer, data) {
                PollEncodeStatus::Fini => {
                    proof {
                        assert(D::encoding(*data).take(p0) + D::encoding(*data).subrange(p0, D::encoding(*data).len() as int) =~= D::encoding(*data));
                        assert(old(self).writer.written() + D::encoding(*data).take(p0) + D::encoding(*data).subrange(p0, D::encoding(*data).len() as int) =~= old(self).writer.written() + D::encoding(*data));
                    }
                    return PollEncodeStatus::Fini;
                },
                PollEncodeStatus::Pending => {
                    proof {
                        let p1 = enc.progress(*data);
                        assert(D::encoding(*data).take(p0) + D::encoding(*data).subrange(p0, p1) =~= D::encoding(*data).take(p1));
                        assert(old(self).writer.written() + D::encoding(*data).take(p0) + D::encoding(*data).subrange(p0, p1) =~= old(self).writer.written() + D::encoding(*data).take(p1));
                    }
                },
                PollEncodeStatus::Error(e) => {
                    proof {
                        let p = choose|p: int|
                            #![trigger D::encoding(*data).subrange(p0, p)]
                            {
                                &&& p0 <= p <= D::encoding(*data).len()
                                &&& self.writer.written() == old(self).writer.written() + D::encoding(*data).take(p0) + D::encoding(*data).subrange(p0, p)
                            };
                        assert(D::encoding(*data).take(p0) + D::encoding(*data).subrange(p0, p) =~= D::encoding(*data).take(p));
                    }
                    return PollEncodeStatus::Error(e);
                },
            }
            polls = polls + 1;
        }
        PollEncodeStatus::Pending
    }
}

/// The per-item state of a [`Serialize`] sink.
pub enum SinkState<D: Encode> {
    /// The sink can accept the next item.
    Ready,
    /// An item is in flight: its encoder, and the item itself.
    Pending(D, <D as Encode>::Data),
    /// A failure happened; it is terminal.
    Error,
    /// The sink was closed.
    Closed,
}

/// A sink-like state machine over a writer: at most one item is in flight
/// at a time, and the next is only accepted once the previous has fully
/// drained.
pub struct Serialize<F, W, D: Encode> {
    serializer: Serializer<F, W>,
    state: SinkState<D>,
}

impl<F, W: AsyncWrite, D: Encode> Serialize<F, W, D> {
    /// The sink can accept the next item.
    pub closed spec fn is_ready_spec(&self) -> bool {
        self.state is Ready
    }

    /// The sink was closed.
    pub closed spec fn is_closed_spec(&self) -> bool {
        self.state is Closed
    }

    /// The sink failed; every later operation fails too.
    pub closed spec fn is_error_spec(&self) -> bool {
        self.state is Error
    }

    /// The bytes pushed to the underlying writer so far.
    pub closed spec fn writer_written(&self) -> Seq<u8> {
        self.serializer.writer.written()
    }

    /// The format this sink encodes with.
    pub closed spec fn spec_format(&self) -> F {
        self.serializer.format
    }

    /// An item is in flight.
    pub closed spec fn is_pending_spec(&self) -> bool {
        self.state is Pending
    }

    /// The in-flight item.
    pub closed spec fn pending_item(&self) -> <D as Encode>::Data {
        self.state->Pending_1
    }

    /// How many bytes of the in-flight item's wire image have been pushed.
    pub closed spec fn pending_progress(&self) -> int {
        self.state->Pending_0.progress(self.state->Pending_1)
    }

    /// The in-flight item's state is consistent with the item.
    pub closed spec fn inv(&self) -> bool {
        match &self.state {
            SinkState::Pending(enc, data) => {
                &&& D::encodable(*data)
                &&& enc.wf(*data) && !enc.done() && !enc.failed()
            },
            _ => true,
        }
    }

    /// Instantiates a new sink for one shape from the given serializer.
    pub fn new(serializer: Serializer<F, W>) -> (r: Self)
        ensures
            r.is_ready_spec(),
            r.inv(),
            r.writer_written() == serializer.writer.written(),
            r.spec_format() == serializer.format,
    {
        Serialize { serializer, state: SinkState::Ready }
    }

    /// Returns whether the sink is ready to accept another item.
    pub fn is_ready(&self) -> (r: bool)
        ensures
            r == self.is_ready_spec(),
    {
        match self.state {
            SinkState::Ready => true,
            _ => false,
        }
    }

    /// Consumes the sink and attempts to return the underlying serializer;
    /// with an item still in flight, only the format is returned.
    pub fn try_into_inner(self) -> (r: Result<Serializer<F, W>, F>)
        ensures
            self.is_ready_spec() <==> r is Ok,
            match r {
                Ok(s) => s.writer.written() == self.writer_written() && s.format == self.spec_format(),
                Err(f) => f == self.spec_format(),
            },
    {
        match self.state {
            SinkState::Ready => Ok(self.serializer),
            _ => Err(self.serializer.format),
        }
    }

    /// Reports ready once any prior item's encode has fully drained; a
    /// not-ready writer suspends the drain where it stands.
    pub fn poll_ready(&mut self) -> (r: PollEncodeStatus<Error>)
        requires
            old(self).inv(),
        ensures
            final(self).inv(),
            (old(self).is_ready_spec() || old(self).is_closed_spec()) ==> r is Fini,
            old(self).is_ready_spec() ==> final(self).is_ready_spec(),
            old(self).is_closed_spec() ==> final(self).is_closed_spec(),
            old(self).is_error_spec() ==> r is Error,
            match r {
                PollEncodeStatus::Fini => {
                    &&& final(self).is_ready_spec() || final(self).is_closed_spec()
                    &&& (old(self).is_ready_spec() || old(self).is_closed_spec() ==> final(self).writer_written() == old(self).writer_written())
                    &&& (old(self).is_pending_spec() ==> final(self).is_ready_spec() && final(self).writer_written() == old(self).writer_written() + D::encoding(old(self).pending_item()).subrange(old(self).pending_progress(), D::encoding(old(self).pending_item()).len() as int))
                },
                PollEncodeStatus::Pending => {
                    &&& old(self).is_pending_spec() && final(self).is_pending_spec()
                    &&& final(self).pending_item() == old(self).pending_item()
                    &&& old(self).pending_progress() <= final(self).pending_progress() <= D::encoding(old(self).pending_item()).len()
                    &&& final(self).writer_written() == old(self).writer_written() + D::encoding(old(self).pending_item()).subrange(old(self).pending_progress(), final(self).pending_progress())
                },
                PollEncodeStatus::Error(e) => {
                    &&& final(self).is_error_spec()
                    &&& (old(self).is_error_spec() ==> (final(self).writer_written() == old(self).writer_written() && e == Error::InvalidInput))
                },
            },
    {
        let mut st = SinkState::Error;
        core::mem::swap(&mut self.state, &mut st);
        match st {
            SinkState::Ready => {
                self.state = SinkState::Ready;
                PollEncodeStatus::Fini
            },
            SinkState::Pending(mut enc, data) => {
                match enc.poll_encode(&mut self.serializer.writer, &data) {
                    PollEncodeStatus::Fini => {
                        self.state = SinkState::Ready;
                        PollEncodeStatus::Fini
                    },
                    PollEncodeStatus::Pending => {
                        self.state = SinkState::Pending(enc, data);
                        PollEncodeStatus::Pending
                    },
                    PollEncodeStatus::Error(e) => {
                        self.state = SinkState::Error;
                        PollEncodeStatus::Error(e)
                    },
                }
            },
            SinkState::Error => {
                self.state = SinkState::Error;
                PollEncodeStatus::Error(crate::io::invalid_input())
            },
            SinkState::Closed => {
                self.state = SinkState::Closed;
                PollEncodeStatus::Fini
            },
        }
    }

    /// Accept the next item, valid only from the ready state; the item's
    /// encoder is initialized and the sink transitions to pending.
    pub fn start_send(&mut self, item: <D as Encode>::Data) -> (r: Result<(), Error>)
        requires
            old(self).inv(),
            D::encodable(item),
        ensures
            final(self).inv(),
            final(self).writer_written() == old(self).writer_written(),
            match r {
                Ok(()) => {
                    &&& old(self).is_ready_spec()
                    &&& final(self).is_pending_spec()
                    &&& final(self).pending_item() == item
                    &&& final(self).pending_progress() == 0
                },
                Err(e) => !old(self).is_ready_spec() && *final(self) == *old(self) && e == Error::InvalidInput,
            },
    {
        let mut st = SinkState::Error;
        core::mem::swap(&mut self.state, &mut st);
        match st {
            SinkState::Ready => {
                let enc = D::init(&item);
                self.state = SinkState::Pending(enc, item);
                Ok(())
            },
            other => {
                self.state = other;
                Err(crate::io::invalid_input())
            },
        }
    }

    /// Flush the underlying writer, draining any in-flight item first.
    ///
    /// Any failure at any stage is terminal.
    pub fn poll_flush(&mut self) -> (r: PollFlush)
        requires
            old(self).inv(),
        ensures
            final(self).inv(),
            old(self).is_error_spec() ==> (r matches PollFlush::Error(e) && e == Error::InvalidInput && final(self).writer_written() == old(self).writer_written()),
            match r {
                PollFlush::Ready => {
                    &&& final(self).is_ready_spec() || final(self).is_closed_spec()
                    &&& (old(self).is_ready_spec() || old(self).is_closed_spec() ==> final(self).writer_written() == old(self).writer_written())
                    &&& (old(self).is_pending_spec() ==> final(self).writer_written() == old(self).writer_written() + D::encoding(old(self).pending_item()).subrange(old(self).pending_progress(), D::encoding(old(self).pending_item()).len() as int))
                },
                PollFlush::Pending => {
                    &&& !final(self).is_error_spec()
                    &&& (old(self).is_ready_spec() || old(self).is_closed_spec() ==> final(self).writer_written() == old(self).writer_written())
                    &&& (old(self).is_pending_spec() && final(self).is_pending_spec() ==> {
                        &&& final(self).pending_item() == old(self).pending_item()
                        &&& old(self).pending_progress() <= final(self).pending_progress() <= D::encoding(old(self).pending_item()).len()
                        &&& final(self).writer_written() == old(self).writer_written() + D::encoding(old(self).pending_item()).subrange(old(self).pending_progress(), final(self).pending_progress())
                    })
                    &&& (old(self).is_pending_spec() && !final(self).is_pending_spec() ==> final(self).writer_written() == old(self).writer_written() + D::encoding(old(self).pending_item()).subrange(old(self).pending_progress(), D::encoding(old(self).pending_item()).len() as int))
                },
                PollFlush::Error(_) => final(self).is_error_spec(),
            },
    {
        match self.poll_ready() {
            PollEncodeStatus::Fini => {
                match self.serializer.writer.poll_flush() {
                    PollFlush::Ready => {
                        return PollFlush::Ready;
                    },
                    PollFlush::Pending => {
                        return PollFlush::Pending;
                    },
                    PollFlush::Error(e) => {
                        self.state = SinkState::Error;
                        return PollFlush::Error(e);
                    },
                }
            },
            PollEncodeStatus::Pending => {
                return PollFlush::Pending;
            },
            PollEncodeStatus::Error(e) => {
                return PollFlush::Error(e);
            },
        }
    }

    /// Close the sink, draining any in-flight item and closing the
    /// underlying writer first; any failure at any stage is terminal.
    pub fn poll_close(&mut self) -> (r: PollFlush)
        requires
            old(self).inv(),
        ensures
            final(self).inv(),
            old(self).is_error_spec() ==> (r matches PollFlush::Error(e) && e == Error::InvalidInput && final(self).writer_written() == old(self).writer_written()),
            match r {
                PollFlush::Ready => {
                    &&& final(self).is_closed_spec()
                    &&& (old(self).is_ready_spec() || old(self).is_closed_spec() ==> final(self).writer_written() == old(self).writer_written())
                    &&& (old(self).is_pending_spec() ==> final(self).writer_written() == old(self).writer_written() + D::encoding(old(self).pending_item()).subrange(old(self).pending_progress(), D::encoding(old(self).pending_item()).len() as int))
                },
                PollFlush::Pending => {
                    &&& !final(self).is_error_spec()
                    &&& (old(self).is_ready_spec() || old(self).is_closed_spec() ==> final(self).writer_written() == old(self).writer_written())
                    &&& (old(self).is_pending_spec() && final(self).is_pending_spec() ==> {
                        &&& final(self).pending_item() == old(self).pending_item()
                        &&& old(self).pending_progress() <= final(self).pending_progress() <= D::encoding(old(self).pending_item()).len()
                        &&& final(self).writer_written() == old(self).writer_written() + D::encoding(old(self).pending_item()).subrange(old(self).pending_progress(), final(self).pending_progress())
                    })
                    &&& (old(self).is_pending_spec() && !final(self).is_pending_spec() ==> final(self).writer_written() == old(self).writer_written() + D::encoding(old(self).pending_item()).subrange(old(self).pending_progress(), D::encoding(old(self).pending_item()).len() as int))
                },
                PollFlush::Error(_) => final(self).is_error_spec(),
            },
    {
        match self.poll_ready() {
            PollEncodeStatus::Fini => {
                match self.serializer.writer.poll_close() {
                    PollFlush::Ready => {
                        self.state = SinkState::Closed;
                        return PollFlush::Ready;
                    },
                    PollFlush::Pending => {
                        return PollFlush::Pending;
                    },
                    PollFlush::Error(e) => {
                        self.state = SinkState::Error;
                        return PollFlush::Error(e);
                    },
                }
            },
            PollEncodeStatus::Pending => {
                return PollFlush::Pending;
            },
            PollEncodeStatus::Error(e) => {
                return PollFlush::Error(e);
            },
        }
    }
}

} // verus!
