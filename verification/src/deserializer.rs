//! The pull front end: a stream-like state machine that produces at most
//! one decoded item at a time, resuming a suspended decode where it left
//! off.

use vstd::prelude::*;

use crate::codec::{DecOutcome, Decode, PollDecodeStatus, StartDecodeStatus};
use crate::io::{AsyncBufRead, AsyncRead, Error};

verus! {

/// Creates a new [`Deserializer`] from the specified format and reader.
pub fn deserializer<F, R>(format: F, reader: R) -> (r: Deserializer<F, R>)
    ensures
        r.format == format,
        r.reader == reader,
{
    Deserializer::new(format, reader)
}

/// A wrapper type around a specific format and reader.
pub struct Deserializer<F, R> {
    /// The format used for decoding.
    pub format: F,
    /// The reader to pull encoded bytes from.
    pub reader: R,
}

impl<F, R> Deserializer<F, R> {
    /// Instantiates a new [`Deserializer`] from the format and reader.
    pub fn new(format: F, reader: R) -> (r: Deserializer<F, R>)
        ensures
            r.format == format,
            r.reader == reader,
    {
        Deserializer { format, reader }
    }

    /// Converts the [`Deserializer`] into a stream of items of one shape.
    pub fn into_stream<D: Decode>(self) -> (r: Deserialize<F, R, D>)
        where
            R: AsyncRead + AsyncBufRead,
        ensures
            r.is_ready_spec(),
            r.reader_remaining() == self.reader.remaining(),
            r.spec_format() == self.format,
    {
        Deserialize::new(self)
    }

    /// Deserializes a single value, polling the reader until one whole
    /// parse has been consumed or the poll budget runs out.
    ///
    /// A finished deserialize has consumed exactly one parse of the
    /// shape's wire grammar, and yields its observation, however often the
    /// reader suspended along the way.
    pub fn deserialize<D: Decode>(&mut self, max_polls: usize) -> (r: PollDecodeStatus<<D as Decode>::Data, Error>)
        where
            R: AsyncRead + AsyncBufRead,
        ensures
            final(self).format == old(self).format,
            match r {
                PollDecodeStatus::Fini(d) => exists|n: int|
                    #![trigger old(self).reader.remaining().take(n)]
                    {
                        &&& 0 <= n <= old(self).reader.remaining().len()
                        &&& final(self).reader.remaining() == old(self).reader.remaining().skip(n)
                        &&& D::decode_spec(old(self).reader.remaining().take(n)) == DecOutcome::Done(D::model(d), n)
                    },
                PollDecodeStatus::Pending => exists|n: int|
                    #![trigger old(self).reader.remaining().skip(n)]
                    {
                        &&& 0 <= n <= old(self).reader.remaining().len()
                        &&& final(self).reader.remaining() == old(self).reader.remaining().skip(n)
                    },
                PollDecodeStatus::Error(_) => true,
            },
    {
        let ghost all = old(self).reader.remaining();
        let mut dec = D::init();
        let mut polls: usize = 0;
        proof {
            assert(all.take(0) =~= Seq::<u8>::empty());
            assert(all.skip(0) =~= all);
        }
        while polls < max_polls
            invariant
                all == old(self).reader.remaining(),
                dec.wf(),
                !dec.done() && !dec.failed(),
                polls <= max_polls,
                self.format == old(self).format,
                exists|k: int|
                    #![trigger all.take(k)]
                    {
                        &&& 0 <= k <= all.len()
                        &&& self.reader.remaining() == all.skip(k)
                        &&& dec.taken() == all.take(k)
                    },
            decreases max_polls - polls,
        {
            let ghost t0 = dec.taken();
            let ghost mid = self.reader.remaining();
            let ghost k0 = choose|k: int|
                #![trigger all.take(k)]
                {
                    &&& 0 <= k <= all.len()
                    &&& self.reader.remaining() == all.skip(k)
                    &&& dec.taken() == all.take(k)
                };
            match dec.poll_decode(&mut self.reader) {
                PollDecodeStatus::Fini(d) => {
                    proof {
                        let n = choose|n: int|
                            #![trigger mid.take(n)]
                            {
                                &&& 0 <= n <= mid.len()
                                &&& self.reader.remaining() == mid.skip(n)
                                &&& D::decode_spec(t0.add(mid.take(n))) == DecOutcome::Done(D::model(d), t0.len() + n)
                            };
                        assert(mid.take(n) =~= all.subrange(k0, k0 + n));
                        assert(mid.skip(n) =~= all.skip(k0 + n));
                        assert(t0.add(all.subrange(k0, k0 + n)) =~= all.take(k0 + n));
                    }
                    return PollDecodeStatus::Fini(d);
                },
                PollDecodeStatus::Pending => {
                    proof {
                        let n = choose|n: int|
                            #![trigger mid.take(n)]
                            {
                                &&& 0 <= n <= mid.len()
                                &&& self.reader.remaining() == mid.skip(n)
                                &&& dec.taken() == t0.add(mid.take(n))
                            };
                        assert(mid.take(n) =~= all.subrange(k0, k0 + n));
                        assert(mid.skip(n) =~= all.skip(k0 + n));
                        assert(t0.add(all.subrange(k0, k0 + n)) =~= all.take(k0 + n));
                    }
                },
                PollDecodeStatus::Error(e) => {
                    return PollDecodeStatus::Error(e);
                },
            }
            polls = polls + 1;
        }
        proof {
            let k = choose|k: int|
                #![trigger all.take(k)]
                {
                    &&& 0 <= k <= all.len()
                    &&& self.reader.remaining() == all.skip(k)
                    &&& dec.taken() == all.take(k)
                };
            assert(self.reader.remaining() == old(self).reader.remaining().skip(k));
        }
        PollDecodeStatus::Pending
    }
}

/// The per-item state of a [`Deserialize`] stream.
pub enum StreamState<D: Decode> {
    /// The stream can begin decoding the next item.
    Ready,
    /// An item's decode is in flight.
    Pending(D),
    /// A failure happened; it is terminal.
    Error,
}

/// A stream-like state machine over a reader: at most one item's decode is
/// in flight at a time, resumed across suspensions until it completes.
pub struct Deserialize<F, R, D: Decode> {
    deserializer: Deserializer<F, R>,
    state: StreamState<D>,
}

impl<F, R: AsyncRead + AsyncBufRead, D: Decode> Deserialize<F, R, D> {
    /// The stream can begin decoding the next item.
    pub closed spec fn is_ready_spec(&self) -> bool {
        self.state is Ready
    }

    /// The stream failed; every later poll yields the error state.
    pub closed spec fn is_error_spec(&self) -> bool {
        self.state is Error
    }

    /// The bytes the underlying reader has not yet delivered.
    pub closed spec fn reader_remaining(&self) -> Seq<u8> {
        self.deserializer.reader.remaining()
    }

    /// The format this stream decodes with.
    pub closed spec fn spec_format(&self) -> F {
        self.deserializer.format
    }

    /// An item's decode is in flight.
    pub closed spec fn is_pending_spec(&self) -> bool {
        self.state is Pending
    }

    /// The bytes the in-flight decode has consumed so far.
    pub closed spec fn pending_taken(&self) -> Seq<u8> {
        self.state->Pending_0.taken()
    }

    /// The in-flight decode's state is consistent.
    pub closed spec fn inv(&self) -> bool {
        match &self.state {
            StreamState::Pending(dec) => dec.wf() && !dec.done() && !dec.failed(),
            _ => true,
        }
    }

    /// Instantiates a new stream for one shape from the given deserializer.
    pub fn new(deserializer: Deserializer<F, R>) -> (r: Self)
        ensures
            r.is_ready_spec(),
            r.inv(),
            r.reader_remaining() == deserializer.reader.remaining(),
            r.spec_format() == deserializer.format,
    {
        Deserialize { deserializer, state: StreamState::Ready }
    }

    /// Returns whether the stream is ready to begin another item.
    pub fn is_ready(&self) -> (r: bool)
        ensures
            r == self.is_ready_spec(),
    {
        match self.state {
            StreamState::Ready => true,
            _ => false,
        }
    }

    /// Consumes the stream and attempts to return the underlying
    /// deserializer; with an item still in flight, only the format is
    /// returned.
    pub fn try_into_inner(self) -> (r: Result<Deserializer<F, R>, F>)
        ensures
            self.is_ready_spec() <==> r is Ok,
            match r {
                Ok(d) => d.reader.remaining() == self.reader_remaining() && d.format == self.spec_format(),
                Err(f) => f == self.spec_format(),
            },
    {
        match self.state {
            StreamState::Ready => Ok(self.deserializer),
            _ => Err(self.deserializer.format),
        }
    }

    /// Make progress on the next item: begin a fresh decode from the ready
    /// state, or resume the in-flight one.  A produced item is one whole
    /// parse of the shape's wire grammar; a failure is terminal.
    pub fn poll_next(&mut self) -> (r: PollDecodeStatus<<D as Decode>::Data, Error>)
        requires
            old(self).inv(),
        ensures
            final(self).inv(),
            old(self).is_error_spec() ==> (r matches PollDecodeStatus::Error(e) && e == Error::InvalidInput && final(self).reader_remaining() == old(self).reader_remaining()),
            match r {
                PollDecodeStatus::Fini(d) => {
                    &&& !old(self).is_error_spec()
                    &&& final(self).is_ready_spec()
                    &&& (old(self).is_ready_spec() ==> exists|n: int|
                        #![trigger old(self).reader_remaining().take(n)]
                        {
                            &&& 0 <= n <= old(self).reader_remaining().len()
                            &&& final(self).reader_remaining() == old(self).reader_remaining().skip(n)
                            &&& D::decode_spec(old(self).reader_remaining().take(n)) == DecOutcome::Done(D::model(d), n)
                        })
                    &&& (old(self).is_pending_spec() ==> exists|n: int|
                        #![trigger old(self).reader_remaining().take(n)]
                        {
                            &&& 0 <= n <= old(self).reader_remaining().len()
                            &&& final(self).reader_remaining() == old(self).reader_remaining().skip(n)
                            &&& D::decode_spec(old(self).pending_taken().add(old(self).reader_remaining().take(n))) == DecOutcome::Done(D::model(d), old(self).pending_taken().len() + n)
                        })
                },
                PollDecodeStatus::Pending => {
                    &&& !old(self).is_error_spec()
                    &&& !final(self).is_ready_spec() && !final(self).is_error_spec()
                    &&& exists|n: int|
                        #![trigger old(self).reader_remaining().skip(n)]
                        {
                            &&& 0 <= n <= old(self).reader_remaining().len()
                            &&& final(self).reader_remaining() == old(self).reader_remaining().skip(n)
                        }
                },
                PollDecodeStatus::Error(e) => {
                    &&& final(self).is_error_spec()
                    &&& (old(self).is_error_spec() ==> (final(self).reader_remaining() == old(self).reader_remaining() && e == Error::InvalidInput))
                },
            },
    {
        let mut st = StreamState::Error;
        core::mem::swap(&mut self.state, &mut st);
        match st {
            StreamState::Ready => {
                let ghost all = self.deserializer.reader.remaining();
                match D::start_decode(&mut self.deserializer.reader) {
                    StartDecodeStatus::Fini(d) => {
                        self.state = StreamState::Ready;
                        proof {
                            let n = choose|n: int|
                                #![trigger all.take(n)]
                                {
                                    &&& 0 <= n <= all.len()
                                    &&& self.deserializer.reader.remaining() == all.skip(n)
                                    &&& D::decode_spec(all.take(n)) == DecOutcome::Done(D::model(d), n)
                                };
                            assert(0 <= n <= old(self).reader_remaining().len());
                            assert(self.reader_remaining() == old(self).reader_remaining().skip(n));
                            assert(D::decode_spec(old(self).reader_remaining().take(n)) == DecOutcome::Done(D::model(d), n));
                        }
                        PollDecodeStatus::Fini(d)
                    },
                    StartDecodeStatus::Pending(dec) => {
                        self.state = StreamState::Pending(dec);
                        proof {
                            let n = choose|n: int|
                                #![trigger all.take(n)]
                                {
                                    &&& 0 <= n <= all.len()
                                    &&& self.deserializer.reader.remaining() == all.skip(n)
                                    &&& dec.taken() == all.take(n)
                                };
                            assert(self.reader_remaining() == old(self).reader_remaining().skip(n));
                        }
                        PollDecodeStatus::Pending
                    },
                    StartDecodeStatus::Error(e) => {
                        self.state = StreamState::Error;
                        PollDecodeStatus::Error(e)
                    },
                }
            },
            StreamState::Pending(mut dec) => {
                let ghost all = self.deserializer.reader.remaining();
                let ghost t0 = dec.taken();
                match dec.poll_decode(&mut self.deserializer.reader) {
                    PollDecodeStatus::Fini(d) => {
                        self.state = StreamState::Ready;
                        PollDecodeStatus::Fini(d)
                    },
                    PollDecodeStatus::Pending => {
                        self.state = StreamState::Pending(dec);
                        proof {
                            let n = choose|n: int|
                                #![trigger all.take(n)]
                                {
                                    &&& 0 <= n <= all.len()
                                    &&& self.deserializer.reader.remaining() == all.skip(n)
                                    &&& dec.taken() == t0.add(all.take(n))
                                };
                            assert(self.reader_remaining() == old(self).reader_remaining().skip(n));
                        }
                        PollDecodeStatus::Pending
                    },
                    PollDecodeStatus::Error(e) => {
                        self.state = StreamState::Error;
                        PollDecodeStatus::Error(e)
                    },
                }
            },
            StreamState::Error => {
                self.state = StreamState::Error;
                PollDecodeStatus::Error(crate::io::invalid_input())
            },
        }
    }
}

} // verus!
