//! The resumable codec for two-field aggregates: the field chain pattern
//! in its smallest form.
//!
//! The first field is encoded or decoded before the second; a suspension
//! mid-second-field retains the already-decoded first field in the partial
//! accumulator until the second completes, and the pair is produced
//! atomically.  Map entries are exactly such pairs: key before value.

use vstd::prelude::*;

use crate::codec::{AsyncSerialization, DecOutcome, Decode, Encode, Format, PollDecodeStatus, PollEncodeStatus, StartDecodeStatus, StartEncodeStatus, round_trips};
use crate::io::{AsyncBufRead, AsyncRead, AsyncWrite, Error};

verus! {

/// The resumable encoder for a two-field aggregate.
pub enum PairEncode<EA: Encode, EB: Encode> {
    /// No poll has happened yet.
    Init,
    /// The first field is being emitted.
    F0(EA),
    /// The second field is being emitted.
    F1(EB),
    /// The encode completed.
    Fini,
    /// The encode failed, or was polled after completion.
    Failed,
}

impl<EA: Encode, EB: Encode> PairEncode<EA, EB> {
    /// Emit the second field, the first having been fully emitted.
    fn after_first<W: AsyncWrite>(writer: &mut W, data: &(<EA as Encode>::Data, <EB as Encode>::Data)) -> (r: StartEncodeStatus<Self, Error>)
        requires
            Self::encodable(*data),
        ensures
            match r {
                StartEncodeStatus::Fini => final(writer).written() == old(writer).written() + EB::encoding(data.1),
                StartEncodeStatus::Pending(s) => {
                    &&& s.wf(*data) && !s.done() && !s.failed()
                    &&& EA::encoding(data.0).len() <= s.progress(*data) <= Self::encoding(*data).len()
                    &&& final(writer).written() == old(writer).written() + Self::encoding(*data).subrange(EA::encoding(data.0).len() as int, s.progress(*data))
                },
                StartEncodeStatus::Error(e) => exists|p: int|
                    #![trigger Self::encoding(*data).subrange(EA::encoding(data.0).len() as int, p)]
                    {
                        &&& EA::encoding(data.0).len() <= p <= Self::encoding(*data).len()
                        &&& final(writer).written() == old(writer).written() + Self::encoding(*data).subrange(EA::encoding(data.0).len() as int, p)
                    },
            },
    {
        let ghost enc = Self::encoding(*data);
        let ghost a_len = EA::encoding(data.0).len() as int;
        let r = EB::start_encode(writer, &data.1);
        proof {
            if let StartEncodeStatus::Pending(s) = &r {
                assert(enc.subrange(a_len, a_len + s.progress(data.1)) =~= EB::encoding(data.1).take(s.progress(data.1)));
            }
            if r is Error {
                let p = choose|p: int|
                    #![trigger EB::encoding(data.1).take(p)]
                    {
                        &&& 0 <= p <= EB::encoding(data.1).len()
                        &&& writer.written() == old(writer).written() + EB::encoding(data.1).take(p)
                    };
                assert(enc.subrange(a_len, a_len + p) =~= EB::encoding(data.1).take(p));
            }
        }
        r.map_pending(|s: EB| -> (out: Self)
            ensures
                out == Self::F1(s),
            { Self::F1(s) })
    }

    /// Begin the whole encode: the first field, then the second.
    fn after_init<W: AsyncWrite>(writer: &mut W, data: &(<EA as Encode>::Data, <EB as Encode>::Data)) -> (r: StartEncodeStatus<Self, Error>)
        requires
            Self::encodable(*data),
        ensures
            match r {
                StartEncodeStatus::Fini => final(writer).written() == old(writer).written() + Self::encoding(*data),
                StartEncodeStatus::Pending(s) => {
                    &&& s.wf(*data) && !s.done() && !s.failed()
                    &&& 0 <= s.progress(*data) <= Self::encoding(*data).len()
                    &&& final(writer).written() == old(writer).written() + Self::encoding(*data).take(s.progress(*data))
                },
                StartEncodeStatus::Error(e) => exists|p: int|
                    #![trigger Self::encoding(*data).take(p)]
                    {
                        &&& 0 <= p <= Self::encoding(*data).len()
                        &&& final(writer).written() == old(writer).written() + Self::encoding(*data).take(p)
                    },
            },
    {
        let ghost enc = Self::encoding(*data);
        let ghost a_enc = EA::encoding(data.0);
        match EA::start_encode(writer, &data.0) {
            StartEncodeStatus::Fini => {
                let r = Self::after_first(writer, data);
                proof {
                    match &r {
                        StartEncodeStatus::Fini => {
                            assert(old(writer).written() + a_enc + EB::encoding(data.1) =~= old(writer).written() + enc);
                        },
                        StartEncodeStatus::Pending(s) => {
                            assert(old(writer).written() + a_enc + enc.subrange(a_enc.len() as int, s.progress(*data)) =~= old(writer).written() + enc.take(s.progress(*data))) by {
                                assert(a_enc =~= enc.take(a_enc.len() as int));
                                assert(enc.take(a_enc.len() as int) + enc.subrange(a_enc.len() as int, s.progress(*data)) =~= enc.take(s.progress(*data)));
                            }
                        },
                        StartEncodeStatus::Error(e) => {
                            let p = choose|p: int|
                                #![trigger enc.subrange(a_enc.len() as int, p)]
                                {
                                    &&& a_enc.len() <= p <= enc.len()
                                    &&& writer.written() == old(writer).written() + a_enc + enc.subrange(a_enc.len() as int, p)
                                };
                            assert(old(writer).written() + a_enc + enc.subrange(a_enc.len() as int, p) =~= old(writer).written() + enc.take(p)) by {
                                assert(a_enc =~= enc.take(a_enc.len() as int));
                                assert(enc.take(a_enc.len() as int) + enc.subrange(a_enc.len() as int, p) =~= enc.take(p));
                            }
                        },
                    }
                }
                r
            },
            StartEncodeStatus::Pending(s) => {
                proof {
                    assert(a_enc.take(s.progress(data.0)) =~= enc.take(s.progress(data.0))) by {
                        assert(a_enc =~= enc.take(a_enc.len() as int));
                    }
                }
                StartEncodeStatus::Pending(Self::F0(s))
            },
            StartEncodeStatus::Error(e) => {
                proof {
                    let p = choose|p: int|
                        #![trigger a_enc.take(p)]
                        {
                            &&& 0 <= p <= a_enc.len()
                            &&& writer.written() == old(writer).written() + a_enc.take(p)
                        };
                    assert(a_enc.take(p) =~= enc.take(p)) by {
                        assert(a_enc =~= enc.take(a_enc.len() as int));
                    }
                }
                StartEncodeStatus::Error(e)
            },
        }
    }
}

impl<EA: Encode, EB: Encode> Encode for PairEncode<EA, EB> {
    type Data = (<EA as Encode>::Data, <EB as Encode>::Data);

    open spec fn encoding(data: (<EA as Encode>::Data, <EB as Encode>::Data)) -> Seq<u8> {
        EA::encoding(data.0) + EB::encoding(data.1)
    }

    open spec fn encodable(data: (<EA as Encode>::Data, <EB as Encode>::Data)) -> bool {
        EA::encodable(data.0) && EB::encodable(data.1)
    }

    closed spec fn progress(&self, data: (<EA as Encode>::Data, <EB as Encode>::Data)) -> int {
        match self {
            PairEncode::Init => 0,
            PairEncode::F0(sub) => sub.progress(data.0),
            PairEncode::F1(sub) => EA::encoding(data.0).len() as int + sub.progress(data.1),
            PairEncode::Fini => Self::encoding(data).len() as int,
            PairEncode::Failed => 0,
        }
    }

    closed spec fn wf(&self, data: (<EA as Encode>::Data, <EB as Encode>::Data)) -> bool {
        match self {
            PairEncode::Init => true,
            PairEncode::F0(sub) => sub.wf(data.0) && !sub.done() && !sub.failed(),
            PairEncode::F1(sub) => sub.wf(data.1) && !sub.done() && !sub.failed(),
            PairEncode::Fini => true,
            PairEncode::Failed => true,
        }
    }

    closed spec fn done(&self) -> bool {
        self is Fini
    }

    closed spec fn failed(&self) -> bool {
        self is Failed
    }

    proof fn lemma_progress_bounds(&self, data: (<EA as Encode>::Data, <EB as Encode>::Data)) {
        match self {
            PairEncode::F0(sub) => {
                sub.lemma_progress_bounds(data.0);
            },
            PairEncode::F1(sub) => {
                sub.lemma_progress_bounds(data.1);
            },
            _ => {},
        }
    }

    fn init(data: &(<EA as Encode>::Data, <EB as Encode>::Data)) -> (e: Self) {
        PairEncode::Init
    }

    #[verifier::rlimit(100)]
    #[verifier::spinoff_prover]
    fn poll_encode<W: AsyncWrite>(&mut self, writer: &mut W, data: &(<EA as Encode>::Data, <EB as Encode>::Data)) -> (r: PollEncodeStatus<Error>) {
        let ghost enc = Self::encoding(*data);
        let ghost a_enc = EA::encoding(data.0);
        let mut st = Self::Failed;
        core::mem::swap(self, &mut st);
        match st {
            PairEncode::Init => {
                match Self::after_init(writer, data) {
                    StartEncodeStatus::Fini => {
                        *self = Self::Fini;
                        proof {
                            assert(enc.subrange(0, enc.len() as int) =~= enc);
                        }
                        PollEncodeStatus::Fini
                    },
                    StartEncodeStatus::Pending(s) => {
                        proof {
                            assert(enc.take(s.progress(*data)) =~= enc.subrange(0, s.progress(*data)));
                        }
                        *self = s;
                        PollEncodeStatus::Pending
                    },
                    StartEncodeStatus::Error(e) => {
                        *self = Self::Failed;
                        proof {
                            let p = choose|p: int|
                                #![trigger enc.take(p)]
                                {
                                    &&& 0 <= p <= enc.len()
                                    &&& writer.written() == old(writer).written() + enc.take(p)
                                };
                            assert(enc.take(p) =~= enc.subrange(0, p));
                            assert(old(self).progress(*data) == 0);
                            assert(exists|p2: int|
                                #![trigger Self::encoding(*data).subrange(old(self).progress(*data), p2)]
                                {
                                    &&& old(self).progress(*data) <= p2 <= Self::encoding(*data).len()
                                    &&& writer.written() == old(writer).written() + Self::encoding(*data).subrange(old(self).progress(*data), p2)
                                });
                        }
                        PollEncodeStatus::Error(e)
                    },
                }
            },
            PairEncode::F0(mut sub) => {
                let ghost p0 = sub.progress(data.0);
                proof {
                    sub.lemma_progress_bounds(data.0);
                }
                match sub.poll_encode(writer, &data.0) {
                    PollEncodeStatus::Fini => {
                        proof {
                            assert(a_enc.subrange(p0, a_enc.len() as int) =~= enc.subrange(p0, a_enc.len() as int)) by {
                                assert(a_enc =~= enc.take(a_enc.len() as int));
                            }
                        }
                        match Self::after_first(writer, data) {
                            StartEncodeStatus::Fini => {
                                *self = Self::Fini;
                                proof {
                                    assert(old(writer).written() + enc.subrange(p0, a_enc.len() as int) + EB::encoding(data.1) =~= old(writer).written() + enc.subrange(p0, enc.len() as int)) by {
                                        assert(enc.subrange(p0, a_enc.len() as int) + enc.subrange(a_enc.len() as int, enc.len() as int) =~= enc.subrange(p0, enc.len() as int));
                                        assert(EB::encoding(data.1) =~= enc.subrange(a_enc.len() as int, enc.len() as int));
                                    }
                                }
                                PollEncodeStatus::Fini
                            },
                            StartEncodeStatus::Pending(s) => {
                                proof {
                                    assert(old(writer).written() + enc.subrange(p0, a_enc.len() as int) + enc.subrange(a_enc.len() as int, s.progress(*data)) =~= old(writer).written() + enc.subrange(p0, s.progress(*data)));
                                }
                                *self = s;
                                PollEncodeStatus::Pending
                            },
                            StartEncodeStatus::Error(e) => {
                                *self = Self::Failed;
                                proof {
                                    let p = choose|p: int|
                                        #![trigger enc.subrange(a_enc.len() as int, p)]
                                        {
                                            &&& a_enc.len() <= p <= enc.len()
                                            &&& writer.written() == old(writer).written() + enc.subrange(p0, a_enc.len() as int) + enc.subrange(a_enc.len() as int, p)
                                        };
                                    assert(old(writer).written() + enc.subrange(p0, a_enc.len() as int) + enc.subrange(a_enc.len() as int, p) =~= old(writer).written() + enc.subrange(p0, p)) by {
                                        assert(enc.subrange(p0, a_enc.len() as int) + enc.subrange(a_enc.len() as int, p) =~= enc.subrange(p0, p));
                                    }
                                    assert(old(self).progress(*data) == p0);
                                    assert(exists|p2: int|
                                #![trigger Self::encoding(*data).subrange(old(self).progress(*data), p2)]
                                {
                                    &&& old(self).progress(*data) <= p2 <= Self::encoding(*data).len()
                                    &&& writer.written() == old(writer).written() + Self::encoding(*data).subrange(old(self).progress(*data), p2)
                                });
                                }
                                PollEncodeStatus::Error(e)
                            },
                        }
                    },
                    PollEncodeStatus::Pending => {
                        proof {
                            assert(a_enc.subrange(p0, sub.progress(data.0)) =~= enc.subrange(p0, sub.progress(data.0))) by {
                                assert(a_enc =~= enc.take(a_enc.len() as int));
                            }
                        }
                        *self = Self::F0(sub);
                        PollEncodeStatus::Pending
                    },
                    PollEncodeStatus::Error(e) => {
                        *self = Self::Failed;
                        proof {
                            let p = choose|p: int|
                                #![trigger a_enc.subrange(p0, p)]
                                {
                                    &&& p0 <= p <= a_enc.len()
                                    &&& writer.written() == old(writer).written() + a_enc.subrange(p0, p)
                                };
                            assert(a_enc.subrange(p0, p) =~= enc.subrange(p0, p)) by {
                                assert(a_enc =~= enc.take(a_enc.len() as int));
                            }
                            assert(old(self).progress(*data) == p0);
                            assert(exists|p2: int|
                                #![trigger Self::encoding(*data).subrange(old(self).progress(*data), p2)]
                                {
                                    &&& old(self).progress(*data) <= p2 <= Self::encoding(*data).len()
                                    &&& writer.written() == old(writer).written() + Self::encoding(*data).subrange(old(self).progress(*data), p2)
                                });
                        }
                        PollEncodeStatus::Error(e)
                    },
                }
            },
            PairEncode::F1(mut sub) => {
                let ghost pp0 = sub.progress(data.1);
                proof {
                    sub.lemma_progress_bounds(data.1);
                }
                match sub.poll_encode(writer, &data.1) {
                    PollEncodeStatus::Fini => {
                        *self = Self::Fini;
                        proof {
                            let pe = EB::encoding(data.1);
                            assert(pe.subrange(pp0, pe.len() as int) =~= enc.subrange(a_enc.len() + pp0, enc.len() as int)) by {
                                assert(pe =~= enc.subrange(a_enc.len() as int, enc.len() as int));
                            }
                        }
                        PollEncodeStatus::Fini
                    },
                    PollEncodeStatus::Pending => {
                        proof {
                            let pe = EB::encoding(data.1);
                            let q = sub.progress(data.1);
                            assert(pe.subrange(pp0, q) =~= enc.subrange(a_enc.len() + pp0, a_enc.len() + q)) by {
                                assert(pe =~= enc.subrange(a_enc.len() as int, enc.len() as int));
                            }
                        }
                        *self = Self::F1(sub);
                        PollEncodeStatus::Pending
                    },
                    PollEncodeStatus::Error(e) => {
                        *self = Self::Failed;
                        proof {
                            let pe = EB::encoding(data.1);
                            let p = choose|p: int|
                                #![trigger pe.subrange(pp0, p)]
                                {
                                    &&& pp0 <= p <= pe.len()
                                    &&& writer.written() == old(writer).written() + pe.subrange(pp0, p)
                                };
                            assert(pe.subrange(pp0, p) =~= enc.subrange(a_enc.len() + pp0, a_enc.len() + p)) by {
                                assert(pe =~= enc.subrange(a_enc.len() as int, enc.len() as int));
                            }
                            assert(old(self).progress(*data) == a_enc.len() as int + pp0);
                            assert(exists|p2: int|
                                #![trigger Self::encoding(*data).subrange(old(self).progress(*data), p2)]
                                {
                                    &&& old(self).progress(*data) <= p2 <= Self::encoding(*data).len()
                                    &&& writer.written() == old(writer).written() + Self::encoding(*data).subrange(old(self).progress(*data), p2)
                                });
                        }
                        PollEncodeStatus::Error(e)
                    },
                }
            },
            PairEncode::Fini => {
                PollEncodeStatus::Error(crate::io::invalid_input())
            },
            PairEncode::Failed => {
                PollEncodeStatus::Error(crate::io::invalid_input())
            },
        }
    }
}

/// The cursor of an in-flight two-field decode.
pub enum PairDecodeCursor<DA: Decode, DB: Decode> {
    /// No poll has happened yet.
    Init,
    /// The first field is being gathered.
    F0(DA),
    /// The first field is done and retained; the second is being gathered.
    F1(<DA as Decode>::Data, DB),
    /// The decode completed.
    Fini,
    /// The decode failed, or was polled after completion.
    Failed,
}

/// The resumable decoder for a two-field aggregate: the current slot of
/// the chain, the bytes committed by the completed slot, and the retained
/// first field while the second is in flight.
pub struct PairDecode<DA: Decode, DB: Decode> {
    cursor: PairDecodeCursor<DA, DB>,
    consumed: Ghost<Seq<u8>>,
}

impl<DA: Decode, DB: Decode> PairDecode<DA, DB> {
    /// Gather the second field, the first having been fully parsed out of
    /// the `consumed` bytes as the retained value `a`.
    fn after_first<R: AsyncRead + AsyncBufRead>(a: <DA as Decode>::Data, reader: &mut R, Ghost(consumed): Ghost<Seq<u8>>) -> (r: StartDecodeStatus<(<DA as Decode>::Data, <DB as Decode>::Data), Self, Error>)
        requires
            DA::decode_spec(consumed) == DecOutcome::Done(DA::model(a), consumed.len() as int),
        ensures
            match r {
                StartDecodeStatus::Fini(d) => exists|n: int|
                    #![trigger old(reader).remaining().take(n)]
                    {
                        &&& 0 <= n <= old(reader).remaining().len()
                        &&& final(reader).remaining() == old(reader).remaining().skip(n)
                        &&& Self::decode_spec(consumed.add(old(reader).remaining().take(n))) == DecOutcome::Done(Self::model(d), consumed.len() + n)
                    },
                StartDecodeStatus::Pending(s) => {
                    &&& s.wf() && !s.done() && !s.failed()
                    &&& exists|n: int|
                        #![trigger old(reader).remaining().take(n)]
                        {
                            &&& 0 <= n <= old(reader).remaining().len()
                            &&& final(reader).remaining() == old(reader).remaining().skip(n)
                            &&& s.taken() == consumed.add(old(reader).remaining().take(n))
                        }
                },
                StartDecodeStatus::Error(e) => exists|n: int|
                    #![trigger old(reader).remaining().skip(n)]
                    {
                        &&& 0 <= n <= old(reader).remaining().len()
                        &&& final(reader).remaining() == old(reader).remaining().skip(n)
                        &&& (Self::decode_spec(consumed.add(old(reader).remaining().take(n))) is Bad ==> e == Error::InvalidData)
                        &&& !(Self::decode_spec(consumed.add(old(reader).remaining().take(n))) is Done)
                    },
            },
    {
        match DB::start_decode(reader) {
            StartDecodeStatus::Fini(b) => {
                proof {
                    let all = old(reader).remaining();
                    let m = choose|m: int|
                        #![trigger all.take(m)]
                        {
                            &&& 0 <= m <= all.len()
                            &&& reader.remaining() == all.skip(m)
                            &&& DB::decode_spec(all.take(m)) == DecOutcome::Done(DB::model(b), m)
                        };
                    crate::codec::lemma_dec_lawful::<DA>();
                    assert(DA::decode_spec(consumed.add(all.take(m))) == DecOutcome::Done(DA::model(a), consumed.len() as int));
                    assert(consumed.add(all.take(m)).skip(consumed.len() as int) =~= all.take(m));
                }
                StartDecodeStatus::Fini((a, b))
            },
            StartDecodeStatus::Pending(sub) => {
                let s = PairDecode { cursor: PairDecodeCursor::F1(a, sub), consumed: Ghost(consumed) };
                StartDecodeStatus::Pending(s)
            },
            StartDecodeStatus::Error(e) => {
                proof {
                    let all = old(reader).remaining();
                    let n = choose|n: int|
                        #![trigger all.skip(n)]
                        {
                            &&& 0 <= n <= all.len()
                            &&& reader.remaining() == all.skip(n)
                            &&& (DB::decode_spec(all.take(n)) is Bad ==> e == Error::InvalidData)
                            &&& !(DB::decode_spec(all.take(n)) is Done)
                        };
                    crate::codec::lemma_dec_lawful::<DA>();
                    assert(DA::decode_spec(consumed.add(all.take(n))) == DecOutcome::Done(DA::model(a), consumed.len() as int));
                    assert(consumed.add(all.take(n)).skip(consumed.len() as int) =~= all.take(n));
                    assert(Self::decode_spec(consumed.add(all.take(n))) is Bad ==> e == Error::InvalidData);
                    assert(!(Self::decode_spec(consumed.add(all.take(n))) is Done));
                }
                StartDecodeStatus::Error(e)
            },
        }
    }

    /// Begin the whole decode: the first field, then the second.
    fn after_init<R: AsyncRead + AsyncBufRead>(reader: &mut R) -> (r: StartDecodeStatus<(<DA as Decode>::Data, <DB as Decode>::Data), Self, Error>)
        ensures
            match r {
                StartDecodeStatus::Fini(d) => exists|n: int|
                    #![trigger old(reader).remaining().take(n)]
                    {
                        &&& 0 <= n <= old(reader).remaining().len()
                        &&& final(reader).remaining() == old(reader).remaining().skip(n)
                        &&& Self::decode_spec(old(reader).remaining().take(n)) == DecOutcome::Done(Self::model(d), n)
                    },
                StartDecodeStatus::Pending(s) => {
                    &&& s.wf() && !s.done() && !s.failed()
                    &&& exists|n: int|
                        #![trigger old(reader).remaining().take(n)]
                        {
                            &&& 0 <= n <= old(reader).remaining().len()
                            &&& final(reader).remaining() == old(reader).remaining().skip(n)
                            &&& s.taken() == old(reader).remaining().take(n)
                        }
                },
                StartDecodeStatus::Error(e) => exists|n: int|
                    #![trigger old(reader).remaining().skip(n)]
                    {
                        &&& 0 <= n <= old(reader).remaining().len()
                        &&& final(reader).remaining() == old(reader).remaining().skip(n)
                        &&& (Self::decode_spec(old(reader).remaining().take(n)) is Bad ==> e == Error::InvalidData)
                        &&& !(Self::decode_spec(old(reader).remaining().take(n)) is Done)
                    },
            },
    {
        let ghost all = old(reader).remaining();
        match DA::start_decode(reader) {
            StartDecodeStatus::Fini(a) => {
                let ghost n1 = choose|n1: int|
                    #![trigger all.take(n1)]
                    {
                        &&& 0 <= n1 <= all.len()
                        &&& reader.remaining() == all.skip(n1)
                        &&& DA::decode_spec(all.take(n1)) == DecOutcome::Done(DA::model(a), n1)
                    };
                let ghost mid = reader.remaining();
                let r = Self::after_first(a, reader, Ghost(all.take(n1)));
                proof {
                    match &r {
                        StartDecodeStatus::Fini(d) => {
                            let n2 = choose|n2: int|
                                #![trigger mid.take(n2)]
                                {
                                    &&& 0 <= n2 <= mid.len()
                                    &&& reader.remaining() == mid.skip(n2)
                                    &&& Self::decode_spec(all.take(n1).add(mid.take(n2))) == DecOutcome::Done(Self::model(*d), n1 + n2)
                                };
                            assert(mid.take(n2) =~= all.subrange(n1, n1 + n2));
                            assert(mid.skip(n2) =~= all.skip(n1 + n2));
                            assert(all.take(n1).add(all.subrange(n1, n1 + n2)) =~= all.take(n1 + n2));
                        },
                        StartDecodeStatus::Pending(s) => {
                            let n2 = choose|n2: int|
                                #![trigger mid.take(n2)]
                                {
                                    &&& 0 <= n2 <= mid.len()
                                    &&& reader.remaining() == mid.skip(n2)
                                    &&& s.taken() == all.take(n1).add(mid.take(n2))
                                };
                            assert(mid.take(n2) =~= all.subrange(n1, n1 + n2));
                            assert(mid.skip(n2) =~= all.skip(n1 + n2));
                            assert(all.take(n1).add(all.subrange(n1, n1 + n2)) =~= all.take(n1 + n2));
                        },
                        StartDecodeStatus::Error(e) => {
                            let n2 = choose|n2: int|
                                #![trigger mid.skip(n2)]
                                {
                                    &&& 0 <= n2 <= mid.len()
                                    &&& reader.remaining() == mid.skip(n2)
                                    &&& (Self::decode_spec(all.take(n1).add(mid.take(n2))) is Bad ==> *e == Error::InvalidData)
                                    &&& !(Self::decode_spec(all.take(n1).add(mid.take(n2))) is Done)
                                };
                            assert(mid.take(n2) =~= all.subrange(n1, n1 + n2));
                            assert(mid.skip(n2) =~= all.skip(n1 + n2));
                            assert(all.take(n1).add(all.subrange(n1, n1 + n2)) =~= all.take(n1 + n2));
                        },
                    }
                }
                r
            },
            StartDecodeStatus::Pending(sub) => {
                let s = PairDecode { cursor: PairDecodeCursor::F0(sub), consumed: Ghost(Seq::empty()) };
                StartDecodeStatus::Pending(s)
            },
            StartDecodeStatus::Error(e) => {
                proof {
                    let n = choose|n: int|
                        #![trigger all.skip(n)]
                        {
                            &&& 0 <= n <= all.len()
                            &&& reader.remaining() == all.skip(n)
                            &&& (DA::decode_spec(all.take(n)) is Bad ==> e == Error::InvalidData)
                            &&& !(DA::decode_spec(all.take(n)) is Done)
                        };
                    assert(Self::decode_spec(all.take(n)) is Bad ==> e == Error::InvalidData);
                    assert(!(Self::decode_spec(all.take(n)) is Done));
                }
                StartDecodeStatus::Error(e)
            },
        }
    }
}

impl<DA: Decode, DB: Decode> Decode for PairDecode<DA, DB> {
    type Data = (<DA as Decode>::Data, <DB as Decode>::Data);

    type Model = (<DA as Decode>::Model, <DB as Decode>::Model);

    open spec fn model(d: (<DA as Decode>::Data, <DB as Decode>::Data)) -> (<DA as Decode>::Model, <DB as Decode>::Model) {
        (DA::model(d.0), DB::model(d.1))
    }

    open spec fn decode_spec(bytes: Seq<u8>) -> DecOutcome<(<DA as Decode>::Model, <DB as Decode>::Model)> {
        match DA::decode_spec(bytes) {
            DecOutcome::Done(a, n) => match DB::decode_spec(bytes.skip(n)) {
                DecOutcome::Done(b, m) => DecOutcome::Done((a, b), n + m),
                DecOutcome::NeedMore => DecOutcome::NeedMore,
                DecOutcome::Bad => DecOutcome::Bad,
            },
            DecOutcome::NeedMore => DecOutcome::NeedMore,
            DecOutcome::Bad => DecOutcome::Bad,
        }
    }

    closed spec fn taken(&self) -> Seq<u8> {
        match &self.cursor {
            PairDecodeCursor::Init => Seq::empty(),
            PairDecodeCursor::F0(sub) => sub.taken(),
            PairDecodeCursor::F1(a, sub) => self.consumed@ + sub.taken(),
            PairDecodeCursor::Fini => self.consumed@,
            PairDecodeCursor::Failed => self.consumed@,
        }
    }

    closed spec fn wf(&self) -> bool {
        match &self.cursor {
            PairDecodeCursor::Init => true,
            PairDecodeCursor::F0(sub) => sub.wf() && !sub.done() && !sub.failed(),
            PairDecodeCursor::F1(a, sub) => {
                &&& DA::decode_spec(self.consumed@) == DecOutcome::Done(DA::model(*a), self.consumed@.len() as int)
                &&& sub.wf() && !sub.done() && !sub.failed()
            },
            PairDecodeCursor::Fini => true,
            PairDecodeCursor::Failed => true,
        }
    }

    closed spec fn done(&self) -> bool {
        self.cursor is Fini
    }

    closed spec fn failed(&self) -> bool {
        self.cursor is Failed
    }

    proof fn lemma_lawful(b: Seq<u8>, ext: Seq<u8>) {
        DA::lemma_lawful(b, ext);
        match DA::decode_spec(b) {
            DecOutcome::Done(a, n) => {
                assert(b.add(ext).skip(n) =~= b.skip(n).add(ext));
                DB::lemma_lawful(b.skip(n), ext);
            },
            DecOutcome::NeedMore => {},
            DecOutcome::Bad => {},
        }
    }

    fn init() -> (d: Self) {
        PairDecode { cursor: PairDecodeCursor::Init, consumed: Ghost(Seq::empty()) }
    }

    #[verifier::rlimit(100)]
    #[verifier::spinoff_prover]
    fn poll_decode<R: AsyncRead + AsyncBufRead>(&mut self, reader: &mut R) -> (r: PollDecodeStatus<(<DA as Decode>::Data, <DB as Decode>::Data), Error>) {
        let ghost all = old(reader).remaining();
        let mut tmp = PairDecode { cursor: PairDecodeCursor::Failed, consumed: Ghost(Seq::empty()) };
        core::mem::swap(self, &mut tmp);
        let PairDecode { cursor: st, consumed: Ghost(consumed) } = tmp;
        match st {
            PairDecodeCursor::Init => {
                match Self::after_init(reader) {
                    StartDecodeStatus::Fini(d) => {
                        self.cursor = PairDecodeCursor::Fini;
                        proof {
                            let n = choose|n: int|
                                #![trigger all.take(n)]
                                {
                                    &&& 0 <= n <= all.len()
                                    &&& reader.remaining() == all.skip(n)
                                    &&& Self::decode_spec(all.take(n)) == DecOutcome::Done(Self::model(d), n)
                                };
                            assert(Seq::<u8>::empty().add(all.take(n)) =~= all.take(n));
                        }
                        PollDecodeStatus::Fini(d)
                    },
                    StartDecodeStatus::Pending(s) => {
                        *self = s;
                        proof {
                            let n = choose|n: int|
                                #![trigger all.take(n)]
                                {
                                    &&& 0 <= n <= all.len()
                                    &&& reader.remaining() == all.skip(n)
                                    &&& self.taken() == all.take(n)
                                };
                            assert(Seq::<u8>::empty().add(all.take(n)) =~= all.take(n));
                        }
                        PollDecodeStatus::Pending
                    },
                    StartDecodeStatus::Error(e) => {
                        proof {
                            let n = choose|n: int|
                                #![trigger all.skip(n)]
                                {
                                    &&& 0 <= n <= all.len()
                                    &&& reader.remaining() == all.skip(n)
                                    &&& (Self::decode_spec(all.take(n)) is Bad ==> e == Error::InvalidData)
                                    &&& !(Self::decode_spec(all.take(n)) is Done)
                                };
                            assert(Seq::<u8>::empty().add(all.take(n)) =~= all.take(n));
                        }
                        PollDecodeStatus::Error(e)
                    },
                }
            },
            PairDecodeCursor::F0(mut sub) => {
                let ghost t0 = sub.taken();
                match sub.poll_decode(reader) {
                    PollDecodeStatus::Fini(a) => {
                        let ghost n1 = choose|n1: int|
                            #![trigger all.take(n1)]
                            {
                                &&& 0 <= n1 <= all.len()
                                &&& reader.remaining() == all.skip(n1)
                                &&& DA::decode_spec(t0.add(all.take(n1))) == DecOutcome::Done(DA::model(a), t0.len() + n1)
                            };
                        let ghost committed = t0.add(all.take(n1));
                        let ghost mid = reader.remaining();
                        match Self::after_first(a, reader, Ghost(committed)) {
                            StartDecodeStatus::Fini(d) => {
                                self.cursor = PairDecodeCursor::Fini;
                                proof {
                                    let n2 = choose|n2: int|
                                        #![trigger mid.take(n2)]
                                        {
                                            &&& 0 <= n2 <= mid.len()
                                            &&& reader.remaining() == mid.skip(n2)
                                            &&& Self::decode_spec(committed.add(mid.take(n2))) == DecOutcome::Done(Self::model(d), committed.len() + n2)
                                        };
                                    assert(mid.take(n2) =~= all.subrange(n1, n1 + n2));
                                    assert(mid.skip(n2) =~= all.skip(n1 + n2));
                                    assert(committed.add(all.subrange(n1, n1 + n2)) =~= t0.add(all.take(n1 + n2)));
                                }
                                PollDecodeStatus::Fini(d)
                            },
                            StartDecodeStatus::Pending(s) => {
                                *self = s;
                                proof {
                                    let n2 = choose|n2: int|
                                        #![trigger mid.take(n2)]
                                        {
                                            &&& 0 <= n2 <= mid.len()
                                            &&& reader.remaining() == mid.skip(n2)
                                            &&& self.taken() == committed.add(mid.take(n2))
                                        };
                                    assert(mid.take(n2) =~= all.subrange(n1, n1 + n2));
                                    assert(mid.skip(n2) =~= all.skip(n1 + n2));
                                    assert(committed.add(all.subrange(n1, n1 + n2)) =~= t0.add(all.take(n1 + n2)));
                                }
                                PollDecodeStatus::Pending
                            },
                            StartDecodeStatus::Error(e) => {
                                proof {
                                    let n2 = choose|n2: int|
                                        #![trigger mid.skip(n2)]
                                        {
                                            &&& 0 <= n2 <= mid.len()
                                            &&& reader.remaining() == mid.skip(n2)
                                            &&& (Self::decode_spec(committed.add(mid.take(n2))) is Bad ==> e == Error::InvalidData)
                                            &&& !(Self::decode_spec(committed.add(mid.take(n2))) is Done)
                                        };
                                    assert(mid.take(n2) =~= all.subrange(n1, n1 + n2));
                                    assert(mid.skip(n2) =~= all.skip(n1 + n2));
                                    assert(committed.add(all.subrange(n1, n1 + n2)) =~= t0.add(all.take(n1 + n2)));
                                }
                                PollDecodeStatus::Error(e)
                            },
                        }
                    },
                    PollDecodeStatus::Pending => {
                        self.cursor = PairDecodeCursor::F0(sub);
                        PollDecodeStatus::Pending
                    },
                    PollDecodeStatus::Error(e) => {
                        proof {
                            let n = choose|n: int|
                                #![trigger all.skip(n)]
                                {
                                    &&& 0 <= n <= all.len()
                                    &&& reader.remaining() == all.skip(n)
                                    &&& (DA::decode_spec(t0.add(all.take(n))) is Bad ==> e == Error::InvalidData)
                                    &&& !(DA::decode_spec(t0.add(all.take(n))) is Done)
                                };
                            assert(Self::decode_spec(t0.add(all.take(n))) is Bad ==> e == Error::InvalidData);
                            assert(!(Self::decode_spec(t0.add(all.take(n))) is Done));
                        }
                        PollDecodeStatus::Error(e)
                    },
                }
            },
            PairDecodeCursor::F1(a, mut sub) => {
                let ghost t0 = sub.taken();
                match sub.poll_decode(reader) {
                    PollDecodeStatus::Fini(b) => {
                        self.cursor = PairDecodeCursor::Fini;
                        self.consumed = Ghost(consumed);
                        proof {
                            let n = choose|n: int|
                                #![trigger all.take(n)]
                                {
                                    &&& 0 <= n <= all.len()
                                    &&& reader.remaining() == all.skip(n)
                                    &&& DB::decode_spec(t0.add(all.take(n))) == DecOutcome::Done(DB::model(b), t0.len() + n)
                                };
                            crate::codec::lemma_dec_lawful::<DA>();
                            let total = consumed.add(t0).add(all.take(n));
                            assert(total =~= consumed.add(t0.add(all.take(n))));
                            assert(DA::decode_spec(total) == DecOutcome::Done(DA::model(a), consumed.len() as int));
                            assert(total.skip(consumed.len() as int) =~= t0.add(all.take(n)));
                        }
                        PollDecodeStatus::Fini((a, b))
                    },
                    PollDecodeStatus::Pending => {
                        self.cursor = PairDecodeCursor::F1(a, sub);
                        self.consumed = Ghost(consumed);
                        proof {
                            let n = choose|n: int|
                                #![trigger all.take(n)]
                                {
                                    &&& 0 <= n <= all.len()
                                    &&& reader.remaining() == all.skip(n)
                                    &&& sub.taken() == t0.add(all.take(n))
                                };
                            assert(consumed.add(t0).add(all.take(n)) =~= consumed.add(t0.add(all.take(n))));
                        }
                        PollDecodeStatus::Pending
                    },
                    PollDecodeStatus::Error(e) => {
                        proof {
                            let n = choose|n: int|
                                #![trigger all.skip(n)]
                                {
                                    &&& 0 <= n <= all.len()
                                    &&& reader.remaining() == all.skip(n)
                                    &&& (DB::decode_spec(t0.add(all.take(n))) is Bad ==> e == Error::InvalidData)
                                    &&& !(DB::decode_spec(t0.add(all.take(n))) is Done)
                                };
                            crate::codec::lemma_dec_lawful::<DA>();
                            let total = consumed.add(t0).add(all.take(n));
                            assert(total =~= consumed.add(t0.add(all.take(n))));
                            assert(DA::decode_spec(total) == DecOutcome::Done(DA::model(a), consumed.len() as int));
                            assert(total.skip(consumed.len() as int) =~= t0.add(all.take(n)));
                            assert(Self::decode_spec(total) is Bad ==> e == Error::InvalidData);
                            assert(!(Self::decode_spec(total) is Done));
                        }
                        PollDecodeStatus::Error(e)
                    },
                }
            },
            PairDecodeCursor::Fini => {
                PollDecodeStatus::Error(crate::io::invalid_input())
            },
            PairDecodeCursor::Failed => {
                PollDecodeStatus::Error(crate::io::invalid_input())
            },
        }
    }
}

/// The round-trip law for two-field aggregates: whenever both field pairs
/// agree, so does the aggregate pair.
pub proof fn lemma_pair_round_trips<EA: Encode, EB: Encode, DA: Decode<Data = <EA as Encode>::Data>, DB: Decode<Data = <EB as Encode>::Data>>()
    requires
        round_trips::<EA, DA>(),
        round_trips::<EB, DB>(),
    ensures
        round_trips::<PairEncode<EA, EB>, PairDecode<DA, DB>>(),
{
    assert forall|d: (<EA as Encode>::Data, <EB as Encode>::Data), rest: Seq<u8>|
        <PairEncode<EA, EB> as Encode>::encodable(d) implies #[trigger] <PairDecode<DA, DB> as Decode>::decode_spec(<PairEncode<EA, EB> as Encode>::encoding(d).add(rest)) == DecOutcome::<(<DA as Decode>::Model, <DB as Decode>::Model)>::Done(<PairDecode<DA, DB> as Decode>::model(d), <PairEncode<EA, EB> as Encode>::encoding(d).len() as int) by {
        let a_enc = EA::encoding(d.0);
        let b_enc = EB::encoding(d.1);
        let whole = <PairEncode<EA, EB> as Encode>::encoding(d).add(rest);
        assert(whole =~= a_enc.add(b_enc.add(rest)));
        assert(DA::decode_spec(a_enc.add(b_enc.add(rest))) == DecOutcome::Done(DA::model(d.0), a_enc.len() as int));
        assert(whole.skip(a_enc.len() as int) =~= b_enc.add(rest));
        assert(DB::decode_spec(b_enc.add(rest)) == DecOutcome::Done(DB::model(d.1), b_enc.len() as int));
    }
}

impl<EA: AsyncSerialization, EB: AsyncSerialization> AsyncSerialization for PairEncode<EA, EB> {
    type Dec = PairDecode<<EA as AsyncSerialization>::Dec, <EB as AsyncSerialization>::Dec>;

    proof fn lemma_round_trip() {
        EA::lemma_round_trip();
        EB::lemma_round_trip();
        lemma_pair_round_trips::<EA, EB, <EA as AsyncSerialization>::Dec, <EB as AsyncSerialization>::Dec>();
    }
}

} // verus!
