//! The resumable codec for either/or values: a discriminant first, then
//! the payload chain selected by it.

use vstd::prelude::*;

use crate::codec::{AsyncSerialization, DecOutcome, Decode, Encode, Format, PollDecodeStatus, PollEncodeStatus, StartDecodeStatus, StartEncodeStatus, round_trips};
use crate::internal::VariantIdx;
use crate::io::{AsyncBufRead, AsyncRead, AsyncWrite, Error};

verus! {

/// The discriminant committed to the wire for an either/or value.
pub open spec fn res_index<O, E>(data: Result<O, E>) -> VariantIdx {
    match data {
        Ok(_) => VariantIdx(0),
        Err(_) => VariantIdx(1),
    }
}

/// The wire image of an either/or value's payload, after its discriminant.
pub open spec fn res_payload_enc<EO: Encode, EE: Encode>(data: Result<<EO as Encode>::Data, <EE as Encode>::Data>) -> Seq<u8> {
    match data {
        Ok(t) => EO::encoding(t),
        Err(t) => EE::encoding(t),
    }
}

/// The resumable encoder for an either/or value.
pub enum ResultEncode<F: Format, EO: Encode, EE: Encode> {
    /// No poll has happened yet.
    Init,
    /// The discriminant is still being emitted.
    Index(VariantIdx, F::EncodeVariantIdx),
    /// The discriminant named `Ok`; that payload is being emitted.
    V0(EO),
    /// The discriminant named `Err`; that payload is being emitted.
    V1(EE),
    /// The encode completed.
    Fini,
    /// The encode failed, or was polled after completion.
    Failed,
}

impl<F: Format, EO: Encode, EE: Encode> ResultEncode<F, EO, EE> {
    /// Emit the payload, the discriminant having been fully emitted.
    fn after_index<W: AsyncWrite>(writer: &mut W, data: &Result<<EO as Encode>::Data, <EE as Encode>::Data>) -> (r: StartEncodeStatus<Self, Error>)
        requires
            Self::encodable(*data),
        ensures
            match r {
                StartEncodeStatus::Fini => final(writer).written() == old(writer).written() + res_payload_enc::<EO, EE>(*data),
                StartEncodeStatus::Pending(s) => {
                    &&& s.wf(*data) && !s.done() && !s.failed()
                    &&& <F::EncodeVariantIdx as Encode>::encoding(res_index(*data)).len() <= s.progress(*data) <= Self::encoding(*data).len()
                    &&& final(writer).written() == old(writer).written() + Self::encoding(*data).subrange(<F::EncodeVariantIdx as Encode>::encoding(res_index(*data)).len() as int, s.progress(*data))
                },
                StartEncodeStatus::Error(e) => exists|p: int|
                    #![trigger Self::encoding(*data).subrange(<F::EncodeVariantIdx as Encode>::encoding(res_index(*data)).len() as int, p)]
                    {
                        &&& <F::EncodeVariantIdx as Encode>::encoding(res_index(*data)).len() <= p <= Self::encoding(*data).len()
                        &&& final(writer).written() == old(writer).written() + Self::encoding(*data).subrange(<F::EncodeVariantIdx as Encode>::encoding(res_index(*data)).len() as int, p)
                    },
            },
    {
        let ghost idx_len = <F::EncodeVariantIdx as Encode>::encoding(res_index(*data)).len() as int;
        let ghost enc = Self::encoding(*data);
        match data {
            Ok(t) => {
                let r = EO::start_encode(writer, t);
                proof {
                    let pe = res_payload_enc::<EO, EE>(*data);
                    if let StartEncodeStatus::Pending(s) = &r {
                        assert(enc.subrange(idx_len, idx_len + s.progress(*t)) =~= pe.take(s.progress(*t)));
                    }
                    if r is Error {
                        let p = choose|p: int|
                            #![trigger EO::encoding(*t).take(p)]
                            {
                                &&& 0 <= p <= EO::encoding(*t).len()
                                &&& writer.written() == old(writer).written() + EO::encoding(*t).take(p)
                            };
                        assert(enc.subrange(idx_len, idx_len + p) =~= EO::encoding(*t).take(p));
                    }
                }
                r.map_pending(|s: EO| -> (out: Self)
                    ensures
                        out == Self::V0(s),
                    { Self::V0(s) })
            },
            Err(t) => {
                let r = EE::start_encode(writer, t);
                proof {
                    let pe = res_payload_enc::<EO, EE>(*data);
                    if let StartEncodeStatus::Pending(s) = &r {
                        assert(enc.subrange(idx_len, idx_len + s.progress(*t)) =~= pe.take(s.progress(*t)));
                    }
                    if r is Error {
                        let p = choose|p: int|
                            #![trigger EE::encoding(*t).take(p)]
                            {
                                &&& 0 <= p <= EE::encoding(*t).len()
                                &&& writer.written() == old(writer).written() + EE::encoding(*t).take(p)
                            };
                        assert(enc.subrange(idx_len, idx_len + p) =~= EE::encoding(*t).take(p));
                    }
                }
                r.map_pending(|s: EE| -> (out: Self)
                    ensures
                        out == Self::V1(s),
                    { Self::V1(s) })
            },
        }
    }

    /// Begin the whole encode: the discriminant, then the payload.
    fn after_init<W: AsyncWrite>(writer: &mut W, data: &Result<<EO as Encode>::Data, <EE as Encode>::Data>) -> (r: StartEncodeStatus<Self, Error>)
        requires
            Self::encodable(*data),
        ensures
            match r {
                StartEncodeStatus::Fini => final(writer).written() == old(writer).written() + Self::encoding(*data),
                StartEncodeStatus::Pending(s) => {
                    &&& s.wf(*data) && !s.done() && !s.failed()
                    &&& 0 <= s.progress(*data) <= Self::encoding(*data).len()
                    &&& final(writer).written() == old(writer).written() + Self::encoding(*data).take(s.progress(*data))
                },
                StartEncodeStatus::Error(e) => exists|p: int|
                    #![trigger Self::encoding(*data).take(p)]
                    {
                        &&& 0 <= p <= Self::encoding(*data).len()
                        &&& final(writer).written() == old(writer).written() + Self::encoding(*data).take(p)
                    },
            },
    {
        let ghost enc = Self::encoding(*data);
        let ghost idx_enc = <F::EncodeVariantIdx as Encode>::encoding(res_index(*data));
        let ghost pe = res_payload_enc::<EO, EE>(*data);
        let index = match data {
            Ok(_) => VariantIdx::new(0),
            Err(_) => VariantIdx::new(1),
        };
        match <F::EncodeVariantIdx as Encode>::start_encode(writer, &index) {
            StartEncodeStatus::Fini => {
                let r = Self::after_index(writer, data);
                proof {
                    match &r {
                        StartEncodeStatus::Fini => {
                            assert(old(writer).written() + idx_enc + pe =~= old(writer).written() + enc);
                        },
                        StartEncodeStatus::Pending(s) => {
                            assert(old(writer).written() + idx_enc + enc.subrange(idx_enc.len() as int, s.progress(*data)) =~= old(writer).written() + enc.take(s.progress(*data))) by {
                                assert(idx_enc =~= enc.take(idx_enc.len() as int));
                                assert(enc.take(idx_enc.len() as int) + enc.subrange(idx_enc.len() as int, s.progress(*data)) =~= enc.take(s.progress(*data)));
                            }
                        },
                        StartEncodeStatus::Error(e) => {
                            let p = choose|p: int|
                                #![trigger enc.subrange(idx_enc.len() as int, p)]
                                {
                                    &&& idx_enc.len() <= p <= enc.len()
                                    &&& writer.written() == old(writer).written() + idx_enc + enc.subrange(idx_enc.len() as int, p)
                                };
                            assert(old(writer).written() + idx_enc + enc.subrange(idx_enc.len() as int, p) =~= old(writer).written() + enc.take(p)) by {
                                assert(idx_enc =~= enc.take(idx_enc.len() as int));
                                assert(enc.take(idx_enc.len() as int) + enc.subrange(idx_enc.len() as int, p) =~= enc.take(p));
                            }
                        },
                    }
                }
                r
            },
            StartEncodeStatus::Pending(s) => {
                proof {
                    assert(idx_enc.take(s.progress(index)) =~= enc.take(s.progress(index))) by {
                        assert(idx_enc =~= enc.take(idx_enc.len() as int));
                    }
                }
                StartEncodeStatus::Pending(Self::Index(index, s))
            },
            StartEncodeStatus::Error(e) => {
                proof {
                    let p = choose|p: int|
                        #![trigger idx_enc.take(p)]
                        {
                            &&& 0 <= p <= idx_enc.len()
                            &&& writer.written() == old(writer).written() + idx_enc.take(p)
                        };
                    assert(idx_enc.take(p) =~= enc.take(p)) by {
                        assert(idx_enc =~= enc.take(idx_enc.len() as int));
                    }
                }
                StartEncodeStatus::Error(e)
            },
        }
    }
}

impl<F: Format, EO: Encode, EE: Encode> Encode for ResultEncode<F, EO, EE> {
    type Data = Result<<EO as Encode>::Data, <EE as Encode>::Data>;

    open spec fn encoding(data: Result<<EO as Encode>::Data, <EE as Encode>::Data>) -> Seq<u8> {
        <F::EncodeVariantIdx as Encode>::encoding(res_index(data)) + res_payload_enc::<EO, EE>(data)
    }

    open spec fn encodable(data: Result<<EO as Encode>::Data, <EE as Encode>::Data>) -> bool {
        &&& <F::EncodeVariantIdx as Encode>::encodable(res_index(data))
        &&& match data {
            Ok(t) => EO::encodable(t),
            Err(t) => EE::encodable(t),
        }
    }

    closed spec fn progress(&self, data: Result<<EO as Encode>::Data, <EE as Encode>::Data>) -> int {
        let idx_len = <F::EncodeVariantIdx as Encode>::encoding(res_index(data)).len() as int;
        match self {
            ResultEncode::Init => 0,
            ResultEncode::Index(idx, sub) => sub.progress(*idx),
            ResultEncode::V0(sub) => match data {
                Ok(t) => idx_len + sub.progress(t),
                Err(_) => 0,
            },
            ResultEncode::V1(sub) => match data {
                Err(t) => idx_len + sub.progress(t),
                Ok(_) => 0,
            },
            ResultEncode::Fini => Self::encoding(data).len() as int,
            ResultEncode::Failed => 0,
        }
    }

    closed spec fn wf(&self, data: Result<<EO as Encode>::Data, <EE as Encode>::Data>) -> bool {
        match self {
            ResultEncode::Init => true,
            ResultEncode::Index(idx, sub) => {
                &&& *idx == res_index(data)
                &&& sub.wf(*idx) && !sub.done() && !sub.failed()
            },
            ResultEncode::V0(sub) => match data {
                Ok(t) => sub.wf(t) && !sub.done() && !sub.failed(),
                Err(_) => false,
            },
            ResultEncode::V1(sub) => match data {
                Err(t) => sub.wf(t) && !sub.done() && !sub.failed(),
                Ok(_) => false,
            },
            ResultEncode::Fini => true,
            ResultEncode::Failed => true,
        }
    }

    closed spec fn done(&self) -> bool {
        self is Fini
    }

    closed spec fn failed(&self) -> bool {
        self is Failed
    }

    proof fn lemma_progress_bounds(&self, data: Result<<EO as Encode>::Data, <EE as Encode>::Data>) {
        match self {
            ResultEncode::Index(idx, sub) => {
                sub.lemma_progress_bounds(*idx);
            },
            ResultEncode::V0(sub) => {
                if let Ok(t) = data {
                    sub.lemma_progress_bounds(t);
                }
            },
            ResultEncode::V1(sub) => {
                if let Err(t) = data {
                    sub.lemma_progress_bounds(t);
                }
            },
            _ => {},
        }
    }

    fn init(data: &Result<<EO as Encode>::Data, <EE as Encode>::Data>) -> (e: Self) {
        ResultEncode::Init
    }

    #[verifier::rlimit(100)]
    #[verifier::spinoff_prover]
    fn poll_encode<W: AsyncWrite>(&mut self, writer: &mut W, data: &Result<<EO as Encode>::Data, <EE as Encode>::Data>) -> (r: PollEncodeStatus<Error>) {
        let ghost enc = Self::encoding(*data);
        let ghost idx_enc = <F::EncodeVariantIdx as Encode>::encoding(res_index(*data));
        let mut st = Self::Failed;
        core::mem::swap(self, &mut st);
        match st {
            ResultEncode::Init => {
                match Self::after_init(writer, data) {
                    StartEncodeStatus::Fini => {
                        *self = Self::Fini;
                        proof {
                            assert(enc.subrange(0, enc.len() as int) =~= enc);
                        }
                        PollEncodeStatus::Fini
                    },
                    StartEncodeStatus::Pending(s) => {
                        proof {
                            assert(enc.take(s.progress(*data)) =~= enc.subrange(0, s.progress(*data)));
                        }
                        *self = s;
                        PollEncodeStatus::Pending
                    },
                    StartEncodeStatus::Error(e) => {
                        *self = Self::Failed;
                        proof {
                            let p = choose|p: int|
                                #![trigger enc.take(p)]
                                {
                                    &&& 0 <= p <= enc.len()
                                    &&& writer.written() == old(writer).written() + enc.take(p)
                                };
                            assert(enc.take(p) =~= enc.subrange(0, p));
                            assert(old(self).progress(*data) == 0);
                            assert(exists|p2: int|
                                #![trigger Self::encoding(*data).subrange(old(self).progress(*data), p2)]
                                {
                                    &&& old(self).progress(*data) <= p2 <= Self::encoding(*data).len()
                                    &&& writer.written() == old(writer).written() + Self::encoding(*data).subrange(old(self).progress(*data), p2)
                                });
                        }
                        PollEncodeStatus::Error(e)
                    },
                }
            },
            ResultEncode::Index(idx, mut sub) => {
                let ghost p0 = sub.progress(idx);
                proof {
                    sub.lemma_progress_bounds(idx);
                }
                match sub.poll_encode(writer, &idx) {
                    PollEncodeStatus::Fini => {
                        proof {
                            assert(idx_enc.subrange(p0, idx_enc.len() as int) =~= enc.subrange(p0, idx_enc.len() as int)) by {
                                assert(idx_enc =~= enc.take(idx_enc.len() as int));
                            }
                        }
                        match Self::after_index(writer, data) {
                            StartEncodeStatus::Fini => {
                                *self = Self::Fini;
                                proof {
                                    assert(old(writer).written() + enc.subrange(p0, idx_enc.len() as int) + res_payload_enc::<EO, EE>(*data) =~= old(writer).written() + enc.subrange(p0, enc.len() as int)) by {
                                        assert(enc.subrange(p0, idx_enc.len() as int) + enc.subrange(idx_enc.len() as int, enc.len() as int) =~= enc.subrange(p0, enc.len() as int));
                                        assert(res_payload_enc::<EO, EE>(*data) =~= enc.subrange(idx_enc.len() as int, enc.len() as int));
                                    }
                                }
                                PollEncodeStatus::Fini
                            },
                            StartEncodeStatus::Pending(s) => {
                                proof {
                                    assert(old(writer).written() + enc.subrange(p0, idx_enc.len() as int) + enc.subrange(idx_enc.len() as int, s.progress(*data)) =~= old(writer).written() + enc.subrange(p0, s.progress(*data)));
                                }
                                *self = s;
                                PollEncodeStatus::Pending
                            },
                            StartEncodeStatus::Error(e) => {
                                *self = Self::Failed;
                                proof {
                                    let p = choose|p: int|
                                        #![trigger enc.subrange(idx_enc.len() as int, p)]
                                        {
                                            &&& idx_enc.len() <= p <= enc.len()
                                            &&& writer.written() == old(writer).written() + enc.subrange(p0, idx_enc.len() as int) + enc.subrange(idx_enc.len() as int, p)
                                        };
                                    assert(old(writer).written() + enc.subrange(p0, idx_enc.len() as int) + enc.subrange(idx_enc.len() as int, p) =~= old(writer).written() + enc.subrange(p0, p)) by {
                                        assert(enc.subrange(p0, idx_enc.len() as int) + enc.subrange(idx_enc.len() as int, p) =~= enc.subrange(p0, p));
                                    }
                                    assert(old(self).progress(*data) == p0);
                                    assert(exists|p2: int|
                                #![trigger Self::encoding(*data).subrange(old(self).progress(*data), p2)]
                                {
                                    &&& old(self).progress(*data) <= p2 <= Self::encoding(*data).len()
                                    &&& writer.written() == old(writer).written() + Self::encoding(*data).subrange(old(self).progress(*data), p2)
                                });
                                }
                                PollEncodeStatus::Error(e)
                            },
                        }
                    },
                    PollEncodeStatus::Pending => {
                        proof {
                            assert(idx_enc.subrange(p0, sub.progress(idx)) =~= enc.subrange(p0, sub.progress(idx))) by {
                                assert(idx_enc =~= enc.take(idx_enc.len() as int));
                            }
                        }
                        *self = Self::Index(idx, sub);
                        PollEncodeStatus::Pending
                    },
                    PollEncodeStatus::Error(e) => {
                        *self = Self::Failed;
                        proof {
                            let p = choose|p: int|
                                #![trigger idx_enc.subrange(p0, p)]
                                {
                                    &&& p0 <= p <= idx_enc.len()
                                    &&& writer.written() == old(writer).written() + idx_enc.subrange(p0, p)
                                };
                            assert(idx_enc.subrange(p0, p) =~= enc.subrange(p0, p)) by {
                                assert(idx_enc =~= enc.take(idx_enc.len() as int));
                            }
                            assert(old(self).progress(*data) == p0);
                            assert(exists|p2: int|
                                #![trigger Self::encoding(*data).subrange(old(self).progress(*data), p2)]
                                {
                                    &&& old(self).progress(*data) <= p2 <= Self::encoding(*data).len()
                                    &&& writer.written() == old(writer).written() + Self::encoding(*data).subrange(old(self).progress(*data), p2)
                                });
                        }
                        PollEncodeStatus::Error(e)
                    },
                }
            },
            ResultEncode::V0(mut sub) => {
                match data {
                    Ok(t) => {
                        let ghost pp0 = sub.progress(*t);
                        proof {
                            sub.lemma_progress_bounds(*t);
                        }
                        match sub.poll_encode(writer, t) {
                            PollEncodeStatus::Fini => {
                                *self = Self::Fini;
                                proof {
                                    let pe = EO::encoding(*t);
                                    assert(pe.subrange(pp0, pe.len() as int) =~= enc.subrange(idx_enc.len() + pp0, enc.len() as int)) by {
                                        assert(pe =~= enc.subrange(idx_enc.len() as int, enc.len() as int));
                                    }
                                }
                                PollEncodeStatus::Fini
                            },
                            PollEncodeStatus::Pending => {
                                proof {
                                    let pe = EO::encoding(*t);
                                    let q = sub.progress(*t);
                                    assert(pe.subrange(pp0, q) =~= enc.subrange(idx_enc.len() + pp0, idx_enc.len() + q)) by {
                                        assert(pe =~= enc.subrange(idx_enc.len() as int, enc.len() as int));
                                    }
                                }
                                *self = Self::V0(sub);
                                PollEncodeStatus::Pending
                            },
                            PollEncodeStatus::Error(e) => {
                                *self = Self::Failed;
                                proof {
                                    let pe = EO::encoding(*t);
                                    let p = choose|p: int|
                                        #![trigger pe.subrange(pp0, p)]
                                        {
                                            &&& pp0 <= p <= pe.len()
                                            &&& writer.written() == old(writer).written() + pe.subrange(pp0, p)
                                        };
                                    assert(pe.subrange(pp0, p) =~= enc.subrange(idx_enc.len() + pp0, idx_enc.len() + p)) by {
                                        assert(pe =~= enc.subrange(idx_enc.len() as int, enc.len() as int));
                                    }
                                    assert(old(self).progress(*data) == idx_enc.len() as int + pp0);
                                    assert(exists|p2: int|
                                #![trigger Self::encoding(*data).subrange(old(self).progress(*data), p2)]
                                {
                                    &&& old(self).progress(*data) <= p2 <= Self::encoding(*data).len()
                                    &&& writer.written() == old(writer).written() + Self::encoding(*data).subrange(old(self).progress(*data), p2)
                                });
                                }
                                PollEncodeStatus::Error(e)
                            },
                        }
                    },
                    Err(_) => {
                        proof {
                            assert(false);
                        }
                        PollEncodeStatus::Error(crate::io::invalid_input())
                    },
                }
            },
            ResultEncode::V1(mut sub) => {
                match data {
                    Err(t) => {
                        let ghost pp0 = sub.progress(*t);
                        proof {
                            sub.lemma_progress_bounds(*t);
                        }
                        match sub.poll_encode(writer, t) {
                            PollEncodeStatus::Fini => {
                                *self = Self::Fini;
                                proof {
                                    let pe = EE::encoding(*t);
                                    assert(pe.subrange(pp0, pe.len() as int) =~= enc.subrange(idx_enc.len() + pp0, enc.len() as int)) by {
                                        assert(pe =~= enc.subrange(idx_enc.len() as int, enc.len() as int));
                                    }
                                }
                                PollEncodeStatus::Fini
                            },
                            PollEncodeStatus::Pending => {
                                proof {
                                    let pe = EE::encoding(*t);
                                    let q = sub.progress(*t);
                                    assert(pe.subrange(pp0, q) =~= enc.subrange(idx_enc.len() + pp0, idx_enc.len() + q)) by {
                                        assert(pe =~= enc.subrange(idx_enc.len() as int, enc.len() as int));
                                    }
                                }
                                *self = Self::V1(sub);
                                PollEncodeStatus::Pending
                            },
                            PollEncodeStatus::Error(e) => {
                                *self = Self::Failed;
                                proof {
                                    let pe = EE::encoding(*t);
                                    let p = choose|p: int|
                                        #![trigger pe.subrange(pp0, p)]
                                        {
                                            &&& pp0 <= p <= pe.len()
                                            &&& writer.written() == old(writer).written() + pe.subrange(pp0, p)
                                        };
                                    assert(pe.subrange(pp0, p) =~= enc.subrange(idx_enc.len() + pp0, idx_enc.len() + p)) by {
                                        assert(pe =~= enc.subrange(idx_enc.len() as int, enc.len() as int));
                                    }
                                    assert(old(self).progress(*data) == idx_enc.len() as int + pp0);
                                    assert(exists|p2: int|
                                #![trigger Self::encoding(*data).subrange(old(self).progress(*data), p2)]
                                {
                                    &&& old(self).progress(*data) <= p2 <= Self::encoding(*data).len()
                                    &&& writer.written() == old(writer).written() + Self::encoding(*data).subrange(old(self).progress(*data), p2)
                                });
                                }
                                PollEncodeStatus::Error(e)
                            },
                        }
                    },
                    Ok(_) => {
                        proof {
                            assert(false);
                        }
                        PollEncodeStatus::Error(crate::io::invalid_input())
                    },
                }
            },
            ResultEncode::Fini => {
                PollEncodeStatus::Error(crate::io::invalid_input())
            },
            ResultEncode::Failed => {
                PollEncodeStatus::Error(crate::io::invalid_input())
            },
        }
    }
}

/// The cursor of an in-flight either/or decode.
pub enum ResultDecodeCursor<F: Format, DO: Decode, DE: Decode> {
    /// No poll has happened yet.
    Init,
    /// The discriminant is still being gathered.
    Index(F::DecodeVariantIdx),
    /// The discriminant named `Ok`; that payload is being gathered.
    V0(DO),
    /// The discriminant named `Err`; that payload is being gathered.
    V1(DE),
    /// The decode completed.
    Fini,
    /// The decode failed, or was polled after completion.
    Failed,
}

/// The resumable decoder for an either/or value: the current slot of the
/// chain plus the bytes committed by the completed slots.
pub struct ResultDecode<F: Format, DO: Decode, DE: Decode> {
    cursor: ResultDecodeCursor<F, DO, DE>,
    consumed: Ghost<Seq<u8>>,
}

impl<F: Format, DO: Decode, DE: Decode> ResultDecode<F, DO, DE> {
    /// Gather the payload, the discriminant having been fully parsed as
    /// `idx_val` out of the `consumed` bytes.
    fn after_index<R: AsyncRead + AsyncBufRead>(idx_val: usize, reader: &mut R, Ghost(consumed): Ghost<Seq<u8>>) -> (r: StartDecodeStatus<Result<<DO as Decode>::Data, <DE as Decode>::Data>, Self, Error>)
        requires
            <F::DecodeVariantIdx as Decode>::decode_spec(consumed) == DecOutcome::Done(VariantIdx(idx_val), consumed.len() as int),
        ensures
            match r {
                StartDecodeStatus::Fini(d) => exists|n: int|
                    #![trigger old(reader).remaining().take(n)]
                    {
                        &&& 0 <= n <= old(reader).remaining().len()
                        &&& final(reader).remaining() == old(reader).remaining().skip(n)
                        &&& Self::decode_spec(consumed.add(old(reader).remaining().take(n))) == DecOutcome::Done(Self::model(d), consumed.len() + n)
                    },
                StartDecodeStatus::Pending(s) => {
                    &&& s.wf() && !s.done() && !s.failed()
                    &&& exists|n: int|
                        #![trigger old(reader).remaining().take(n)]
                        {
                            &&& 0 <= n <= old(reader).remaining().len()
                            &&& final(reader).remaining() == old(reader).remaining().skip(n)
                            &&& s.taken() == consumed.add(old(reader).remaining().take(n))
                        }
                },
                StartDecodeStatus::Error(e) => {
                    &&& (idx_val >= 2 ==> (e == Error::InvalidData && final(reader).remaining() == old(reader).remaining()))
                    &&& exists|n: int|
                        #![trigger old(reader).remaining().skip(n)]
                        {
                            &&& 0 <= n <= old(reader).remaining().len()
                            &&& final(reader).remaining() == old(reader).remaining().skip(n)
                            &&& (Self::decode_spec(consumed.add(old(reader).remaining().take(n))) is Bad ==> e == Error::InvalidData)
                            &&& !(Self::decode_spec(consumed.add(old(reader).remaining().take(n))) is Done)
                        }
                },
            },
    {
        if idx_val == 0 {
            match DO::start_decode(reader) {
                StartDecodeStatus::Fini(d) => {
                    proof {
                        let all = old(reader).remaining();
                        let m = choose|m: int|
                            #![trigger all.take(m)]
                            {
                                &&& 0 <= m <= all.len()
                                &&& reader.remaining() == all.skip(m)
                                &&& DO::decode_spec(all.take(m)) == DecOutcome::Done(DO::model(d), m)
                            };
                        crate::codec::lemma_dec_lawful::<F::DecodeVariantIdx>();
                        assert(<F::DecodeVariantIdx as Decode>::decode_spec(consumed.add(all.take(m))) == DecOutcome::Done(VariantIdx(idx_val), consumed.len() as int));
                        assert(consumed.add(all.take(m)).skip(consumed.len() as int) =~= all.take(m));
                    }
                    StartDecodeStatus::Fini(Ok(d))
                },
                StartDecodeStatus::Pending(sub) => {
                    let s = ResultDecode { cursor: ResultDecodeCursor::V0(sub), consumed: Ghost(consumed) };
                    StartDecodeStatus::Pending(s)
                },
                StartDecodeStatus::Error(e) => {
                    proof {
                        let all = old(reader).remaining();
                        let n = choose|n: int|
                            #![trigger all.skip(n)]
                            {
                                &&& 0 <= n <= all.len()
                                &&& reader.remaining() == all.skip(n)
                                &&& (DO::decode_spec(all.take(n)) is Bad ==> e == Error::InvalidData)
                                &&& !(DO::decode_spec(all.take(n)) is Done)
                            };
                        crate::codec::lemma_dec_lawful::<F::DecodeVariantIdx>();
                        assert(<F::DecodeVariantIdx as Decode>::decode_spec(consumed.add(all.take(n))) == DecOutcome::Done(VariantIdx(idx_val), consumed.len() as int));
                        assert(consumed.add(all.take(n)).skip(consumed.len() as int) =~= all.take(n));
                        assert(Self::decode_spec(consumed.add(all.take(n))) is Bad ==> e == Error::InvalidData);
                        assert(!(Self::decode_spec(consumed.add(all.take(n))) is Done));
                    }
                    StartDecodeStatus::Error(e)
                },
            }
        } else if idx_val == 1 {
            match DE::start_decode(reader) {
                StartDecodeStatus::Fini(d) => {
                    proof {
                        let all = old(reader).remaining();
                        let m = choose|m: int|
                            #![trigger all.take(m)]
                            {
                                &&& 0 <= m <= all.len()
                                &&& reader.remaining() == all.skip(m)
                                &&& DE::decode_spec(all.take(m)) == DecOutcome::Done(DE::model(d), m)
                            };
                        crate::codec::lemma_dec_lawful::<F::DecodeVariantIdx>();
                        assert(<F::DecodeVariantIdx as Decode>::decode_spec(consumed.add(all.take(m))) == DecOutcome::Done(VariantIdx(idx_val), consumed.len() as int));
                        assert(consumed.add(all.take(m)).skip(consumed.len() as int) =~= all.take(m));
                    }
                    StartDecodeStatus::Fini(Err(d))
                },
                StartDecodeStatus::Pending(sub) => {
                    let s = ResultDecode { cursor: ResultDecodeCursor::V1(sub), consumed: Ghost(consumed) };
                    StartDecodeStatus::Pending(s)
                },
                StartDecodeStatus::Error(e) => {
                    proof {
                        let all = old(reader).remaining();
                        let n = choose|n: int|
                            #![trigger all.skip(n)]
                            {
                                &&& 0 <= n <= all.len()
                                &&& reader.remaining() == all.skip(n)
                                &&& (DE::decode_spec(all.take(n)) is Bad ==> e == Error::InvalidData)
                                &&& !(DE::decode_spec(all.take(n)) is Done)
                            };
                        crate::codec::lemma_dec_lawful::<F::DecodeVariantIdx>();
                        assert(<F::DecodeVariantIdx as Decode>::decode_spec(consumed.add(all.take(n))) == DecOutcome::Done(VariantIdx(idx_val), consumed.len() as int));
                        assert(consumed.add(all.take(n)).skip(consumed.len() as int) =~= all.take(n));
                        assert(Self::decode_spec(consumed.add(all.take(n))) is Bad ==> e == Error::InvalidData);
                        assert(!(Self::decode_spec(consumed.add(all.take(n))) is Done));
                    }
                    StartDecodeStatus::Error(e)
                },
            }
        } else {
            proof {
                assert(consumed.add(old(reader).remaining().take(0)) =~= consumed);
                assert(old(reader).remaining().skip(0) =~= old(reader).remaining());
                assert(Self::decode_spec(consumed) is Bad);
            }
            StartDecodeStatus::Error(F::invalid_data_err())
        }
    }

    /// Begin the whole decode: the discriminant, then the payload.
    fn after_init<R: AsyncRead + AsyncBufRead>(reader: &mut R) -> (r: StartDecodeStatus<Result<<DO as Decode>::Data, <DE as Decode>::Data>, Self, Error>)
        ensures
            match r {
                StartDecodeStatus::Fini(d) => exists|n: int|
                    #![trigger old(reader).remaining().take(n)]
                    {
                        &&& 0 <= n <= old(reader).remaining().len()
                        &&& final(reader).remaining() == old(reader).remaining().skip(n)
                        &&& Self::decode_spec(old(reader).remaining().take(n)) == DecOutcome::Done(Self::model(d), n)
                    },
                StartDecodeStatus::Pending(s) => {
                    &&& s.wf() && !s.done() && !s.failed()
                    &&& exists|n: int|
                        #![trigger old(reader).remaining().take(n)]
                        {
                            &&& 0 <= n <= old(reader).remaining().len()
                            &&& final(reader).remaining() == old(reader).remaining().skip(n)
                            &&& s.taken() == old(reader).remaining().take(n)
                        }
                },
                StartDecodeStatus::Error(e) => exists|n: int|
                    #![trigger old(reader).remaining().skip(n)]
                    {
                        &&& 0 <= n <= old(reader).remaining().len()
                        &&& final(reader).remaining() == old(reader).remaining().skip(n)
                        &&& (Self::decode_spec(old(reader).remaining().take(n)) is Bad ==> e == Error::InvalidData)
                        &&& !(Self::decode_spec(old(reader).remaining().take(n)) is Done)
                    },
            },
    {
        let ghost all = old(reader).remaining();
        match <F::DecodeVariantIdx as Decode>::start_decode(reader) {
            StartDecodeStatus::Fini(idx) => {
                proof {
                    F::lemma_variant_idx_model(idx);
                }
                let ghost n1 = choose|n1: int|
                    #![trigger all.take(n1)]
                    {
                        &&& 0 <= n1 <= all.len()
                        &&& reader.remaining() == all.skip(n1)
                        &&& <F::DecodeVariantIdx as Decode>::decode_spec(all.take(n1)) == DecOutcome::Done(idx, n1)
                    };
                let ghost mid = reader.remaining();
                let r = Self::after_index(idx.value(), reader, Ghost(all.take(n1)));
                proof {
                    match &r {
                        StartDecodeStatus::Fini(d) => {
                            let n2 = choose|n2: int|
                                #![trigger mid.take(n2)]
                                {
                                    &&& 0 <= n2 <= mid.len()
                                    &&& reader.remaining() == mid.skip(n2)
                                    &&& Self::decode_spec(all.take(n1).add(mid.take(n2))) == DecOutcome::Done(Self::model(*d), n1 + n2)
                                };
                            assert(mid.take(n2) =~= all.subrange(n1, n1 + n2));
                            assert(mid.skip(n2) =~= all.skip(n1 + n2));
                            assert(all.take(n1).add(all.subrange(n1, n1 + n2)) =~= all.take(n1 + n2));
                        },
                        StartDecodeStatus::Pending(s) => {
                            let n2 = choose|n2: int|
                                #![trigger mid.take(n2)]
                                {
                                    &&& 0 <= n2 <= mid.len()
                                    &&& reader.remaining() == mid.skip(n2)
                                    &&& s.taken() == all.take(n1).add(mid.take(n2))
                                };
                            assert(mid.take(n2) =~= all.subrange(n1, n1 + n2));
                            assert(mid.skip(n2) =~= all.skip(n1 + n2));
                            assert(all.take(n1).add(all.subrange(n1, n1 + n2)) =~= all.take(n1 + n2));
                        },
                        StartDecodeStatus::Error(e) => {
                            let n2 = choose|n2: int|
                                #![trigger mid.skip(n2)]
                                {
                                    &&& 0 <= n2 <= mid.len()
                                    &&& reader.remaining() == mid.skip(n2)
                                    &&& (Self::decode_spec(all.take(n1).add(mid.take(n2))) is Bad ==> *e == Error::InvalidData)
                                    &&& !(Self::decode_spec(all.take(n1).add(mid.take(n2))) is Done)
                                };
                            assert(mid.take(n2) =~= all.subrange(n1, n1 + n2));
                            assert(mid.skip(n2) =~= all.skip(n1 + n2));
                            assert(all.take(n1).add(all.subrange(n1, n1 + n2)) =~= all.take(n1 + n2));
                        },
                    }
                }
                r
            },
            StartDecodeStatus::Pending(sub) => {
                let s = ResultDecode { cursor: ResultDecodeCursor::Index(sub), consumed: Ghost(Seq::empty()) };
                StartDecodeStatus::Pending(s)
            },
            StartDecodeStatus::Error(e) => {
                proof {
                    let n = choose|n: int|
                        #![trigger all.skip(n)]
                        {
                            &&& 0 <= n <= all.len()
                            &&& reader.remaining() == all.skip(n)
                            &&& (<F::DecodeVariantIdx as Decode>::decode_spec(all.take(n)) is Bad ==> e == Error::InvalidData)
                            &&& !(<F::DecodeVariantIdx as Decode>::decode_spec(all.take(n)) is Done)
                        };
                    assert(Self::decode_spec(all.take(n)) is Bad ==> e == Error::InvalidData);
                    assert(!(Self::decode_spec(all.take(n)) is Done));
                }
                StartDecodeStatus::Error(e)
            },
        }
    }
}

impl<F: Format, DO: Decode, DE: Decode> Decode for ResultDecode<F, DO, DE> {
    type Data = Result<<DO as Decode>::Data, <DE as Decode>::Data>;

    type Model = Result<<DO as Decode>::Model, <DE as Decode>::Model>;

    open spec fn model(d: Result<<DO as Decode>::Data, <DE as Decode>::Data>) -> Result<<DO as Decode>::Model, <DE as Decode>::Model> {
        match d {
            Ok(t) => Ok(DO::model(t)),
            Err(t) => Err(DE::model(t)),
        }
    }

    open spec fn decode_spec(bytes: Seq<u8>) -> DecOutcome<Result<<DO as Decode>::Model, <DE as Decode>::Model>> {
        match <F::DecodeVariantIdx as Decode>::decode_spec(bytes) {
            DecOutcome::Done(idx, n) => if idx.0 == 0 {
                match DO::decode_spec(bytes.skip(n)) {
                    DecOutcome::Done(v, m) => DecOutcome::Done(Ok(v), n + m),
                    DecOutcome::NeedMore => DecOutcome::NeedMore,
                    DecOutcome::Bad => DecOutcome::Bad,
                }
            } else if idx.0 == 1 {
                match DE::decode_spec(bytes.skip(n)) {
                    DecOutcome::Done(v, m) => DecOutcome::Done(Err(v), n + m),
                    DecOutcome::NeedMore => DecOutcome::NeedMore,
                    DecOutcome::Bad => DecOutcome::Bad,
                }
            } else {
                DecOutcome::Bad
            },
            DecOutcome::NeedMore => DecOutcome::NeedMore,
            DecOutcome::Bad => DecOutcome::Bad,
        }
    }

    closed spec fn taken(&self) -> Seq<u8> {
        match &self.cursor {
            ResultDecodeCursor::Init => Seq::empty(),
            ResultDecodeCursor::Index(sub) => sub.taken(),
            ResultDecodeCursor::V0(sub) => self.consumed@ + sub.taken(),
            ResultDecodeCursor::V1(sub) => self.consumed@ + sub.taken(),
            ResultDecodeCursor::Fini => self.consumed@,
            ResultDecodeCursor::Failed => self.consumed@,
        }
    }

    closed spec fn wf(&self) -> bool {
        match &self.cursor {
            ResultDecodeCursor::Init => true,
            ResultDecodeCursor::Index(sub) => sub.wf() && !sub.done() && !sub.failed(),
            ResultDecodeCursor::V0(sub) => {
                &&& <F::DecodeVariantIdx as Decode>::decode_spec(self.consumed@) == DecOutcome::Done(VariantIdx(0), self.consumed@.len() as int)
                &&& sub.wf() && !sub.done() && !sub.failed()
            },
            ResultDecodeCursor::V1(sub) => {
                &&& <F::DecodeVariantIdx as Decode>::decode_spec(self.consumed@) == DecOutcome::Done(VariantIdx(1), self.consumed@.len() as int)
                &&& sub.wf() && !sub.done() && !sub.failed()
            },
            ResultDecodeCursor::Fini => true,
            ResultDecodeCursor::Failed => true,
        }
    }

    closed spec fn done(&self) -> bool {
        self.cursor is Fini
    }

    closed spec fn failed(&self) -> bool {
        self.cursor is Failed
    }

    proof fn lemma_lawful(b: Seq<u8>, ext: Seq<u8>) {
        <F::DecodeVariantIdx as Decode>::lemma_lawful(b, ext);
        match <F::DecodeVariantIdx as Decode>::decode_spec(b) {
            DecOutcome::Done(idx, n) => {
                assert(b.add(ext).skip(n) =~= b.skip(n).add(ext));
                if idx.0 == 0 {
                    DO::lemma_lawful(b.skip(n), ext);
                } else if idx.0 == 1 {
                    DE::lemma_lawful(b.skip(n), ext);
                }
            },
            DecOutcome::NeedMore => {},
            DecOutcome::Bad => {},
        }
    }

    fn init() -> (d: Self) {
        ResultDecode { cursor: ResultDecodeCursor::Init, consumed: Ghost(Seq::empty()) }
    }

    #[verifier::rlimit(100)]
    #[verifier::spinoff_prover]
    fn poll_decode<R: AsyncRead + AsyncBufRead>(&mut self, reader: &mut R) -> (r: PollDecodeStatus<Result<<DO as Decode>::Data, <DE as Decode>::Data>, Error>) {
        let ghost all = old(reader).remaining();
        let mut tmp = ResultDecode { cursor: ResultDecodeCursor::Failed, consumed: Ghost(Seq::empty()) };
        core::mem::swap(self, &mut tmp);
        let ResultDecode { cursor: st, consumed: Ghost(consumed) } = tmp;
        match st {
            ResultDecodeCursor::Init => {
                match Self::after_init(reader) {
                    StartDecodeStatus::Fini(d) => {
                        self.cursor = ResultDecodeCursor::Fini;
                        proof {
                            let n = choose|n: int|
                                #![trigger all.take(n)]
                                {
                                    &&& 0 <= n <= all.len()
                                    &&& reader.remaining() == all.skip(n)
                                    &&& Self::decode_spec(all.take(n)) == DecOutcome::Done(Self::model(d), n)
                                };
                            assert(Seq::<u8>::empty().add(all.take(n)) =~= all.take(n));
                        }
                        PollDecodeStatus::Fini(d)
                    },
                    StartDecodeStatus::Pending(s) => {
                        *self = s;
                        proof {
                            let n = choose|n: int|
                                #![trigger all.take(n)]
                                {
                                    &&& 0 <= n <= all.len()
                                    &&& reader.remaining() == all.skip(n)
                                    &&& self.taken() == all.take(n)
                                };
                            assert(Seq::<u8>::empty().add(all.take(n)) =~= all.take(n));
                        }
                        PollDecodeStatus::Pending
                    },
                    StartDecodeStatus::Error(e) => {
                        proof {
                            let n = choose|n: int|
                                #![trigger all.skip(n)]
                                {
                                    &&& 0 <= n <= all.len()
                                    &&& reader.remaining() == all.skip(n)
                                    &&& (Self::decode_spec(all.take(n)) is Bad ==> e == Error::InvalidData)
                                    &&& !(Self::decode_spec(all.take(n)) is Done)
                                };
                            assert(Seq::<u8>::empty().add(all.take(n)) =~= all.take(n));
                        }
                        PollDecodeStatus::Error(e)
                    },
                }
            },
            ResultDecodeCursor::Index(mut sub) => {
                let ghost t0 = sub.taken();
                match sub.poll_decode(reader) {
                    PollDecodeStatus::Fini(idx) => {
                        proof {
                            F::lemma_variant_idx_model(idx);
                        }
                        let ghost n1 = choose|n1: int|
                            #![trigger all.take(n1)]
                            {
                                &&& 0 <= n1 <= all.len()
                                &&& reader.remaining() == all.skip(n1)
                                &&& <F::DecodeVariantIdx as Decode>::decode_spec(t0.add(all.take(n1))) == DecOutcome::Done(idx, t0.len() + n1)
                            };
                        let ghost committed = t0.add(all.take(n1));
                        let ghost mid = reader.remaining();
                        match Self::after_index(idx.value(), reader, Ghost(committed)) {
                            StartDecodeStatus::Fini(d) => {
                                self.cursor = ResultDecodeCursor::Fini;
                                proof {
                                    let n2 = choose|n2: int|
                                        #![trigger mid.take(n2)]
                                        {
                                            &&& 0 <= n2 <= mid.len()
                                            &&& reader.remaining() == mid.skip(n2)
                                            &&& Self::decode_spec(committed.add(mid.take(n2))) == DecOutcome::Done(Self::model(d), committed.len() + n2)
                                        };
                                    assert(mid.take(n2) =~= all.subrange(n1, n1 + n2));
                                    assert(mid.skip(n2) =~= all.skip(n1 + n2));
                                    assert(committed.add(all.subrange(n1, n1 + n2)) =~= t0.add(all.take(n1 + n2)));
                                }
                                PollDecodeStatus::Fini(d)
                            },
                            StartDecodeStatus::Pending(s) => {
                                *self = s;
                                proof {
                                    let n2 = choose|n2: int|
                                        #![trigger mid.take(n2)]
                                        {
                                            &&& 0 <= n2 <= mid.len()
                                            &&& reader.remaining() == mid.skip(n2)
                                            &&& self.taken() == committed.add(mid.take(n2))
                                        };
                                    assert(mid.take(n2) =~= all.subrange(n1, n1 + n2));
                                    assert(mid.skip(n2) =~= all.skip(n1 + n2));
                                    assert(committed.add(all.subrange(n1, n1 + n2)) =~= t0.add(all.take(n1 + n2)));
                                }
                                PollDecodeStatus::Pending
                            },
                            StartDecodeStatus::Error(e) => {
                                proof {
                                    let n2 = choose|n2: int|
                                        #![trigger mid.skip(n2)]
                                        {
                                            &&& 0 <= n2 <= mid.len()
                                            &&& reader.remaining() == mid.skip(n2)
                                            &&& (Self::decode_spec(committed.add(mid.take(n2))) is Bad ==> e == Error::InvalidData)
                                            &&& !(Self::decode_spec(committed.add(mid.take(n2))) is Done)
                                        };
                                    assert(mid.take(n2) =~= all.subrange(n1, n1 + n2));
                                    assert(mid.skip(n2) =~= all.skip(n1 + n2));
                                    assert(committed.add(all.subrange(n1, n1 + n2)) =~= t0.add(all.take(n1 + n2)));
                                }
                                PollDecodeStatus::Error(e)
                            },
                        }
                    },
                    PollDecodeStatus::Pending => {
                        self.cursor = ResultDecodeCursor::Index(sub);
                        PollDecodeStatus::Pending
                    },
                    PollDecodeStatus::Error(e) => {
                        proof {
                            let n = choose|n: int|
                                #![trigger all.skip(n)]
                                {
                                    &&& 0 <= n <= all.len()
                                    &&& reader.remaining() == all.skip(n)
                                    &&& (<F::DecodeVariantIdx as Decode>::decode_spec(t0.add(all.take(n))) is Bad ==> e == Error::InvalidData)
                                    &&& !(<F::DecodeVariantIdx as Decode>::decode_spec(t0.add(all.take(n))) is Done)
                                };
                            assert(Self::decode_spec(t0.add(all.take(n))) is Bad ==> e == Error::InvalidData);
                            assert(!(Self::decode_spec(t0.add(all.take(n))) is Done));
                        }
                        PollDecodeStatus::Error(e)
                    },
                }
            },
            ResultDecodeCursor::V0(mut sub) => {
                let ghost t0 = sub.taken();
                match sub.poll_decode(reader) {
                    PollDecodeStatus::Fini(d) => {
                        self.cursor = ResultDecodeCursor::Fini;
                        self.consumed = Ghost(consumed);
                        proof {
                            let n = choose|n: int|
                                #![trigger all.take(n)]
                                {
                                    &&& 0 <= n <= all.len()
                                    &&& reader.remaining() == all.skip(n)
                                    &&& DO::decode_spec(t0.add(all.take(n))) == DecOutcome::Done(DO::model(d), t0.len() + n)
                                };
                            crate::codec::lemma_dec_lawful::<F::DecodeVariantIdx>();
                            let total = consumed.add(t0).add(all.take(n));
                            assert(total =~= consumed.add(t0.add(all.take(n))));
                            assert(<F::DecodeVariantIdx as Decode>::decode_spec(total) == DecOutcome::Done(VariantIdx(0), consumed.len() as int));
                            assert(total.skip(consumed.len() as int) =~= t0.add(all.take(n)));
                        }
                        PollDecodeStatus::Fini(Ok(d))
                    },
                    PollDecodeStatus::Pending => {
                        self.cursor = ResultDecodeCursor::V0(sub);
                        self.consumed = Ghost(consumed);
                        proof {
                            let n = choose|n: int|
                                #![trigger all.take(n)]
                                {
                                    &&& 0 <= n <= all.len()
                                    &&& reader.remaining() == all.skip(n)
                                    &&& sub.taken() == t0.add(all.take(n))
                                };
                            assert(consumed.add(t0).add(all.take(n)) =~= consumed.add(t0.add(all.take(n))));
                        }
                        PollDecodeStatus::Pending
                    },
                    PollDecodeStatus::Error(e) => {
                        proof {
                            let n = choose|n: int|
                                #![trigger all.skip(n)]
                                {
                                    &&& 0 <= n <= all.len()
                                    &&& reader.remaining() == all.skip(n)
                                    &&& (DO::decode_spec(t0.add(all.take(n))) is Bad ==> e == Error::InvalidData)
                                    &&& !(DO::decode_spec(t0.add(all.take(n))) is Done)
                                };
                            crate::codec::lemma_dec_lawful::<F::DecodeVariantIdx>();
                            let total = consumed.add(t0).add(all.take(n));
                            assert(total =~= consumed.add(t0.add(all.take(n))));
                            assert(<F::DecodeVariantIdx as Decode>::decode_spec(total) == DecOutcome::Done(VariantIdx(0), consumed.len() as int));
                            assert(total.skip(consumed.len() as int) =~= t0.add(all.take(n)));
                            assert(Self::decode_spec(total) is Bad ==> e == Error::InvalidData);
                            assert(!(Self::decode_spec(total) is Done));
                        }
                        PollDecodeStatus::Error(e)
                    },
                }
            },
            ResultDecodeCursor::V1(mut sub) => {
                let ghost t0 = sub.taken();
                match sub.poll_decode(reader) {
                    PollDecodeStatus::Fini(d) => {
                        self.cursor = ResultDecodeCursor::Fini;
                        self.consumed = Ghost(consumed);
                        proof {
                            let n = choose|n: int|
                                #![trigger all.take(n)]
                                {
                                    &&& 0 <= n <= all.len()
                                    &&& reader.remaining() == all.skip(n)
                                    &&& DE::decode_spec(t0.add(all.take(n))) == DecOutcome::Done(DE::model(d), t0.len() + n)
                                };
                            crate::codec::lemma_dec_lawful::<F::DecodeVariantIdx>();
                            let total = consumed.add(t0).add(all.take(n));
                            assert(total =~= consumed.add(t0.add(all.take(n))));
                            assert(<F::DecodeVariantIdx as Decode>::decode_spec(total) == DecOutcome::Done(VariantIdx(1), consumed.len() as int));
                            assert(total.skip(consumed.len() as int) =~= t0.add(all.take(n)));
                        }
                        PollDecodeStatus::Fini(Err(d))
                    },
                    PollDecodeStatus::Pending => {
                        self.cursor = ResultDecodeCursor::V1(sub);
                        self.consumed = Ghost(consumed);
                        proof {
                            let n = choose|n: int|
                                #![trigger all.take(n)]
                                {
                                    &&& 0 <= n <= all.len()
                                    &&& reader.remaining() == all.skip(n)
                                    &&& sub.taken() == t0.add(all.take(n))
                                };
                            assert(consumed.add(t0).add(all.take(n)) =~= consumed.add(t0.add(all.take(n))));
                        }
                        PollDecodeStatus::Pending
                    },
                    PollDecodeStatus::Error(e) => {
                        proof {
                            let n = choose|n: int|
                                #![trigger all.skip(n)]
                                {
                                    &&& 0 <= n <= all.len()
                                    &&& reader.remaining() == all.skip(n)
                                    &&& (DE::decode_spec(t0.add(all.take(n))) is Bad ==> e == Error::InvalidData)
                                    &&& !(DE::decode_spec(t0.add(all.take(n))) is Done)
                                };
                            crate::codec::lemma_dec_lawful::<F::DecodeVariantIdx>();
                            let total = consumed.add(t0).add(all.take(n));
                            assert(total =~= consumed.add(t0.add(all.take(n))));
                            assert(<F::DecodeVariantIdx as Decode>::decode_spec(total) == DecOutcome::Done(VariantIdx(1), consumed.len() as int));
                            assert(total.skip(consumed.len() as int) =~= t0.add(all.take(n)));
                            assert(Self::decode_spec(total) is Bad ==> e == Error::InvalidData);
                            assert(!(Self::decode_spec(total) is Done));
                        }
                        PollDecodeStatus::Error(e)
                    },
                }
            },
            ResultDecodeCursor::Fini => {
                PollDecodeStatus::Error(crate::io::invalid_input())
            },
            ResultDecodeCursor::Failed => {
                PollDecodeStatus::Error(crate::io::invalid_input())
            },
        }
    }
}

/// The round-trip law for either/or values: whenever both payload pairs
/// agree, so does the either/or pair, under any format.
pub proof fn lemma_result_round_trips<F: Format, EO: Encode, EE: Encode, DO: Decode<Data = <EO as Encode>::Data>, DE: Decode<Data = <EE as Encode>::Data>>()
    requires
        round_trips::<EO, DO>(),
        round_trips::<EE, DE>(),
    ensures
        round_trips::<ResultEncode<F, EO, EE>, ResultDecode<F, DO, DE>>(),
{
    F::lemma_variant_idx_round_trip();
    assert forall|d: Result<<EO as Encode>::Data, <EE as Encode>::Data>, rest: Seq<u8>|
        <ResultEncode<F, EO, EE> as Encode>::encodable(d) implies #[trigger] <ResultDecode<F, DO, DE> as Decode>::decode_spec(<ResultEncode<F, EO, EE> as Encode>::encoding(d).add(rest)) == DecOutcome::<Result<<DO as Decode>::Model, <DE as Decode>::Model>>::Done(<ResultDecode<F, DO, DE> as Decode>::model(d), <ResultEncode<F, EO, EE> as Encode>::encoding(d).len() as int) by {
        let idx_enc = <F::EncodeVariantIdx as Encode>::encoding(res_index(d));
        let pe = res_payload_enc::<EO, EE>(d);
        let whole = <ResultEncode<F, EO, EE> as Encode>::encoding(d).add(rest);
        F::lemma_variant_idx_model(res_index(d));
        assert(whole =~= idx_enc.add(pe.add(rest)));
        assert(<F::DecodeVariantIdx as Decode>::decode_spec(idx_enc.add(pe.add(rest))) == DecOutcome::Done(res_index(d), idx_enc.len() as int));
        assert(whole.skip(idx_enc.len() as int) =~= pe.add(rest));
        match d {
            Ok(t) => {
                assert(DO::decode_spec(EO::encoding(t).add(rest)) == DecOutcome::Done(DO::model(t), EO::encoding(t).len() as int));
            },
            Err(t) => {
                assert(DE::decode_spec(EE::encoding(t).add(rest)) == DecOutcome::Done(DE::model(t), EE::encoding(t).len() as int));
            },
        }
    }
}

impl<F: Format, EO: AsyncSerialization, EE: AsyncSerialization> AsyncSerialization for ResultEncode<F, EO, EE> {
    type Dec = ResultDecode<F, <EO as AsyncSerialization>::Dec, <EE as AsyncSerialization>::Dec>;

    proof fn lemma_round_trip() {
        EO::lemma_round_trip();
        EE::lemma_round_trip();
        lemma_result_round_trips::<F, EO, EE, <EO as AsyncSerialization>::Dec, <EE as AsyncSerialization>::Dec>();
    }
}

} // verus!
