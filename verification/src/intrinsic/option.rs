//! The resumable codec for optional values: a discriminant first, then
//! the payload chain selected by it.

use vstd::prelude::*;

use crate::codec::{AsyncSerialization, DecOutcome, Decode, Encode, Format, PollDecodeStatus, PollEncodeStatus, StartDecodeStatus, StartEncodeStatus, round_trips};
use crate::internal::VariantIdx;
use crate::io::{AsyncBufRead, AsyncRead, AsyncWrite, Error};

verus! {

/// The discriminant committed to the wire for an optional value.
pub open spec fn opt_index<T>(data: Option<T>) -> VariantIdx {
    match data {
        None => VariantIdx(0),
        Some(_) => VariantIdx(1),
    }
}

/// The wire image of an optional value's payload, after its discriminant.
pub open spec fn opt_payload_enc<F: Format, E: Encode>(data: Option<<E as Encode>::Data>) -> Seq<u8> {
    match data {
        None => <F::EncodeUnit as Encode>::encoding(()),
        Some(t) => E::encoding(t),
    }
}

/// The resumable encoder for an optional value.
pub enum OptionEncode<F: Format, E: Encode> {
    /// No poll has happened yet.
    Init,
    /// The discriminant is still being emitted.
    Index(VariantIdx, F::EncodeVariantIdx),
    /// The discriminant named `None`; the unit payload is being emitted.
    V0(F::EncodeUnit),
    /// The discriminant named `Some`; the inner payload is being emitted.
    V1(E),
    /// The encode completed.
    Fini,
    /// The encode failed, or was polled after completion.
    Failed,
}

impl<F: Format, E: Encode> OptionEncode<F, E> {
    /// Emit the payload, the discriminant having been fully emitted.
    fn after_index<W: AsyncWrite>(writer: &mut W, data: &Option<<E as Encode>::Data>) -> (r: StartEncodeStatus<Self, Error>)
        requires
            Self::encodable(*data),
        ensures
            match r {
                StartEncodeStatus::Fini => final(writer).written() == old(writer).written() + opt_payload_enc::<F, E>(*data),
                StartEncodeStatus::Pending(s) => {
                    &&& s.wf(*data) && !s.done() && !s.failed()
                    &&& <F::EncodeVariantIdx as Encode>::encoding(opt_index(*data)).len() <= s.progress(*data) <= Self::encoding(*data).len()
                    &&& final(writer).written() == old(writer).written() + Self::encoding(*data).subrange(<F::EncodeVariantIdx as Encode>::encoding(opt_index(*data)).len() as int, s.progress(*data))
                },
                StartEncodeStatus::Error(e) => exists|p: int|
                    #![trigger Self::encoding(*data).subrange(<F::EncodeVariantIdx as Encode>::encoding(opt_index(*data)).len() as int, p)]
                    {
                        &&& <F::EncodeVariantIdx as Encode>::encoding(opt_index(*data)).len() <= p <= Self::encoding(*data).len()
                        &&& final(writer).written() == old(writer).written() + Self::encoding(*data).subrange(<F::EncodeVariantIdx as Encode>::encoding(opt_index(*data)).len() as int, p)
                    },
            },
    {
        let ghost idx_len = <F::EncodeVariantIdx as Encode>::encoding(opt_index(*data)).len() as int;
        let ghost enc = Self::encoding(*data);
        match data {
            None => {
                let r = <F::EncodeUnit as Encode>::start_encode(writer, &());
                proof {
                    let pe = opt_payload_enc::<F, E>(*data);
                    if let StartEncodeStatus::Pending(s) = &r {
                        assert(enc.subrange(idx_len, idx_len + s.progress(())) =~= pe.take(s.progress(())));
                    }
                    if r is Error {
                        let p = choose|p: int|
                            #![trigger <F::EncodeUnit as Encode>::encoding(()).take(p)]
                            {
                                &&& 0 <= p <= <F::EncodeUnit as Encode>::encoding(()).len()
                                &&& writer.written() == old(writer).written() + <F::EncodeUnit as Encode>::encoding(()).take(p)
                            };
                        assert(enc.subrange(idx_len, idx_len + p) =~= <F::EncodeUnit as Encode>::encoding(()).take(p));
                    }
                }
                r.map_pending(|s: F::EncodeUnit| -> (out: Self)
                    ensures
                        out == Self::V0(s),
                    { Self::V0(s) })
            },
            Some(t) => {
                let r = E::start_encode(writer, t);
                proof {
                    let pe = opt_payload_enc::<F, E>(*data);
                    if let StartEncodeStatus::Pending(s) = &r {
                        assert(enc.subrange(idx_len, idx_len + s.progress(*t)) =~= pe.take(s.progress(*t)));
                    }
                    if r is Error {
                        let p = choose|p: int|
                            #![trigger E::encoding(*t).take(p)]
                            {
                                &&& 0 <= p <= E::encoding(*t).len()
                                &&& writer.written() == old(writer).written() + E::encoding(*t).take(p)
                            };
                        assert(enc.subrange(idx_len, idx_len + p) =~= E::encoding(*t).take(p));
                    }
                }
                r.map_pending(|s: E| -> (out: Self)
                    ensures
                        out == Self::V1(s),
                    { Self::V1(s) })
            },
        }
    }

    /// Begin the whole encode: the discriminant, then the payload.
    fn after_init<W: AsyncWrite>(writer: &mut W, data: &Option<<E as Encode>::Data>) -> (r: StartEncodeStatus<Self, Error>)
        requires
            Self::encodable(*data),
        ensures
            match r {
                StartEncodeStatus::Fini => final(writer).written() == old(writer).written() + Self::encoding(*data),
                StartEncodeStatus::Pending(s) => {
                    &&& s.wf(*data) && !s.done() && !s.failed()
                    &&& 0 <= s.progress(*data) <= Self::encoding(*data).len()
                    &&& final(writer).written() == old(writer).written() + Self::encoding(*data).take(s.progress(*data))
                },
                StartEncodeStatus::Error(e) => exists|p: int|
                    #![trigger Self::encoding(*data).take(p)]
                    {
                        &&& 0 <= p <= Self::encoding(*data).len()
                        &&& final(writer).written() == old(writer).written() + Self::encoding(*data).take(p)
                    },
            },
    {
        let ghost enc = Self::encoding(*data);
        let ghost idx_enc = <F::EncodeVariantIdx as Encode>::encoding(opt_index(*data));
        let ghost pe = opt_payload_enc::<F, E>(*data);
        let index = match data {
            None => VariantIdx::new(0),
            Some(_) => VariantIdx::new(1),
        };
        match <F::EncodeVariantIdx as Encode>::start_encode(writer, &index) {
            StartEncodeStatus::Fini => {
                let r = Self::after_index(writer, data);
                proof {
                    match &r {
                        StartEncodeStatus::Fini => {
                            assert(old(writer).written() + idx_enc + pe =~= old(writer).written() + enc);
                        },
                        StartEncodeStatus::Pending(s) => {
                            assert(old(writer).written() + idx_enc + enc.subrange(idx_enc.len() as int, s.progress(*data)) =~= old(writer).written() + enc.take(s.progress(*data))) by {
                                assert(idx_enc =~= enc.take(idx_enc.len() as int));
                                assert(enc.take(idx_enc.len() as int) + enc.subrange(idx_enc.len() as int, s.progress(*data)) =~= enc.take(s.progress(*data)));
                            }
                        },
                        StartEncodeStatus::Error(e) => {
                            let p = choose|p: int|
                                #![trigger enc.subrange(idx_enc.len() as int, p)]
                                {
                                    &&& idx_enc.len() <= p <= enc.len()
                                    &&& writer.written() == old(writer).written() + idx_enc + enc.subrange(idx_enc.len() as int, p)
                                };
                            assert(old(writer).written() + idx_enc + enc.subrange(idx_enc.len() as int, p) =~= old(writer).written() + enc.take(p)) by {
                                assert(idx_enc =~= enc.take(idx_enc.len() as int));
                                assert(enc.take(idx_enc.len() as int) + enc.subrange(idx_enc.len() as int, p) =~= enc.take(p));
                            }
                        },
                    }
                }
                r
            },
            StartEncodeStatus::Pending(s) => {
                proof {
                    assert(idx_enc.take(s.progress(index)) =~= enc.take(s.progress(index))) by {
                        assert(idx_enc =~= enc.take(idx_enc.len() as int));
                    }
                }
                StartEncodeStatus::Pending(Self::Index(index, s))
            },
            StartEncodeStatus::Error(e) => {
                proof {
                    let p = choose|p: int|
                        #![trigger idx_enc.take(p)]
                        {
                            &&& 0 <= p <= idx_enc.len()
                            &&& writer.written() == old(writer).written() + idx_enc.take(p)
                        };
                    assert(idx_enc.take(p) =~= enc.take(p)) by {
                        assert(idx_enc =~= enc.take(idx_enc.len() as int));
                    }
                }
                StartEncodeStatus::Error(e)
            },
        }
    }
}

impl<F: Format, E: Encode> Encode for OptionEncode<F, E> {
    type Data = Option<<E as Encode>::Data>;

    open spec fn encoding(data: Option<<E as Encode>::Data>) -> Seq<u8> {
        <F::EncodeVariantIdx as Encode>::encoding(opt_index(data)) + opt_payload_enc::<F, E>(data)
    }

    open spec fn encodable(data: Option<<E as Encode>::Data>) -> bool {
        &&& <F::EncodeVariantIdx as Encode>::encodable(opt_index(data))
        &&& match data {
            None => <F::EncodeUnit as Encode>::encodable(()),
            Some(t) => E::encodable(t),
        }
    }

    closed spec fn progress(&self, data: Option<<E as Encode>::Data>) -> int {
        let idx_len = <F::EncodeVariantIdx as Encode>::encoding(opt_index(data)).len() as int;
        match self {
            OptionEncode::Init => 0,
            OptionEncode::Index(idx, sub) => sub.progress(*idx),
            OptionEncode::V0(sub) => idx_len + sub.progress(()),
            OptionEncode::V1(sub) => match data {
                Some(t) => idx_len + sub.progress(t),
                None => 0,
            },
            OptionEncode::Fini => Self::encoding(data).len() as int,
            OptionEncode::Failed => 0,
        }
    }

    closed spec fn wf(&self, data: Option<<E as Encode>::Data>) -> bool {
        match self {
            OptionEncode::Init => true,
            OptionEncode::Index(idx, sub) => {
                &&& *idx == opt_index(data)
                &&& sub.wf(*idx) && !sub.done() && !sub.failed()
            },
            OptionEncode::V0(sub) => {
                &&& data is None
                &&& sub.wf(()) && !sub.done() && !sub.failed()
            },
            OptionEncode::V1(sub) => match data {
                Some(t) => sub.wf(t) && !sub.done() && !sub.failed(),
                None => false,
            },
            OptionEncode::Fini => true,
            OptionEncode::Failed => true,
        }
    }

    closed spec fn done(&self) -> bool {
        self is Fini
    }

    closed spec fn failed(&self) -> bool {
        self is Failed
    }

    proof fn lemma_progress_bounds(&self, data: Option<<E as Encode>::Data>) {
        match self {
            OptionEncode::Index(idx, sub) => {
                sub.lemma_progress_bounds(*idx);
            },
            OptionEncode::V0(sub) => {
                sub.lemma_progress_bounds(());
            },
            OptionEncode::V1(sub) => {
                if let Some(t) = data {
                    sub.lemma_progress_bounds(t);
                }
            },
            _ => {},
        }
    }

    fn init(data: &Option<<E as Encode>::Data>) -> (e: Self) {
        OptionEncode::Init
    }

    #[verifier::rlimit(100)]
    #[verifier::spinoff_prover]
    fn poll_encode<W: AsyncWrite>(&mut self, writer: &mut W, data: &Option<<E as Encode>::Data>) -> (r: PollEncodeStatus<Error>) {
        let ghost enc = Self::encoding(*data);
        let ghost idx_enc = <F::EncodeVariantIdx as Encode>::encoding(opt_index(*data));
        let mut st = Self::Failed;
        core::mem::swap(self, &mut st);
        match st {
            OptionEncode::Init => {
                match Self::after_init(writer, data) {
                    StartEncodeStatus::Fini => {
                        *self = Self::Fini;
                        proof {
                            assert(enc.subrange(0, enc.len() as int) =~= enc);
                        }
                        PollEncodeStatus::Fini
                    },
                    StartEncodeStatus::Pending(s) => {
                        proof {
                            assert(enc.take(s.progress(*data)) =~= enc.subrange(0, s.progress(*data)));
                        }
                        *self = s;
                        PollEncodeStatus::Pending
                    },
                    StartEncodeStatus::Error(e) => {
                        *self = Self::Failed;
                        proof {
                            let p = choose|p: int|
                                #![trigger enc.take(p)]
                                {
                                    &&& 0 <= p <= enc.len()
                                    &&& writer.written() == old(writer).written() + enc.take(p)
                                };
                            assert(enc.take(p) =~= enc.subrange(0, p));
                        }
                        PollEncodeStatus::Error(e)
                    },
                }
            },
            OptionEncode::Index(idx, mut sub) => {
                let ghost p0 = sub.progress(idx);
                proof {
                    sub.lemma_progress_bounds(idx);
                }
                match sub.poll_encode(writer, &idx) {
                    PollEncodeStatus::Fini => {
                        proof {
                            assert(idx_enc.subrange(p0, idx_enc.len() as int) =~= enc.subrange(p0, idx_enc.len() as int)) by {
                                assert(idx_enc =~= enc.take(idx_enc.len() as int));
                            }
                        }
                        match Self::after_index(writer, data) {
                            StartEncodeStatus::Fini => {
                                *self = Self::Fini;
                                proof {
                                    assert(old(writer).written() + enc.subrange(p0, idx_enc.len() as int) + opt_payload_enc::<F, E>(*data) =~= old(writer).written() + enc.subrange(p0, enc.len() as int)) by {
                                        assert(enc.subrange(p0, idx_enc.len() as int) + enc.subrange(idx_enc.len() as int, enc.len() as int) =~= enc.subrange(p0, enc.len() as int));
                                        assert(opt_payload_enc::<F, E>(*data) =~= enc.subrange(idx_enc.len() as int, enc.len() as int));
                                    }
                                }
                                PollEncodeStatus::Fini
                            },
                            StartEncodeStatus::Pending(s) => {
                                proof {
                                    assert(old(writer).written() + enc.subrange(p0, idx_enc.len() as int) + enc.subrange(idx_enc.len() as int, s.progress(*data)) =~= old(writer).written() + enc.subrange(p0, s.progress(*data)));
                                }
                                *self = s;
                                PollEncodeStatus::Pending
                            },
                            StartEncodeStatus::Error(e) => {
                                *self = Self::Failed;
                                proof {
                                    let p = choose|p: int|
                                        #![trigger enc.subrange(idx_enc.len() as int, p)]
                                        {
                                            &&& idx_enc.len() <= p <= enc.len()
                                            &&& writer.written() == old(writer).written() + enc.subrange(p0, idx_enc.len() as int) + enc.subrange(idx_enc.len() as int, p)
                                        };
                                    assert(old(writer).written() + enc.subrange(p0, idx_enc.len() as int) + enc.subrange(idx_enc.len() as int, p) =~= old(writer).written() + enc.subrange(p0, p)) by {
                                        assert(enc.subrange(p0, idx_enc.len() as int) + enc.subrange(idx_enc.len() as int, p) =~= enc.subrange(p0, p));
                                    }
                                }
                                PollEncodeStatus::Error(e)
                            },
                        }
                    },
                    PollEncodeStatus::Pending => {
                        proof {
                            assert(idx_enc.subrange(p0, sub.progress(idx)) =~= enc.subrange(p0, sub.progress(idx))) by {
                                assert(idx_enc =~= enc.take(idx_enc.len() as int));
                            }
                        }
                        *self = Self::Index(idx, sub);
                        PollEncodeStatus::Pending
                    },
                    PollEncodeStatus::Error(e) => {
                        *self = Self::Failed;
                        proof {
                            let p = choose|p: int|
                                #![trigger idx_enc.subrange(p0, p)]
                                {
                                    &&& p0 <= p <= idx_enc.len()
                                    &&& writer.written() == old(writer).written() + idx_enc.subrange(p0, p)
                                };
                            assert(idx_enc.subrange(p0, p) =~= enc.subrange(p0, p)) by {
                                assert(idx_enc =~= enc.take(idx_enc.len() as int));
                            }
                        }
                        PollEncodeStatus::Error(e)
                    },
                }
            },
            OptionEncode::V0(mut sub) => {
                let ghost p0 = <F::EncodeVariantIdx as Encode>::encoding(opt_index(*data)).len() as int + sub.progress(());
                let ghost sp0 = sub.progress(());
                proof {
                    sub.lemma_progress_bounds(());
                }
                match sub.poll_encode(writer, &()) {
                    PollEncodeStatus::Fini => {
                        *self = Self::Fini;
                        proof {
                            let ue = <F::EncodeUnit as Encode>::encoding(());
                            assert(ue.subrange(sp0, ue.len() as int) =~= enc.subrange(p0, enc.len() as int)) by {
                                assert(ue =~= enc.subrange(idx_enc.len() as int, enc.len() as int));
                            }
                        }
                        PollEncodeStatus::Fini
                    },
                    PollEncodeStatus::Pending => {
                        proof {
                            let ue = <F::EncodeUnit as Encode>::encoding(());
                            let q = sub.progress(());
                            assert(ue.subrange(old(self).progress(*data) - idx_enc.len() as int, q) =~= enc.subrange(old(self).progress(*data), idx_enc.len() + q)) by {
                                assert(ue =~= enc.subrange(idx_enc.len() as int, enc.len() as int));
                            }
                        }
                        *self = Self::V0(sub);
                        PollEncodeStatus::Pending
                    },
                    PollEncodeStatus::Error(e) => {
                        *self = Self::Failed;
                        proof {
                            let ue = <F::EncodeUnit as Encode>::encoding(());
                            let p = choose|p: int|
                                #![trigger ue.subrange(sp0, p)]
                                {
                                    &&& sp0 <= p <= ue.len()
                                    &&& writer.written() == old(writer).written() + ue.subrange(sp0, p)
                                };
                            assert(ue.subrange(sp0, p) =~= enc.subrange(idx_enc.len() + sp0, idx_enc.len() + p)) by {
                                assert(ue =~= enc.subrange(idx_enc.len() as int, enc.len() as int));
                            }
                        }
                        PollEncodeStatus::Error(e)
                    },
                }
            },
            OptionEncode::V1(mut sub) => {
                match data {
                    Some(t) => {
                        let ghost pp0 = sub.progress(*t);
                        proof {
                            sub.lemma_progress_bounds(*t);
                        }
                        match sub.poll_encode(writer, t) {
                            PollEncodeStatus::Fini => {
                                *self = Self::Fini;
                                proof {
                                    let pe = E::encoding(*t);
                                    assert(pe.subrange(pp0, pe.len() as int) =~= enc.subrange(idx_enc.len() + pp0, enc.len() as int)) by {
                                        assert(pe =~= enc.subrange(idx_enc.len() as int, enc.len() as int));
                                    }
                                }
                                PollEncodeStatus::Fini
                            },
                            PollEncodeStatus::Pending => {
                                proof {
                                    let pe = E::encoding(*t);
                                    let q = sub.progress(*t);
                                    assert(pe.subrange(pp0, q) =~= enc.subrange(idx_enc.len() + pp0, idx_enc.len() + q)) by {
                                        assert(pe =~= enc.subrange(idx_enc.len() as int, enc.len() as int));
                                    }
                                }
                                *self = Self::V1(sub);
                                PollEncodeStatus::Pending
                            },
                            PollEncodeStatus::Error(e) => {
                                *self = Self::Failed;
                                proof {
                                    let pe = E::encoding(*t);
                                    let p = choose|p: int|
                                        #![trigger pe.subrange(pp0, p)]
                                        {
                                            &&& pp0 <= p <= pe.len()
                                            &&& writer.written() == old(writer).written() + pe.subrange(pp0, p)
                                        };
                                    assert(pe.subrange(pp0, p) =~= enc.subrange(idx_enc.len() + pp0, idx_enc.len() + p)) by {
                                        assert(pe =~= enc.subrange(idx_enc.len() as int, enc.len() as int));
                                    }
                                }
                                PollEncodeStatus::Error(e)
                            },
                        }
                    },
                    None => {
                        proof {
                            assert(false);
                        }
                        PollEncodeStatus::Error(crate::io::invalid_input())
                    },
                }
            },
            OptionEncode::Fini => {
                PollEncodeStatus::Error(crate::io::invalid_input())
            },
            OptionEncode::Failed => {
                PollEncodeStatus::Error(crate::io::invalid_input())
            },
        }
    }
}

/// The cursor of an in-flight optional-value decode.
pub enum OptionDecodeCursor<F: Format, D: Decode> {
    /// No poll has happened yet.
    Init,
    /// The discriminant is still being gathered.
    Index(F::DecodeVariantIdx),
    /// The discriminant named `None`; the unit payload is being gathered.
    V0(F::DecodeUnit),
    /// The discriminant named `Some`; the inner payload is being gathered.
    V1(D),
    /// The decode completed.
    Fini,
    /// The decode failed, or was polled after completion.
    Failed,
}

/// The resumable decoder for an optional value: the current slot of the
/// chain plus the bytes committed by the completed slots.
pub struct OptionDecode<F: Format, D: Decode> {
    cursor: OptionDecodeCursor<F, D>,
    consumed: Ghost<Seq<u8>>,
}

impl<F: Format, D: Decode> OptionDecode<F, D> {
    /// Gather the payload, the discriminant having been fully parsed as
    /// `idx_val` out of the `consumed` bytes.
    fn after_index<R: AsyncRead + AsyncBufRead>(idx_val: usize, reader: &mut R, Ghost(consumed): Ghost<Seq<u8>>) -> (r: StartDecodeStatus<Option<<D as Decode>::Data>, Self, Error>)
        requires
            <F::DecodeVariantIdx as Decode>::decode_spec(consumed) == DecOutcome::Done(VariantIdx(idx_val), consumed.len() as int),
        ensures
            match r {
                StartDecodeStatus::Fini(d) => exists|n: int|
                    #![trigger old(reader).remaining().take(n)]
                    {
                        &&& 0 <= n <= old(reader).remaining().len()
                        &&& final(reader).remaining() == old(reader).remaining().skip(n)
                        &&& Self::decode_spec(consumed.add(old(reader).remaining().take(n))) == DecOutcome::Done(Self::model(d), consumed.len() + n)
                    },
                StartDecodeStatus::Pending(s) => {
                    &&& s.wf() && !s.done() && !s.failed()
                    &&& exists|n: int|
                        #![trigger old(reader).remaining().take(n)]
                        {
                            &&& 0 <= n <= old(reader).remaining().len()
                            &&& final(reader).remaining() == old(reader).remaining().skip(n)
                            &&& s.taken() == consumed.add(old(reader).remaining().take(n))
                        }
                },
                StartDecodeStatus::Error(e) => {
                    &&& (idx_val >= 2 ==> (e == Error::InvalidData && final(reader).remaining() == old(reader).remaining()))
                    &&& exists|n: int|
                        #![trigger old(reader).remaining().skip(n)]
                        {
                            &&& 0 <= n <= old(reader).remaining().len()
                            &&& final(reader).remaining() == old(reader).remaining().skip(n)
                            &&& (Self::decode_spec(consumed.add(old(reader).remaining().take(n))) is Bad ==> e == Error::InvalidData)
                            &&& !(Self::decode_spec(consumed.add(old(reader).remaining().take(n))) is Done)
                        }
                },
            },
    {
        if idx_val == 0 {
            match <F::DecodeUnit as Decode>::start_decode(reader) {
                StartDecodeStatus::Fini(_) => {
                    proof {
                        let all = old(reader).remaining();
                        let m = choose|m: int|
                            #![trigger all.take(m)]
                            {
                                &&& 0 <= m <= all.len()
                                &&& reader.remaining() == all.skip(m)
                                &&& <F::DecodeUnit as Decode>::decode_spec(all.take(m)) == DecOutcome::<()>::Done((), m)
                            };
                        crate::codec::lemma_dec_lawful::<F::DecodeVariantIdx>();
                        assert(<F::DecodeVariantIdx as Decode>::decode_spec(consumed.add(all.take(m))) == DecOutcome::Done(VariantIdx(idx_val), consumed.len() as int));
                        assert(consumed.add(all.take(m)).skip(consumed.len() as int) =~= all.take(m));
                    }
                    StartDecodeStatus::Fini(None)
                },
                StartDecodeStatus::Pending(sub) => {
                    let s = OptionDecode { cursor: OptionDecodeCursor::V0(sub), consumed: Ghost(consumed) };
                    StartDecodeStatus::Pending(s)
                },
                StartDecodeStatus::Error(e) => {
                    proof {
                        let all = old(reader).remaining();
                        let n = choose|n: int|
                            #![trigger all.skip(n)]
                            {
                                &&& 0 <= n <= all.len()
                                &&& reader.remaining() == all.skip(n)
                                &&& (<F::DecodeUnit as Decode>::decode_spec(all.take(n)) is Bad ==> e == Error::InvalidData)
                                &&& !(<F::DecodeUnit as Decode>::decode_spec(all.take(n)) is Done)
                            };
                        crate::codec::lemma_dec_lawful::<F::DecodeVariantIdx>();
                        assert(<F::DecodeVariantIdx as Decode>::decode_spec(consumed.add(all.take(n))) == DecOutcome::Done(VariantIdx(idx_val), consumed.len() as int));
                        assert(consumed.add(all.take(n)).skip(consumed.len() as int) =~= all.take(n));
                        assert(Self::decode_spec(consumed.add(all.take(n))) is Bad ==> e == Error::InvalidData);
                        assert(!(Self::decode_spec(consumed.add(all.take(n))) is Done));
                    }
                    StartDecodeStatus::Error(e)
                },
            }
        } else if idx_val == 1 {
            match D::start_decode(reader) {
                StartDecodeStatus::Fini(d) => {
                    proof {
                        let all = old(reader).remaining();
                        let m = choose|m: int|
                            #![trigger all.take(m)]
                            {
                                &&& 0 <= m <= all.len()
                                &&& reader.remaining() == all.skip(m)
                                &&& D::decode_spec(all.take(m)) == DecOutcome::Done(D::model(d), m)
                            };
                        crate::codec::lemma_dec_lawful::<F::DecodeVariantIdx>();
                        assert(<F::DecodeVariantIdx as Decode>::decode_spec(consumed.add(all.take(m))) == DecOutcome::Done(VariantIdx(idx_val), consumed.len() as int));
                        assert(consumed.add(all.take(m)).skip(consumed.len() as int) =~= all.take(m));
                    }
                    StartDecodeStatus::Fini(Some(d))
                },
                StartDecodeStatus::Pending(sub) => {
                    let s = OptionDecode { cursor: OptionDecodeCursor::V1(sub), consumed: Ghost(consumed) };
                    StartDecodeStatus::Pending(s)
                },
                StartDecodeStatus::Error(e) => {
                    proof {
                        let all = old(reader).remaining();
                        let n = choose|n: int|
                            #![trigger all.skip(n)]
                            {
                                &&& 0 <= n <= all.len()
                                &&& reader.remaining() == all.skip(n)
                                &&& (D::decode_spec(all.take(n)) is Bad ==> e == Error::InvalidData)
                                &&& !(D::decode_spec(all.take(n)) is Done)
                            };
                        crate::codec::lemma_dec_lawful::<F::DecodeVariantIdx>();
                        assert(<F::DecodeVariantIdx as Decode>::decode_spec(consumed.add(all.take(n))) == DecOutcome::Done(VariantIdx(idx_val), consumed.len() as int));
                        assert(consumed.add(all.take(n)).skip(consumed.len() as int) =~= all.take(n));
                        assert(Self::decode_spec(consumed.add(all.take(n))) is Bad ==> e == Error::InvalidData);
                        assert(!(Self::decode_spec(consumed.add(all.take(n))) is Done));
                    }
                    StartDecodeStatus::Error(e)
                },
            }
        } else {
            proof {
                assert(consumed.add(old(reader).remaining().take(0)) =~= consumed);
                assert(old(reader).remaining().skip(0) =~= old(reader).remaining());
                assert(Self::decode_spec(consumed) is Bad);
            }
            StartDecodeStatus::Error(F::invalid_data_err())
        }
    }

    /// Begin the whole decode: the discriminant, then the payload.
    fn after_init<R: AsyncRead + AsyncBufRead>(reader: &mut R) -> (r: StartDecodeStatus<Option<<D as Decode>::Data>, Self, Error>)
        ensures
            match r {
                StartDecodeStatus::Fini(d) => exists|n: int|
                    #![trigger old(reader).remaining().take(n)]
                    {
                        &&& 0 <= n <= old(reader).remaining().len()
                        &&& final(reader).remaining() == old(reader).remaining().skip(n)
                        &&& Self::decode_spec(old(reader).remaining().take(n)) == DecOutcome::Done(Self::model(d), n)
                    },
                StartDecodeStatus::Pending(s) => {
                    &&& s.wf() && !s.done() && !s.failed()
                    &&& exists|n: int|
                        #![trigger old(reader).remaining().take(n)]
                        {
                            &&& 0 <= n <= old(reader).remaining().len()
                            &&& final(reader).remaining() == old(reader).remaining().skip(n)
                            &&& s.taken() == old(reader).remaining().take(n)
                        }
                },
                StartDecodeStatus::Error(e) => exists|n: int|
                    #![trigger old(reader).remaining().skip(n)]
                    {
                        &&& 0 <= n <= old(reader).remaining().len()
                        &&& final(reader).remaining() == old(reader).remaining().skip(n)
                        &&& (Self::decode_spec(old(reader).remaining().take(n)) is Bad ==> e == Error::InvalidData)
                        &&& !(Self::decode_spec(old(reader).remaining().take(n)) is Done)
                    },
            },
    {
        let ghost all = old(reader).remaining();
        match <F::DecodeVariantIdx as Decode>::start_decode(reader) {
            StartDecodeStatus::Fini(idx) => {
                proof {
                    F::lemma_variant_idx_model(idx);
                }
                let ghost n1 = choose|n1: int|
                    #![trigger all.take(n1)]
                    {
                        &&& 0 <= n1 <= all.len()
                        &&& reader.remaining() == all.skip(n1)
                        &&& <F::DecodeVariantIdx as Decode>::decode_spec(all.take(n1)) == DecOutcome::Done(idx, n1)
                    };
                let ghost mid = reader.remaining();
                let r = Self::after_index(idx.value(), reader, Ghost(all.take(n1)));
                proof {
                    match &r {
                        StartDecodeStatus::Fini(d) => {
                            let n2 = choose|n2: int|
                                #![trigger mid.take(n2)]
                                {
                                    &&& 0 <= n2 <= mid.len()
                                    &&& reader.remaining() == mid.skip(n2)
                                    &&& Self::decode_spec(all.take(n1).add(mid.take(n2))) == DecOutcome::Done(Self::model(*d), n1 + n2)
                                };
                            assert(mid.take(n2) =~= all.subrange(n1, n1 + n2));
                            assert(mid.skip(n2) =~= all.skip(n1 + n2));
                            assert(all.take(n1).add(all.subrange(n1, n1 + n2)) =~= all.take(n1 + n2));
                        },
                        StartDecodeStatus::Pending(s) => {
                            let n2 = choose|n2: int|
                                #![trigger mid.take(n2)]
                                {
                                    &&& 0 <= n2 <= mid.len()
                                    &&& reader.remaining() == mid.skip(n2)
                                    &&& s.taken() == all.take(n1).add(mid.take(n2))
                                };
                            assert(mid.take(n2) =~= all.subrange(n1, n1 + n2));
                            assert(mid.skip(n2) =~= all.skip(n1 + n2));
                            assert(all.take(n1).add(all.subrange(n1, n1 + n2)) =~= all.take(n1 + n2));
                        },
                        StartDecodeStatus::Error(e) => {
                            let n2 = choose|n2: int|
                                #![trigger mid.skip(n2)]
                                {
                                    &&& 0 <= n2 <= mid.len()
                                    &&& reader.remaining() == mid.skip(n2)
                                    &&& (Self::decode_spec(all.take(n1).add(mid.take(n2))) is Bad ==> *e == Error::InvalidData)
                                    &&& !(Self::decode_spec(all.take(n1).add(mid.take(n2))) is Done)
                                };
                            assert(mid.take(n2) =~= all.subrange(n1, n1 + n2));
                            assert(mid.skip(n2) =~= all.skip(n1 + n2));
                            assert(all.take(n1).add(all.subrange(n1, n1 + n2)) =~= all.take(n1 + n2));
                        },
                    }
                }
                r
            },
            StartDecodeStatus::Pending(sub) => {
                let s = OptionDecode { cursor: OptionDecodeCursor::Index(sub), consumed: Ghost(Seq::empty()) };
                StartDecodeStatus::Pending(s)
            },
            StartDecodeStatus::Error(e) => {
                proof {
                    let n = choose|n: int|
                        #![trigger all.skip(n)]
                        {
                            &&& 0 <= n <= all.len()
                            &&& reader.remaining() == all.skip(n)
                            &&& (<F::DecodeVariantIdx as Decode>::decode_spec(all.take(n)) is Bad ==> e == Error::InvalidData)
                            &&& !(<F::DecodeVariantIdx as Decode>::decode_spec(all.take(n)) is Done)
                        };
                    assert(Self::decode_spec(all.take(n)) is Bad ==> e == Error::InvalidData);
                    assert(!(Self::decode_spec(all.take(n)) is Done));
                }
                StartDecodeStatus::Error(e)
            },
        }
    }
}

impl<F: Format, D: Decode> Decode for OptionDecode<F, D> {
    type Data = Option<<D as Decode>::Data>;

    type Model = Option<<D as Decode>::Model>;

    open spec fn model(d: Option<<D as Decode>::Data>) -> Option<<D as Decode>::Model> {
        match d {
            None => None,
            Some(t) => Some(D::model(t)),
        }
    }

    open spec fn decode_spec(bytes: Seq<u8>) -> DecOutcome<Option<<D as Decode>::Model>> {
        match <F::DecodeVariantIdx as Decode>::decode_spec(bytes) {
            DecOutcome::Done(idx, n) => if idx.0 == 0 {
                match <F::DecodeUnit as Decode>::decode_spec(bytes.skip(n)) {
                    DecOutcome::Done(u, m) => DecOutcome::Done(None, n + m),
                    DecOutcome::NeedMore => DecOutcome::NeedMore,
                    DecOutcome::Bad => DecOutcome::Bad,
                }
            } else if idx.0 == 1 {
                match D::decode_spec(bytes.skip(n)) {
                    DecOutcome::Done(v, m) => DecOutcome::Done(Some(v), n + m),
                    DecOutcome::NeedMore => DecOutcome::NeedMore,
                    DecOutcome::Bad => DecOutcome::Bad,
                }
            } else {
                DecOutcome::Bad
            },
            DecOutcome::NeedMore => DecOutcome::NeedMore,
            DecOutcome::Bad => DecOutcome::Bad,
        }
    }

    closed spec fn taken(&self) -> Seq<u8> {
        match &self.cursor {
            OptionDecodeCursor::Init => Seq::empty(),
            OptionDecodeCursor::Index(sub) => sub.taken(),
            OptionDecodeCursor::V0(sub) => self.consumed@ + sub.taken(),
            OptionDecodeCursor::V1(sub) => self.consumed@ + sub.taken(),
            OptionDecodeCursor::Fini => self.consumed@,
            OptionDecodeCursor::Failed => self.consumed@,
        }
    }

    closed spec fn wf(&self) -> bool {
        match &self.cursor {
            OptionDecodeCursor::Init => true,
            OptionDecodeCursor::Index(sub) => sub.wf() && !sub.done() && !sub.failed(),
            OptionDecodeCursor::V0(sub) => {
                &&& <F::DecodeVariantIdx as Decode>::decode_spec(self.consumed@) == DecOutcome::Done(VariantIdx(0), self.consumed@.len() as int)
                &&& sub.wf() && !sub.done() && !sub.failed()
            },
            OptionDecodeCursor::V1(sub) => {
                &&& <F::DecodeVariantIdx as Decode>::decode_spec(self.consumed@) == DecOutcome::Done(VariantIdx(1), self.consumed@.len() as int)
                &&& sub.wf() && !sub.done() && !sub.failed()
            },
            OptionDecodeCursor::Fini => true,
            OptionDecodeCursor::Failed => true,
        }
    }

    closed spec fn done(&self) -> bool {
        self.cursor is Fini
    }

    closed spec fn failed(&self) -> bool {
        self.cursor is Failed
    }

    proof fn lemma_lawful(b: Seq<u8>, ext: Seq<u8>) {
        <F::DecodeVariantIdx as Decode>::lemma_lawful(b, ext);
        match <F::DecodeVariantIdx as Decode>::decode_spec(b) {
            DecOutcome::Done(idx, n) => {
                assert(b.add(ext).skip(n) =~= b.skip(n).add(ext));
                if idx.0 == 0 {
                    <F::DecodeUnit as Decode>::lemma_lawful(b.skip(n), ext);
                } else if idx.0 == 1 {
                    D::lemma_lawful(b.skip(n), ext);
                }
            },
            DecOutcome::NeedMore => {},
            DecOutcome::Bad => {},
        }
    }

    fn init() -> (d: Self) {
        OptionDecode { cursor: OptionDecodeCursor::Init, consumed: Ghost(Seq::empty()) }
    }

    #[verifier::rlimit(100)]
    #[verifier::spinoff_prover]
    fn poll_decode<R: AsyncRead + AsyncBufRead>(&mut self, reader: &mut R) -> (r: PollDecodeStatus<Option<<D as Decode>::Data>, Error>) {
        let ghost all = old(reader).remaining();
        let mut tmp = OptionDecode { cursor: OptionDecodeCursor::Failed, consumed: Ghost(Seq::empty()) };
        core::mem::swap(self, &mut tmp);
        let OptionDecode { cursor: st, consumed: Ghost(consumed) } = tmp;
        match st {
            OptionDecodeCursor::Init => {
                match Self::after_init(reader) {
                    StartDecodeStatus::Fini(d) => {
                        self.cursor = OptionDecodeCursor::Fini;
                        proof {
                            let n = choose|n: int|
                                #![trigger all.take(n)]
                                {
                                    &&& 0 <= n <= all.len()
                                    &&& reader.remaining() == all.skip(n)
                                    &&& Self::decode_spec(all.take(n)) == DecOutcome::Done(Self::model(d), n)
                                };
                            assert(Seq::<u8>::empty().add(all.take(n)) =~= all.take(n));
                        }
                        PollDecodeStatus::Fini(d)
                    },
                    StartDecodeStatus::Pending(s) => {
                        *self = s;
                        proof {
                            let n = choose|n: int|
                                #![trigger all.take(n)]
                                {
                                    &&& 0 <= n <= all.len()
                                    &&& reader.remaining() == all.skip(n)
                                    &&& self.taken() == all.take(n)
                                };
                            assert(Seq::<u8>::empty().add(all.take(n)) =~= all.take(n));
                        }
                        PollDecodeStatus::Pending
                    },
                    StartDecodeStatus::Error(e) => {
                        proof {
                            let n = choose|n: int|
                                #![trigger all.skip(n)]
                                {
                                    &&& 0 <= n <= all.len()
                                    &&& reader.remaining() == all.skip(n)
                                    &&& (Self::decode_spec(all.take(n)) is Bad ==> e == Error::InvalidData)
                                    &&& !(Self::decode_spec(all.take(n)) is Done)
                                };
                            assert(Seq::<u8>::empty().add(all.take(n)) =~= all.take(n));
                        }
                        PollDecodeStatus::Error(e)
                    },
                }
            },
            OptionDecodeCursor::Index(mut sub) => {
                let ghost t0 = sub.taken();
                match sub.poll_decode(reader) {
                    PollDecodeStatus::Fini(idx) => {
                        proof {
                            F::lemma_variant_idx_model(idx);
                        }
                        let ghost n1 = choose|n1: int|
                            #![trigger all.take(n1)]
                            {
                                &&& 0 <= n1 <= all.len()
                                &&& reader.remaining() == all.skip(n1)
                                &&& <F::DecodeVariantIdx as Decode>::decode_spec(t0.add(all.take(n1))) == DecOutcome::Done(idx, t0.len() + n1)
                            };
                        let ghost committed = t0.add(all.take(n1));
                        let ghost mid = reader.remaining();
                        match Self::after_index(idx.value(), reader, Ghost(committed)) {
                            StartDecodeStatus::Fini(d) => {
                                self.cursor = OptionDecodeCursor::Fini;
                                proof {
                                    let n2 = choose|n2: int|
                                        #![trigger mid.take(n2)]
                                        {
                                            &&& 0 <= n2 <= mid.len()
                                            &&& reader.remaining() == mid.skip(n2)
                                            &&& Self::decode_spec(committed.add(mid.take(n2))) == DecOutcome::Done(Self::model(d), committed.len() + n2)
                                        };
                                    assert(mid.take(n2) =~= all.subrange(n1, n1 + n2));
                                    assert(mid.skip(n2) =~= all.skip(n1 + n2));
                                    assert(committed.add(all.subrange(n1, n1 + n2)) =~= t0.add(all.take(n1 + n2)));
                                }
                                PollDecodeStatus::Fini(d)
                            },
                            StartDecodeStatus::Pending(s) => {
                                *self = s;
                                proof {
                                    let n2 = choose|n2: int|
                                        #![trigger mid.take(n2)]
                                        {
                                            &&& 0 <= n2 <= mid.len()
                                            &&& reader.remaining() == mid.skip(n2)
                                            &&& self.taken() == committed.add(mid.take(n2))
                                        };
                                    assert(mid.take(n2) =~= all.subrange(n1, n1 + n2));
                                    assert(mid.skip(n2) =~= all.skip(n1 + n2));
                                    assert(committed.add(all.subrange(n1, n1 + n2)) =~= t0.add(all.take(n1 + n2)));
                                }
                                PollDecodeStatus::Pending
                            },
                            StartDecodeStatus::Error(e) => {
                                proof {
                                    let n2 = choose|n2: int|
                                        #![trigger mid.skip(n2)]
                                        {
                                            &&& 0 <= n2 <= mid.len()
                                            &&& reader.remaining() == mid.skip(n2)
                                            &&& (Self::decode_spec(committed.add(mid.take(n2))) is Bad ==> e == Error::InvalidData)
                                            &&& !(Self::decode_spec(committed.add(mid.take(n2))) is Done)
                                        };
                                    assert(mid.take(n2) =~= all.subrange(n1, n1 + n2));
                                    assert(mid.skip(n2) =~= all.skip(n1 + n2));
                                    assert(committed.add(all.subrange(n1, n1 + n2)) =~= t0.add(all.take(n1 + n2)));
                                }
                                PollDecodeStatus::Error(e)
                            },
                        }
                    },
                    PollDecodeStatus::Pending => {
                        self.cursor = OptionDecodeCursor::Index(sub);
                        PollDecodeStatus::Pending
                    },
                    PollDecodeStatus::Error(e) => {
                        proof {
                            let n = choose|n: int|
                                #![trigger all.skip(n)]
                                {
                                    &&& 0 <= n <= all.len()
                                    &&& reader.remaining() == all.skip(n)
                                    &&& (<F::DecodeVariantIdx as Decode>::decode_spec(t0.add(all.take(n))) is Bad ==> e == Error::InvalidData)
                                    &&& !(<F::DecodeVariantIdx as Decode>::decode_spec(t0.add(all.take(n))) is Done)
                                };
                            assert(Self::decode_spec(t0.add(all.take(n))) is Bad ==> e == Error::InvalidData);
                            assert(!(Self::decode_spec(t0.add(all.take(n))) is Done));
                        }
                        PollDecodeStatus::Error(e)
                    },
                }
            },
            OptionDecodeCursor::V0(mut sub) => {
                let ghost t0 = sub.taken();
                match sub.poll_decode(reader) {
                    PollDecodeStatus::Fini(_) => {
                        self.cursor = OptionDecodeCursor::Fini;
                        self.consumed = Ghost(consumed);
                        proof {
                            let n = choose|n: int|
                                #![trigger all.take(n)]
                                {
                                    &&& 0 <= n <= all.len()
                                    &&& reader.remaining() == all.skip(n)
                                    &&& <F::DecodeUnit as Decode>::decode_spec(t0.add(all.take(n))) == DecOutcome::<()>::Done((), t0.len() + n)
                                };
                            crate::codec::lemma_dec_lawful::<F::DecodeVariantIdx>();
                            let total = consumed.add(t0).add(all.take(n));
                            assert(total =~= consumed.add(t0.add(all.take(n))));
                            assert(<F::DecodeVariantIdx as Decode>::decode_spec(total) == DecOutcome::Done(VariantIdx(0), consumed.len() as int));
                            assert(total.skip(consumed.len() as int) =~= t0.add(all.take(n)));
                        }
                        PollDecodeStatus::Fini(None)
                    },
                    PollDecodeStatus::Pending => {
                        self.cursor = OptionDecodeCursor::V0(sub);
                        self.consumed = Ghost(consumed);
                        proof {
                            let n = choose|n: int|
                                #![trigger all.take(n)]
                                {
                                    &&& 0 <= n <= all.len()
                                    &&& reader.remaining() == all.skip(n)
                                    &&& sub.taken() == t0.add(all.take(n))
                                };
                            assert(consumed.add(t0).add(all.take(n)) =~= consumed.add(t0.add(all.take(n))));
                        }
                        PollDecodeStatus::Pending
                    },
                    PollDecodeStatus::Error(e) => {
                        proof {
                            let n = choose|n: int|
                                #![trigger all.skip(n)]
                                {
                                    &&& 0 <= n <= all.len()
                                    &&& reader.remaining() == all.skip(n)
                                    &&& (<F::DecodeUnit as Decode>::decode_spec(t0.add(all.take(n))) is Bad ==> e == Error::InvalidData)
                                    &&& !(<F::DecodeUnit as Decode>::decode_spec(t0.add(all.take(n))) is Done)
                                };
                            crate::codec::lemma_dec_lawful::<F::DecodeVariantIdx>();
                            let total = consumed.add(t0).add(all.take(n));
                            assert(total =~= consumed.add(t0.add(all.take(n))));
                            assert(<F::DecodeVariantIdx as Decode>::decode_spec(total) == DecOutcome::Done(VariantIdx(0), consumed.len() as int));
                            assert(total.skip(consumed.len() as int) =~= t0.add(all.take(n)));
                            assert(Self::decode_spec(total) is Bad ==> e == Error::InvalidData);
                            assert(!(Self::decode_spec(total) is Done));
                        }
                        PollDecodeStatus::Error(e)
                    },
                }
            },
            OptionDecodeCursor::V1(mut sub) => {
                let ghost t0 = sub.taken();
                match sub.poll_decode(reader) {
                    PollDecodeStatus::Fini(d) => {
                        self.cursor = OptionDecodeCursor::Fini;
                        self.consumed = Ghost(consumed);
                        proof {
                            let n = choose|n: int|
                                #![trigger all.take(n)]
                                {
                                    &&& 0 <= n <= all.len()
                                    &&& reader.remaining() == all.skip(n)
                                    &&& D::decode_spec(t0.add(all.take(n))) == DecOutcome::Done(D::model(d), t0.len() + n)
                                };
                            crate::codec::lemma_dec_lawful::<F::DecodeVariantIdx>();
                            let total = consumed.add(t0).add(all.take(n));
                            assert(total =~= consumed.add(t0.add(all.take(n))));
                            assert(<F::DecodeVariantIdx as Decode>::decode_spec(total) == DecOutcome::Done(VariantIdx(1), consumed.len() as int));
                            assert(total.skip(consumed.len() as int) =~= t0.add(all.take(n)));
                        }
                        PollDecodeStatus::Fini(Some(d))
                    },
                    PollDecodeStatus::Pending => {
                        self.cursor = OptionDecodeCursor::V1(sub);
                        self.consumed = Ghost(consumed);
                        proof {
                            let n = choose|n: int|
                                #![trigger all.take(n)]
                                {
                                    &&& 0 <= n <= all.len()
                                    &&& reader.remaining() == all.skip(n)
                                    &&& sub.taken() == t0.add(all.take(n))
                                };
                            assert(consumed.add(t0).add(all.take(n)) =~= consumed.add(t0.add(all.take(n))));
                        }
                        PollDecodeStatus::Pending
                    },
                    PollDecodeStatus::Error(e) => {
                        proof {
                            let n = choose|n: int|
                                #![trigger all.skip(n)]
                                {
                                    &&& 0 <= n <= all.len()
                                    &&& reader.remaining() == all.skip(n)
                                    &&& (D::decode_spec(t0.add(all.take(n))) is Bad ==> e == Error::InvalidData)
                                    &&& !(D::decode_spec(t0.add(all.take(n))) is Done)
                                };
                            crate::codec::lemma_dec_lawful::<F::DecodeVariantIdx>();
                            let total = consumed.add(t0).add(all.take(n));
                            assert(total =~= consumed.add(t0.add(all.take(n))));
                            assert(<F::DecodeVariantIdx as Decode>::decode_spec(total) == DecOutcome::Done(VariantIdx(1), consumed.len() as int));
                            assert(total.skip(consumed.len() as int) =~= t0.add(all.take(n)));
                            assert(Self::decode_spec(total) is Bad ==> e == Error::InvalidData);
                            assert(!(Self::decode_spec(total) is Done));
                        }
                        PollDecodeStatus::Error(e)
                    },
                }
            },
            OptionDecodeCursor::Fini => {
                PollDecodeStatus::Error(crate::io::invalid_input())
            },
            OptionDecodeCursor::Failed => {
                PollDecodeStatus::Error(crate::io::invalid_input())
            },
        }
    }
}

/// The round-trip law for optional values: whenever the inner
/// encoder/decoder pair agrees, so does the optional pair, under any
/// format.  Decoding a stream that starts with the wire image of an
/// optional value yields exactly that value, consuming exactly the wire
/// image.
pub proof fn lemma_option_round_trips<F: Format, E: Encode, D: Decode<Data = <E as Encode>::Data>>()
    requires
        round_trips::<E, D>(),
    ensures
        round_trips::<OptionEncode<F, E>, OptionDecode<F, D>>(),
{
    F::lemma_unit_round_trip();
    F::lemma_variant_idx_round_trip();
    assert forall|d: Option<<E as Encode>::Data>, rest: Seq<u8>|
        <OptionEncode<F, E> as Encode>::encodable(d) implies #[trigger] <OptionDecode<F, D> as Decode>::decode_spec(<OptionEncode<F, E> as Encode>::encoding(d).add(rest)) == DecOutcome::<Option<<D as Decode>::Model>>::Done(<OptionDecode<F, D> as Decode>::model(d), <OptionEncode<F, E> as Encode>::encoding(d).len() as int) by {
        let idx_enc = <F::EncodeVariantIdx as Encode>::encoding(opt_index(d));
        let pe = opt_payload_enc::<F, E>(d);
        let whole = <OptionEncode<F, E> as Encode>::encoding(d).add(rest);
        F::lemma_variant_idx_model(opt_index(d));
        assert(whole =~= idx_enc.add(pe.add(rest)));
        assert(<F::DecodeVariantIdx as Decode>::decode_spec(idx_enc.add(pe.add(rest))) == DecOutcome::Done(opt_index(d), idx_enc.len() as int));
        assert(whole.skip(idx_enc.len() as int) =~= pe.add(rest));
        match d {
            None => {
                assert(<F::DecodeUnit as Decode>::decode_spec(<F::EncodeUnit as Encode>::encoding(()).add(rest)) == DecOutcome::<()>::Done((), <F::EncodeUnit as Encode>::encoding(()).len() as int));
            },
            Some(t) => {
                assert(D::decode_spec(E::encoding(t).add(rest)) == DecOutcome::Done(D::model(t), E::encoding(t).len() as int));
            },
        }
    }
}

/// The discriminant-boundary law: a stream whose discriminant parses to a
/// value outside the known variant range is rejected by the optional
/// grammar outright, whatever follows.
pub proof fn lemma_option_rejects_unknown_discriminant<F: Format, D: Decode>(bytes: Seq<u8>, idx: VariantIdx, n: int)
    requires
        <F::DecodeVariantIdx as Decode>::decode_spec(bytes) == DecOutcome::Done(idx, n),
        idx.0 >= 2,
    ensures
        OptionDecode::<F, D>::decode_spec(bytes) == DecOutcome::<Option<<D as Decode>::Model>>::Bad,
{
}

impl<F: Format, E: AsyncSerialization> AsyncSerialization for OptionEncode<F, E> {
    type Dec = OptionDecode<F, <E as AsyncSerialization>::Dec>;

    proof fn lemma_round_trip() {
        E::lemma_round_trip();
        lemma_option_round_trips::<F, E, <E as AsyncSerialization>::Dec>();
    }
}

} // verus!
