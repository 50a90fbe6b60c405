//! The status algebra and the resumable codec contract.
//!
//! Every encode or decode operation either completes, suspends carrying a
//! continuation, or fails.  The [`Encode`] and [`Decode`] traits pin the
//! byte-level meaning of each outcome: a finished encode has appended
//! exactly the shape's wire image to the sink, however many suspensions
//! happened along the way, and a finished decode has consumed exactly one
//! parse of the shape's wire grammar.

use vstd::prelude::*;

use crate::internal::{SequenceLen, VariantIdx};
use crate::io::{AsyncBufRead, AsyncRead, AsyncWrite, Error};

verus! {

/// Status of an encode operation begun with no prior state.
pub enum StartEncodeStatus<Enc, Fault> {
    /// The operation completed immediately.
    Fini,
    /// The sink was not ready; the provided encoder resumes the operation.
    Pending(Enc),
    /// The operation failed.
    Error(Fault),
}

impl<Enc, Fault> StartEncodeStatus<Enc, Fault> {
    /// Map the pending continuation to a new continuation.
    pub fn map_pending<Enc2, F: FnOnce(Enc) -> Enc2>(self, f: F) -> (r: StartEncodeStatus<Enc2, Fault>)
        requires
            forall|e: Enc| self == StartEncodeStatus::<Enc, Fault>::Pending(e) ==> f.requires((e,)),
        ensures
            match self {
                StartEncodeStatus::Fini => r is Fini,
                StartEncodeStatus::Pending(e) => r matches StartEncodeStatus::Pending(e2) && f.ensures((e,), e2),
                StartEncodeStatus::Error(err) => r matches StartEncodeStatus::Error(err2) && err2 == err,
            },
    {
        match self {
            StartEncodeStatus::Fini => StartEncodeStatus::Fini,
            StartEncodeStatus::Pending(enc) => StartEncodeStatus::Pending(f(enc)),
            StartEncodeStatus::Error(e) => StartEncodeStatus::Error(e),
        }
    }
}

/// Status of a resumed encode operation; the continuation is the encoder
/// being polled, so none is carried here.
pub enum PollEncodeStatus<Fault> {
    /// The operation completed.
    Fini,
    /// The sink was not ready; the same encoder can be polled again.
    Pending,
    /// The operation failed.
    Error(Fault),
}

impl<Fault> PollEncodeStatus<Fault> {
    /// Attach the continuation that was just polled, turning a poll status
    /// into a start status.
    pub fn lift<Enc>(self, enc: Enc) -> (r: StartEncodeStatus<Enc, Fault>)
        ensures
            match self {
                PollEncodeStatus::Fini => r is Fini,
                PollEncodeStatus::Pending => r matches StartEncodeStatus::Pending(e) && e == enc,
                PollEncodeStatus::Error(err) => r matches StartEncodeStatus::Error(err2) && err2 == err,
            },
    {
        match self {
            PollEncodeStatus::Fini => StartEncodeStatus::Fini,
            PollEncodeStatus::Pending => StartEncodeStatus::Pending(enc),
            PollEncodeStatus::Error(err) => StartEncodeStatus::Error(err),
        }
    }

    /// Map the error payload.
    pub fn map_err<Err2, F: FnOnce(Fault) -> Err2>(self, f: F) -> (r: PollEncodeStatus<Err2>)
        requires
            forall|e: Fault| self == PollEncodeStatus::<Fault>::Error(e) ==> f.requires((e,)),
        ensures
            match self {
                PollEncodeStatus::Fini => r is Fini,
                PollEncodeStatus::Pending => r is Pending,
                PollEncodeStatus::Error(err) => r matches PollEncodeStatus::Error(err2) && f.ensures((err,), err2),
            },
    {
        match self {
            PollEncodeStatus::Fini => PollEncodeStatus::Fini,
            PollEncodeStatus::Pending => PollEncodeStatus::Pending,
            PollEncodeStatus::Error(err) => PollEncodeStatus::Error(f(err)),
        }
    }
}

/// Status of a decode operation begun with no prior state.
pub enum StartDecodeStatus<Dta, Dec, Fault> {
    /// The operation completed immediately with the decoded data.
    Fini(Dta),
    /// The source was not ready; the provided decoder resumes the operation.
    Pending(Dec),
    /// The operation failed.
    Error(Fault),
}

impl<Dta, Dec, Fault> StartDecodeStatus<Dta, Dec, Fault> {
    /// Map the finished data and the pending continuation each to a new value.
    pub fn bimap<Dta2, Dec2, F: FnOnce(Dta) -> Dta2, G: FnOnce(Dec) -> Dec2>(self, f: F, g: G) -> (r: StartDecodeStatus<Dta2, Dec2, Fault>)
        requires
            forall|d: Dta| self == StartDecodeStatus::<Dta, Dec, Fault>::Fini(d) ==> f.requires((d,)),
            forall|d: Dec| self == StartDecodeStatus::<Dta, Dec, Fault>::Pending(d) ==> g.requires((d,)),
        ensures
            match self {
                StartDecodeStatus::Fini(d) => r matches StartDecodeStatus::Fini(d2) && f.ensures((d,), d2),
                StartDecodeStatus::Pending(d) => r matches StartDecodeStatus::Pending(d2) && g.ensures((d,), d2),
                StartDecodeStatus::Error(err) => r matches StartDecodeStatus::Error(err2) && err2 == err,
            },
    {
        match self {
            StartDecodeStatus::Fini(dta) => StartDecodeStatus::Fini(f(dta)),
            StartDecodeStatus::Pending(dec) => StartDecodeStatus::Pending(g(dec)),
            StartDecodeStatus::Error(err) => StartDecodeStatus::Error(err),
        }
    }

    /// Bind the finished data to a further status, mapping the pending
    /// continuation.
    pub fn and_then<Dta2, Dec2, F: FnOnce(Dta) -> StartDecodeStatus<Dta2, Dec2, Fault>, G: FnOnce(Dec) -> Dec2>(self, f: F, g: G) -> (r: StartDecodeStatus<Dta2, Dec2, Fault>)
        requires
            forall|d: Dta| self == StartDecodeStatus::<Dta, Dec, Fault>::Fini(d) ==> f.requires((d,)),
            forall|d: Dec| self == StartDecodeStatus::<Dta, Dec, Fault>::Pending(d) ==> g.requires((d,)),
        ensures
            match self {
                StartDecodeStatus::Fini(d) => f.ensures((d,), r),
                StartDecodeStatus::Pending(d) => r matches StartDecodeStatus::Pending(d2) && g.ensures((d,), d2),
                StartDecodeStatus::Error(err) => r matches StartDecodeStatus::Error(err2) && err2 == err,
            },
    {
        match self {
            StartDecodeStatus::Fini(dta) => f(dta),
            StartDecodeStatus::Pending(dec) => StartDecodeStatus::Pending(g(dec)),
            StartDecodeStatus::Error(err) => StartDecodeStatus::Error(err),
        }
    }
}

/// Status of a resumed decode operation; the continuation is the decoder
/// being polled, so none is carried here.
pub enum PollDecodeStatus<Dta, Fault> {
    /// The operation completed with the decoded data.
    Fini(Dta),
    /// The source was not ready; the same decoder can be polled again.
    Pending,
    /// The operation failed.
    Error(Fault),
}

impl<Dta, Fault> PollDecodeStatus<Dta, Fault> {
    /// Map the decoded data.
    pub fn map<Dta2, F: FnOnce(Dta) -> Dta2>(self, f: F) -> (r: PollDecodeStatus<Dta2, Fault>)
        requires
            forall|d: Dta| self == PollDecodeStatus::<Dta, Fault>::Fini(d) ==> f.requires((d,)),
        ensures
            match self {
                PollDecodeStatus::Fini(d) => r matches PollDecodeStatus::Fini(d2) && f.ensures((d,), d2),
                PollDecodeStatus::Pending => r is Pending,
                PollDecodeStatus::Error(err) => r matches PollDecodeStatus::Error(err2) && err2 == err,
            },
    {
        match self {
            PollDecodeStatus::Fini(d) => PollDecodeStatus::Fini(f(d)),
            PollDecodeStatus::Pending => PollDecodeStatus::Pending,
            PollDecodeStatus::Error(err) => PollDecodeStatus::Error(err),
        }
    }

    /// Bind the decoded data to a further status.
    pub fn and_then<Dta2, F: FnOnce(Dta) -> PollDecodeStatus<Dta2, Fault>>(self, f: F) -> (r: PollDecodeStatus<Dta2, Fault>)
        requires
            forall|d: Dta| self == PollDecodeStatus::<Dta, Fault>::Fini(d) ==> f.requires((d,)),
        ensures
            match self {
                PollDecodeStatus::Fini(d) => f.ensures((d,), r),
                PollDecodeStatus::Pending => r is Pending,
                PollDecodeStatus::Error(err) => r matches PollDecodeStatus::Error(err2) && err2 == err,
            },
    {
        match self {
            PollDecodeStatus::Fini(d) => f(d),
            PollDecodeStatus::Pending => PollDecodeStatus::Pending,
            PollDecodeStatus::Error(err) => PollDecodeStatus::Error(err),
        }
    }

    /// Attach the continuation that was just polled, turning a poll status
    /// into a start status.
    pub fn lift<Dec>(self, pend: Dec) -> (r: StartDecodeStatus<Dta, Dec, Fault>)
        ensures
            match self {
                PollDecodeStatus::Fini(d) => r matches StartDecodeStatus::Fini(d2) && d2 == d,
                PollDecodeStatus::Pending => r matches StartDecodeStatus::Pending(p) && p == pend,
                PollDecodeStatus::Error(err) => r matches StartDecodeStatus::Error(err2) && err2 == err,
            },
    {
        match self {
            PollDecodeStatus::Fini(d) => StartDecodeStatus::Fini(d),
            PollDecodeStatus::Pending => StartDecodeStatus::Pending(pend),
            PollDecodeStatus::Error(err) => StartDecodeStatus::Error(err),
        }
    }
}

/// The result of running a shape's wire grammar over a byte prefix.
pub enum DecOutcome<T> {
    /// The bytes begin with one complete parse, consuming this many bytes.
    Done(T, int),
    /// The bytes are a proper prefix of some parse.
    NeedMore,
    /// No extension of the bytes parses.
    Bad,
}

/// A decoder's wire grammar behaves like a prefix grammar: a resolved
/// outcome (a parse or a rejection) is stable under appending bytes, and a
/// parse consumes only bytes that are actually present.
pub open spec fn dec_lawful<D: Decode>() -> bool {
    forall|b: Seq<u8>, ext: Seq<u8>|
        #![trigger D::decode_spec(b.add(ext))]
        match D::decode_spec(b) {
            DecOutcome::Done(v, n) => 0 <= n <= b.len() && D::decode_spec(b.add(ext)) == DecOutcome::Done(v, n),
            DecOutcome::NeedMore => true,
            DecOutcome::Bad => D::decode_spec(b.add(ext)) == DecOutcome::<D::Model>::Bad,
        }
}

/// Any decoder's grammar is lawful, quantified over all byte prefixes.
pub proof fn lemma_dec_lawful<D: Decode>()
    ensures
        dec_lawful::<D>(),
{
    assert forall|b: Seq<u8>, ext: Seq<u8>|
        #![trigger D::decode_spec(b.add(ext))]
        match D::decode_spec(b) {
            DecOutcome::Done(v, n) => 0 <= n <= b.len() && D::decode_spec(b.add(ext)) == DecOutcome::Done(v, n),
            DecOutcome::NeedMore => true,
            DecOutcome::Bad => D::decode_spec(b.add(ext)) == DecOutcome::<D::Model>::Bad,
        } by {
        D::lemma_lawful(b, ext);
    }
}

/// An encoder/decoder pair agrees: decoding any stream that starts with
/// the wire image of a value yields a value observationally equal to it,
/// consuming exactly the wire image.
pub open spec fn round_trips<E: Encode, D: Decode<Data = <E as Encode>::Data>>() -> bool {
    forall|d: E::Data, rest: Seq<u8>|
        E::encodable(d) ==> #[trigger] D::decode_spec(E::encoding(d).add(rest)) == DecOutcome::Done(D::model(d), E::encoding(d).len() as int)
}

/// A resumable encoder for values of one data type.
///
/// The encoder exclusively owns the partial progress of one in-flight
/// encode.  It is created by [`Encode::init`], mutated in place by
/// [`Encode::poll_encode`], and must not be polled again once it has
/// completed or failed.
pub trait Encode: Sized {
    /// The concrete data structure to encode.
    type Data;

    /// The complete wire image of `data`.
    spec fn encoding(data: Self::Data) -> Seq<u8>;

    /// Whether `data` fits its wire representation.
    spec fn encodable(data: Self::Data) -> bool;

    /// How many bytes of the wire image this in-flight encode has emitted.
    spec fn progress(&self, data: Self::Data) -> int;

    /// The in-flight state is consistent with `data`.
    spec fn wf(&self, data: Self::Data) -> bool;

    /// The encode has emitted the whole wire image.
    spec fn done(&self) -> bool;

    /// The encode has failed; polling it again must fail too.
    spec fn failed(&self) -> bool;

    /// An in-flight encode has emitted some prefix of the wire image.
    proof fn lemma_progress_bounds(&self, data: Self::Data)
        requires
            self.wf(data),
            !self.done(),
            !self.failed(),
            Self::encodable(data),
        ensures
            0 <= self.progress(data) <= Self::encoding(data).len(),
    ;

    /// Initialize the internal state of the encoder.
    fn init(data: &Self::Data) -> (e: Self)
        requires
            Self::encodable(*data),
        ensures
            e.wf(*data),
            !e.done(),
            !e.failed(),
            e.progress(*data) == 0,
    ;

    /// Resume a suspended encode, emitting as much of the rest of the wire
    /// image as the sink will take.
    ///
    /// A completed or failed encoder fails on every further poll, leaving
    /// the sink untouched.
    fn poll_encode<W: AsyncWrite>(&mut self, writer: &mut W, data: &Self::Data) -> (r: PollEncodeStatus<Error>)
        requires
            old(self).wf(*data),
            Self::encodable(*data),
        ensures
            final(self).wf(*data),
            match r {
                PollEncodeStatus::Fini => {
                    &&& !old(self).done() && !old(self).failed()
                    &&& final(writer).written() == old(writer).written() + Self::encoding(*data).subrange(old(self).progress(*data), Self::encoding(*data).len() as int)
                    &&& final(self).done() && !final(self).failed()
                },
                PollEncodeStatus::Pending => {
                    &&& !old(self).done() && !old(self).failed()
                    &&& !final(self).done() && !final(self).failed()
                    &&& old(self).progress(*data) <= final(self).progress(*data) <= Self::encoding(*data).len()
                    &&& final(writer).written() == old(writer).written() + Self::encoding(*data).subrange(old(self).progress(*data), final(self).progress(*data))
                },
                PollEncodeStatus::Error(e) => {
                    &&& final(self).failed()
                    &&& ((old(self).done() || old(self).failed()) ==> (final(writer).written() == old(writer).written() && e == Error::InvalidInput))
                    &&& (!(old(self).done() || old(self).failed()) ==> exists|p: int|
                        #![trigger Self::encoding(*data).subrange(old(self).progress(*data), p)]
                        {
                            &&& old(self).progress(*data) <= p <= Self::encoding(*data).len()
                            &&& final(writer).written() == old(writer).written() + Self::encoding(*data).subrange(old(self).progress(*data), p)
                        })
                },
            },
    ;

    /// Begin encoding `data`, completing immediately when the sink allows.
    ///
    /// Semantically identical to [`Encode::init`] followed by one
    /// [`Encode::poll_encode`] call.
    fn start_encode<W: AsyncWrite>(writer: &mut W, data: &Self::Data) -> (r: StartEncodeStatus<Self, Error>)
        requires
            Self::encodable(*data),
        ensures
            match r {
                StartEncodeStatus::Fini => final(writer).written() == old(writer).written() + Self::encoding(*data),
                StartEncodeStatus::Pending(enc) => {
                    &&& enc.wf(*data) && !enc.done() && !enc.failed()
                    &&& 0 <= enc.progress(*data) <= Self::encoding(*data).len()
                    &&& final(writer).written() == old(writer).written() + Self::encoding(*data).take(enc.progress(*data))
                },
                StartEncodeStatus::Error(e) => exists|p: int|
                    #![trigger Self::encoding(*data).take(p)]
                    {
                        &&& 0 <= p <= Self::encoding(*data).len()
                        &&& final(writer).written() == old(writer).written() + Self::encoding(*data).take(p)
                    },
            },
    {
        let mut enc = Self::init(data);
        let status = enc.poll_encode(writer, data);
        proof {
            assert(Self::encoding(*data).subrange(0, Self::encoding(*data).len() as int) =~= Self::encoding(*data));
            assert forall|p: int| 0 <= p <= Self::encoding(*data).len() implies Self::encoding(*data).subrange(0, p) =~= Self::encoding(*data).take(p) by {}
        }
        status.lift(enc)
    }
}

/// A resumable decoder for values of one data type.
///
/// The decoder exclusively owns the partial progress of one in-flight
/// decode.  It is created by [`Decode::init`], mutated in place by
/// [`Decode::poll_decode`], and must not be polled again once it has
/// completed or failed.
pub trait Decode: Sized {
    /// The concrete data structure to decode.
    type Data;

    /// What a decoded value looks like to an observer: a primitive is its
    /// own observation, while a container is observed as the sequence of
    /// its elements' observations.  The wire bytes determine the decoded
    /// value exactly up to this observation.
    type Model;

    /// The observation of a decoded value.
    spec fn model(d: Self::Data) -> Self::Model;

    /// The shape's wire grammar, run over the bytes consumed so far.
    spec fn decode_spec(bytes: Seq<u8>) -> DecOutcome<Self::Model>;

    /// The bytes this in-flight decode has consumed so far.
    spec fn taken(&self) -> Seq<u8>;

    /// The in-flight state is consistent with the bytes consumed so far.
    spec fn wf(&self) -> bool;

    /// The decode has produced its value.
    spec fn done(&self) -> bool;

    /// The decode has failed; polling it again must fail too.
    spec fn failed(&self) -> bool;

    /// The wire grammar is a lawful prefix grammar: a resolved outcome is
    /// stable under appending bytes, and a parse consumes only bytes that
    /// are actually present.
    proof fn lemma_lawful(b: Seq<u8>, ext: Seq<u8>)
        ensures
            match Self::decode_spec(b) {
                DecOutcome::Done(v, n) => 0 <= n <= b.len() && Self::decode_spec(b.add(ext)) == DecOutcome::Done(v, n),
                DecOutcome::NeedMore => true,
                DecOutcome::Bad => Self::decode_spec(b.add(ext)) == DecOutcome::<Self::Model>::Bad,
            },
    ;

    /// Initialize the internal state of the decoder.
    fn init() -> (d: Self)
        ensures
            d.wf(),
            !d.done(),
            !d.failed(),
            d.taken() == Seq::<u8>::empty(),
    ;

    /// Resume a suspended decode, consuming as much of the rest of one
    /// parse as the source will give.
    ///
    /// A completed or failed decoder fails on every further poll, leaving
    /// the source untouched.
    fn poll_decode<R: AsyncRead + AsyncBufRead>(&mut self, reader: &mut R) -> (r: PollDecodeStatus<Self::Data, Error>)
        requires
            old(self).wf(),
        ensures
            final(self).wf(),
            match r {
                PollDecodeStatus::Fini(d) => {
                    &&& !old(self).done() && !old(self).failed()
                    &&& exists|n: int|
                        #![trigger old(reader).remaining().take(n)]
                        {
                            &&& 0 <= n <= old(reader).remaining().len()
                            &&& final(reader).remaining() == old(reader).remaining().skip(n)
                            &&& Self::decode_spec(old(self).taken().add(old(reader).remaining().take(n))) == DecOutcome::Done(Self::model(d), old(self).taken().len() + n)
                        }
                    &&& final(self).done() && !final(self).failed()
                },
                PollDecodeStatus::Pending => {
                    &&& !old(self).done() && !old(self).failed()
                    &&& !final(self).done() && !final(self).failed()
                    &&& exists|n: int|
                        #![trigger old(reader).remaining().take(n)]
                        {
                            &&& 0 <= n <= old(reader).remaining().len()
                            &&& final(reader).remaining() == old(reader).remaining().skip(n)
                            &&& final(self).taken() == old(self).taken().add(old(reader).remaining().take(n))
                        }
                },
                PollDecodeStatus::Error(e) => {
                    &&& final(self).failed()
                    &&& ((old(self).done() || old(self).failed()) ==> (final(reader).remaining() == old(reader).remaining() && e == Error::InvalidInput))
                    &&& (!(old(self).done() || old(self).failed()) ==> exists|n: int|
                        #![trigger old(reader).remaining().skip(n)]
                        {
                            &&& 0 <= n <= old(reader).remaining().len()
                            &&& final(reader).remaining() == old(reader).remaining().skip(n)
                            &&& (Self::decode_spec(old(self).taken().add(old(reader).remaining().take(n))) is Bad ==> e == Error::InvalidData)
                            &&& !(Self::decode_spec(old(self).taken().add(old(reader).remaining().take(n))) is Done)
                        })
                },
            },
    ;

    /// Begin decoding, completing immediately when the source allows.
    ///
    /// Semantically identical to [`Decode::init`] followed by one
    /// [`Decode::poll_decode`] call.
    fn start_decode<R: AsyncRead + AsyncBufRead>(reader: &mut R) -> (r: StartDecodeStatus<Self::Data, Self, Error>)
        ensures
            match r {
                StartDecodeStatus::Fini(d) => exists|n: int|
                    #![trigger old(reader).remaining().take(n)]
                    {
                        &&& 0 <= n <= old(reader).remaining().len()
                        &&& final(reader).remaining() == old(reader).remaining().skip(n)
                        &&& Self::decode_spec(old(reader).remaining().take(n)) == DecOutcome::Done(Self::model(d), n)
                    },
                StartDecodeStatus::Pending(dec) => {
                    &&& dec.wf() && !dec.done() && !dec.failed()
                    &&& exists|n: int|
                        #![trigger old(reader).remaining().take(n)]
                        {
                            &&& 0 <= n <= old(reader).remaining().len()
                            &&& final(reader).remaining() == old(reader).remaining().skip(n)
                            &&& dec.taken() == old(reader).remaining().take(n)
                        }
                },
                StartDecodeStatus::Error(e) => exists|n: int|
                    #![trigger old(reader).remaining().skip(n)]
                    {
                        &&& 0 <= n <= old(reader).remaining().len()
                        &&& final(reader).remaining() == old(reader).remaining().skip(n)
                        &&& (Self::decode_spec(old(reader).remaining().take(n)) is Bad ==> e == Error::InvalidData)
                        &&& !(Self::decode_spec(old(reader).remaining().take(n)) is Done)
                    },
            },
    {
        let mut dec = Self::init();
        let status = dec.poll_decode(reader);
        match status {
            PollDecodeStatus::Fini(d) => {
                proof {
                    let n = choose|n: int|
                        #![trigger old(reader).remaining().take(n)]
                        {
                            &&& 0 <= n <= old(reader).remaining().len()
                            &&& reader.remaining() == old(reader).remaining().skip(n)
                            &&& Self::decode_spec(Seq::<u8>::empty().add(old(reader).remaining().take(n))) == DecOutcome::Done(Self::model(d), 0 + n)
                        };
                    assert(Seq::<u8>::empty().add(old(reader).remaining().take(n)) =~= old(reader).remaining().take(n));
                }
                StartDecodeStatus::Fini(d)
            },
            PollDecodeStatus::Pending => {
                proof {
                    let n = choose|n: int|
                        #![trigger old(reader).remaining().take(n)]
                        {
                            &&& 0 <= n <= old(reader).remaining().len()
                            &&& reader.remaining() == old(reader).remaining().skip(n)
                            &&& dec.taken() == Seq::<u8>::empty().add(old(reader).remaining().take(n))
                        };
                    assert(Seq::<u8>::empty().add(old(reader).remaining().take(n)) =~= old(reader).remaining().take(n));
                }
                StartDecodeStatus::Pending(dec)
            },
            PollDecodeStatus::Error(e) => {
                proof {
                    let n = choose|n: int|
                        #![trigger old(reader).remaining().skip(n)]
                        {
                            &&& 0 <= n <= old(reader).remaining().len()
                            &&& reader.remaining() == old(reader).remaining().skip(n)
                            &&& (Self::decode_spec(Seq::<u8>::empty().add(old(reader).remaining().take(n))) is Bad ==> e == Error::InvalidData)
                            &&& !(Self::decode_spec(Seq::<u8>::empty().add(old(reader).remaining().take(n))) is Done)
                        };
                    assert(Seq::<u8>::empty().add(old(reader).remaining().take(n)) =~= old(reader).remaining().take(n));
                }
                StartDecodeStatus::Error(e)
            },
        }
    }
}

/// The contract a pluggable wire format must satisfy: concrete resumable
/// codecs for the unit primitive and for the two structural-metadata
/// kinds, the two error constructors of the error taxonomy, and proof that
/// each structural codec pair round-trips.
pub trait Format {
    /// The encoder for the unit primitive.
    type EncodeUnit: Encode<Data = ()>;

    /// The decoder for the unit primitive.
    type DecodeUnit: Decode<Data = (), Model = ()>;

    /// The encoder for tagged-union discriminants.
    type EncodeVariantIdx: Encode<Data = VariantIdx>;

    /// The decoder for tagged-union discriminants.
    type DecodeVariantIdx: Decode<Data = VariantIdx, Model = VariantIdx>;

    /// The encoder for sequence lengths.
    type EncodeSequenceLen: Encode<Data = SequenceLen>;

    /// The decoder for sequence lengths.
    type DecodeSequenceLen: Decode<Data = SequenceLen, Model = SequenceLen>;

    /// The error to return when an internal codec contract was violated.
    fn invalid_input_err() -> (e: Error)
        ensures
            e == Error::InvalidInput,
    ;

    /// The error to return when a data contract was violated.
    fn invalid_data_err() -> (e: Error)
        ensures
            e == Error::InvalidData,
    ;

    /// The unit codec pair round-trips.
    proof fn lemma_unit_round_trip()
        ensures
            round_trips::<Self::EncodeUnit, Self::DecodeUnit>(),
    ;

    /// The discriminant codec pair round-trips.
    proof fn lemma_variant_idx_round_trip()
        ensures
            round_trips::<Self::EncodeVariantIdx, Self::DecodeVariantIdx>(),
    ;

    /// The discriminant decoder observes a discriminant as itself.
    proof fn lemma_variant_idx_model(v: VariantIdx)
        ensures
            <Self::DecodeVariantIdx as Decode>::model(v) == v,
    ;

    /// The sequence-length decoder observes a length as itself.
    proof fn lemma_sequence_len_model(v: SequenceLen)
        ensures
            <Self::DecodeSequenceLen as Decode>::model(v) == v,
    ;

    /// The sequence-length codec pair round-trips.
    proof fn lemma_sequence_len_round_trip()
        ensures
            round_trips::<Self::EncodeSequenceLen, Self::DecodeSequenceLen>(),
    ;
}

/// The binding of a shape to a full codec: an encoder type, its paired
/// decoder type, and proof that the pair round-trips.  Every shape with
/// both halves implements this, so one name carries a shape's whole
/// serialization story.
pub trait AsyncSerialization: Encode {
    /// The paired decoder for the same shape.
    type Dec: Decode<Data = <Self as Encode>::Data>;

    /// The pair agrees; see [`round_trips`].
    proof fn lemma_round_trip()
        ensures
            round_trips::<Self, Self::Dec>(),
    ;
}

} // verus!
