//! The resumable codec for zero-field shapes.
//!
//! A zero-field struct or unit-like case encodes and decodes as exactly
//! one unit primitive, keeping the discriminant-then-payload pattern
//! uniform instead of special-casing "no bytes at all".

use core::marker::PhantomData;

use vstd::prelude::*;

use crate::codec::{AsyncSerialization, DecOutcome, Decode, Encode, Format, PollDecodeStatus, PollEncodeStatus, StartDecodeStatus, StartEncodeStatus, round_trips};
use crate::io::{AsyncBufRead, AsyncRead, AsyncWrite, Error};

verus! {

/// Construct a zero-field shape out of nothing, as its decoder must.
pub trait NewUnitStruct: Sized {
    /// Construct the shape's one value.
    fn new_unit_struct() -> Self;
}

impl<T> NewUnitStruct for PhantomData<T> {
    fn new_unit_struct() -> Self {
        PhantomData
    }
}

/// The cursor of an in-flight zero-field encode.
pub enum UnitStructEncodeCursor<F: Format> {
    /// No poll has happened yet.
    Init,
    /// The unit primitive is being emitted.
    V0(F::EncodeUnit),
    /// The encode completed.
    Fini,
    /// The encode failed, or was polled after completion.
    Failed,
}

/// The resumable encoder for a zero-field shape.
pub struct UnitStructEncode<F: Format, T> {
    cursor: UnitStructEncodeCursor<F>,
    _marker: PhantomData<T>,
}

impl<F: Format, T> Encode for UnitStructEncode<F, T> {
    type Data = T;

    open spec fn encoding(data: T) -> Seq<u8> {
        <F::EncodeUnit as Encode>::encoding(())
    }

    open spec fn encodable(data: T) -> bool {
        <F::EncodeUnit as Encode>::encodable(())
    }

    closed spec fn progress(&self, data: T) -> int {
        match &self.cursor {
            UnitStructEncodeCursor::Init => 0,
            UnitStructEncodeCursor::V0(sub) => sub.progress(()),
            UnitStructEncodeCursor::Fini => Self::encoding(data).len() as int,
            UnitStructEncodeCursor::Failed => 0,
        }
    }

    closed spec fn wf(&self, data: T) -> bool {
        match &self.cursor {
            UnitStructEncodeCursor::V0(sub) => sub.wf(()) && !sub.done() && !sub.failed(),
            _ => true,
        }
    }

    closed spec fn done(&self) -> bool {
        self.cursor is Fini
    }

    closed spec fn failed(&self) -> bool {
        self.cursor is Failed
    }

    proof fn lemma_progress_bounds(&self, data: T) {
        if let UnitStructEncodeCursor::V0(sub) = &self.cursor {
            sub.lemma_progress_bounds(());
        }
    }

    fn init(data: &T) -> (e: Self) {
        UnitStructEncode { cursor: UnitStructEncodeCursor::Init, _marker: PhantomData }
    }

    fn poll_encode<W: AsyncWrite>(&mut self, writer: &mut W, data: &T) -> (r: PollEncodeStatus<Error>) {
        let ghost enc = Self::encoding(*data);
        let mut tmp = UnitStructEncode { cursor: UnitStructEncodeCursor::Failed, _marker: PhantomData };
        core::mem::swap(self, &mut tmp);
        let UnitStructEncode { cursor: st, _marker } = tmp;
        match st {
            UnitStructEncodeCursor::Init => {
                match <F::EncodeUnit as Encode>::start_encode(writer, &()) {
                    StartEncodeStatus::Fini => {
                        self.cursor = UnitStructEncodeCursor::Fini;
                        proof {
                            assert(enc.subrange(0, enc.len() as int) =~= enc);
                        }
                        PollEncodeStatus::Fini
                    },
                    StartEncodeStatus::Pending(sub) => {
                        proof {
                            assert(enc.take(sub.progress(())) =~= enc.subrange(0, sub.progress(())));
                        }
                        self.cursor = UnitStructEncodeCursor::V0(sub);
                        PollEncodeStatus::Pending
                    },
                    StartEncodeStatus::Error(e) => {
                        proof {
                            let p = choose|p: int|
                                #![trigger enc.take(p)]
                                {
                                    &&& 0 <= p <= enc.len()
                                    &&& writer.written() == old(writer).written() + enc.take(p)
                                };
                            assert(enc.take(p) =~= enc.subrange(0, p));
                            assert(old(self).progress(*data) == 0);
                            assert(exists|p2: int|
                                #![trigger Self::encoding(*data).subrange(old(self).progress(*data), p2)]
                                {
                                    &&& old(self).progress(*data) <= p2 <= Self::encoding(*data).len()
                                    &&& writer.written() == old(writer).written() + Self::encoding(*data).subrange(old(self).progress(*data), p2)
                                });
                        }
                        PollEncodeStatus::Error(e)
                    },
                }
            },
            UnitStructEncodeCursor::V0(mut sub) => {
                let ghost p0 = sub.progress(());
                match sub.poll_encode(writer, &()) {
                    PollEncodeStatus::Fini => {
                        self.cursor = UnitStructEncodeCursor::Fini;
                        PollEncodeStatus::Fini
                    },
                    PollEncodeStatus::Pending => {
                        self.cursor = UnitStructEncodeCursor::V0(sub);
                        PollEncodeStatus::Pending
                    },
                    PollEncodeStatus::Error(e) => {
                        proof {
                            let ue = <F::EncodeUnit as Encode>::encoding(());
                            let p = choose|p: int|
                                #![trigger ue.subrange(p0, p)]
                                {
                                    &&& p0 <= p <= ue.len()
                                    &&& writer.written() == old(writer).written() + ue.subrange(p0, p)
                                };
                            assert(enc.subrange(p0, p) == ue.subrange(p0, p));
                            assert(old(self).progress(*data) == p0);
                            assert(exists|p2: int|
                                #![trigger Self::encoding(*data).subrange(old(self).progress(*data), p2)]
                                {
                                    &&& old(self).progress(*data) <= p2 <= Self::encoding(*data).len()
                                    &&& writer.written() == old(writer).written() + Self::encoding(*data).subrange(old(self).progress(*data), p2)
                                });
                        }
                        PollEncodeStatus::Error(e)
                    },
                }
            },
            UnitStructEncodeCursor::Fini => {
                PollEncodeStatus::Error(crate::io::invalid_input())
            },
            UnitStructEncodeCursor::Failed => {
                PollEncodeStatus::Error(crate::io::invalid_input())
            },
        }
    }
}

/// The cursor of an in-flight zero-field decode.
pub enum UnitStructDecodeCursor<F: Format> {
    /// No poll has happened yet.
    Init,
    /// The unit primitive is being gathered.
    V0(F::DecodeUnit),
    /// The decode completed.
    Fini,
    /// The decode failed, or was polled after completion.
    Failed,
}

/// The resumable decoder for a zero-field shape.
pub struct UnitStructDecode<F: Format, T: NewUnitStruct> {
    cursor: UnitStructDecodeCursor<F>,
    _marker: PhantomData<T>,
}

impl<F: Format, T: NewUnitStruct> Decode for UnitStructDecode<F, T> {
    type Data = T;

    type Model = ();

    open spec fn model(d: T) -> () {
        ()
    }

    open spec fn decode_spec(bytes: Seq<u8>) -> DecOutcome<()> {
        match <F::DecodeUnit as Decode>::decode_spec(bytes) {
            DecOutcome::Done(u, n) => DecOutcome::Done((), n),
            DecOutcome::NeedMore => DecOutcome::NeedMore,
            DecOutcome::Bad => DecOutcome::Bad,
        }
    }

    closed spec fn taken(&self) -> Seq<u8> {
        match &self.cursor {
            UnitStructDecodeCursor::V0(sub) => sub.taken(),
            _ => Seq::empty(),
        }
    }

    closed spec fn wf(&self) -> bool {
        match &self.cursor {
            UnitStructDecodeCursor::V0(sub) => sub.wf() && !sub.done() && !sub.failed(),
            _ => true,
        }
    }

    closed spec fn done(&self) -> bool {
        self.cursor is Fini
    }

    closed spec fn failed(&self) -> bool {
        self.cursor is Failed
    }

    proof fn lemma_lawful(b: Seq<u8>, ext: Seq<u8>) {
        <F::DecodeUnit as Decode>::lemma_lawful(b, ext);
    }

    fn init() -> (d: Self) {
        UnitStructDecode { cursor: UnitStructDecodeCursor::Init, _marker: PhantomData }
    }

    fn poll_decode<R: AsyncRead + AsyncBufRead>(&mut self, reader: &mut R) -> (r: PollDecodeStatus<T, Error>) {
        let ghost all = old(reader).remaining();
        let mut tmp = UnitStructDecode { cursor: UnitStructDecodeCursor::Failed, _marker: PhantomData };
        core::mem::swap(self, &mut tmp);
        let UnitStructDecode { cursor: st, _marker } = tmp;
        match st {
            UnitStructDecodeCursor::Init => {
                match <F::DecodeUnit as Decode>::start_decode(reader) {
                    StartDecodeStatus::Fini(_) => {
                        self.cursor = UnitStructDecodeCursor::Fini;
                        proof {
                            let n = choose|n: int|
                                #![trigger all.take(n)]
                                {
                                    &&& 0 <= n <= all.len()
                                    &&& reader.remaining() == all.skip(n)
                                    &&& <F::DecodeUnit as Decode>::decode_spec(all.take(n)) == DecOutcome::<()>::Done((), n)
                                };
                            assert(Seq::<u8>::empty().add(all.take(n)) =~= all.take(n));
                        }
                        PollDecodeStatus::Fini(T::new_unit_struct())
                    },
                    StartDecodeStatus::Pending(sub) => {
                        self.cursor = UnitStructDecodeCursor::V0(sub);
                        proof {
                            let n = choose|n: int|
                                #![trigger all.take(n)]
                                {
                                    &&& 0 <= n <= all.len()
                                    &&& reader.remaining() == all.skip(n)
                                    &&& self.taken() == all.take(n)
                                };
                            assert(Seq::<u8>::empty().add(all.take(n)) =~= all.take(n));
                        }
                        PollDecodeStatus::Pending
                    },
                    StartDecodeStatus::Error(e) => PollDecodeStatus::Error(e),
                }
            },
            UnitStructDecodeCursor::V0(mut sub) => {
                let ghost t0 = sub.taken();
                match sub.poll_decode(reader) {
                    PollDecodeStatus::Fini(_) => {
                        self.cursor = UnitStructDecodeCursor::Fini;
                        PollDecodeStatus::Fini(T::new_unit_struct())
                    },
                    PollDecodeStatus::Pending => {
                        self.cursor = UnitStructDecodeCursor::V0(sub);
                        PollDecodeStatus::Pending
                    },
                    PollDecodeStatus::Error(e) => PollDecodeStatus::Error(e),
                }
            },
            UnitStructDecodeCursor::Fini => {
                PollDecodeStatus::Error(crate::io::invalid_input())
            },
            UnitStructDecodeCursor::Failed => {
                PollDecodeStatus::Error(crate::io::invalid_input())
            },
        }
    }
}

/// The round-trip law for zero-field shapes, under any format: the wire
/// image parses back to the shape's (sole) observation.
pub proof fn lemma_unit_struct_round_trips<F: Format, T: NewUnitStruct>()
    ensures
        round_trips::<UnitStructEncode<F, T>, UnitStructDecode<F, T>>(),
{
    F::lemma_unit_round_trip();
    assert forall|d: T, rest: Seq<u8>|
        <UnitStructEncode<F, T> as Encode>::encodable(d) implies #[trigger] <UnitStructDecode<F, T> as Decode>::decode_spec(<UnitStructEncode<F, T> as Encode>::encoding(d).add(rest)) == DecOutcome::<()>::Done((), <UnitStructEncode<F, T> as Encode>::encoding(d).len() as int) by {
        assert(<F::DecodeUnit as Decode>::decode_spec(<F::EncodeUnit as Encode>::encoding(()).add(rest)) == DecOutcome::<()>::Done((), <F::EncodeUnit as Encode>::encoding(()).len() as int));
    }
}

impl<F: Format, T: NewUnitStruct> AsyncSerialization for UnitStructEncode<F, T> {
    type Dec = UnitStructDecode<F, T>;

    proof fn lemma_round_trip() {
        lemma_unit_struct_round_trips::<F, T>();
    }
}

} // verus!
