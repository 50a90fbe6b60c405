//! Transparent wrappers that delegate byte-for-byte to the inner shape's
//! codec.
//!
//! [`BorrowCell`] is a runtime-checked exclusive-access cell: encoding its
//! contents must acquire access first, and an attempt while an exclusive
//! borrow is live is an input error, never retried.

use vstd::prelude::*;

use crate::codec::{AsyncSerialization, DecOutcome, Decode, Encode, StartEncodeStatus};
use crate::io::{AsyncBufRead, AsyncRead, AsyncWrite, Error};

verus! {

/// A cell granting runtime-checked, possibly-exclusive access to its
/// contents: an exclusive borrow moves the value out until it is restored.
pub struct BorrowCell<T> {
    value: Option<T>,
}

impl<T> BorrowCell<T> {
    /// An exclusive borrow of the contents is live.
    pub closed spec fn is_lent(&self) -> bool {
        self.value is None
    }

    /// The contents, while no exclusive borrow is live.
    pub closed spec fn contents(&self) -> T {
        self.value->Some_0
    }

    /// Wrap a value in a cell with no borrow live.
    pub fn new(value: T) -> (r: BorrowCell<T>)
        ensures
            !r.is_lent(),
            r.contents() == value,
    {
        BorrowCell { value: Some(value) }
    }

    /// Take the exclusive borrow, moving the value out until restored.
    pub fn lend(&mut self) -> (r: Option<T>)
        ensures
            final(self).is_lent(),
            match r {
                Some(v) => !old(self).is_lent() && v == old(self).contents(),
                None => old(self).is_lent(),
            },
    {
        let mut v = None;
        core::mem::swap(&mut self.value, &mut v);
        v
    }

    /// Restore the exclusive borrow, placing a value back in the cell.
    pub fn restore(&mut self, value: T)
        ensures
            !final(self).is_lent(),
            final(self).contents() == value,
    {
        self.value = Some(value);
    }

    /// Whether an exclusive borrow of the contents is live.
    pub fn is_borrowed(&self) -> (r: bool)
        ensures
            r == self.is_lent(),
    {
        match self.value {
            None => true,
            Some(_) => false,
        }
    }

    /// Begin encoding the contents, delegating byte-for-byte to the inner
    /// shape's codec.
    ///
    /// Access is acquired at start time: while an exclusive borrow is
    /// live, the result is an input error, the sink is left untouched, and
    /// the borrower's value is unaffected (the cell is never written).
    pub fn start_encode_contents<E: Encode<Data = T>, W: AsyncWrite>(&self, writer: &mut W) -> (r: StartEncodeStatus<E, Error>)
        requires
            !self.is_lent() ==> E::encodable(self.contents()),
        ensures
            match r {
                StartEncodeStatus::Fini => !self.is_lent() && final(writer).written() == old(writer).written() + E::encoding(self.contents()),
                StartEncodeStatus::Pending(enc) => {
                    &&& !self.is_lent()
                    &&& enc.wf(self.contents()) && !enc.done() && !enc.failed()
                    &&& 0 <= enc.progress(self.contents()) <= E::encoding(self.contents()).len()
                    &&& final(writer).written() == old(writer).written() + E::encoding(self.contents()).take(enc.progress(self.contents()))
                },
                StartEncodeStatus::Error(e) => self.is_lent() ==> (e == Error::InvalidInput && final(writer).written() == old(writer).written()),
            },
    {
        match &self.value {
            Some(v) => E::start_encode(writer, v),
            None => StartEncodeStatus::Error(crate::io::invalid_input()),
        }
    }

    /// Resume a suspended encode of the contents.
    ///
    /// Access is re-validated on every resumption, never cached across a
    /// suspension: while an exclusive borrow is live, the result is an
    /// input error and the sink is left untouched.
    pub fn poll_encode_contents<E: Encode<Data = T>, W: AsyncWrite>(&self, enc: &mut E, writer: &mut W) -> (r: crate::codec::PollEncodeStatus<Error>)
        requires
            !self.is_lent() ==> {
                &&& E::encodable(self.contents())
                &&& old(enc).wf(self.contents())
            },
        ensures
            match r {
                crate::codec::PollEncodeStatus::Fini => {
                    &&& !self.is_lent() && !old(enc).done() && !old(enc).failed()
                    &&& final(writer).written() == old(writer).written() + E::encoding(self.contents()).subrange(old(enc).progress(self.contents()), E::encoding(self.contents()).len() as int)
                },
                crate::codec::PollEncodeStatus::Pending => !self.is_lent(),
                crate::codec::PollEncodeStatus::Error(e) => self.is_lent() ==> (e == Error::InvalidInput && final(writer).written() == old(writer).written() && *final(enc) == *old(enc)),
            },
    {
        match &self.value {
            Some(v) => enc.poll_encode(writer, v),
            None => crate::codec::PollEncodeStatus::Error(crate::io::invalid_input()),
        }
    }
}

/// The resumable encoder for a sole-owning box: it delegates
/// byte-for-byte to the inner shape's codec.
pub struct BoxEncode<E: Encode> {
    inner: E,
}

impl<E: Encode> Encode for BoxEncode<E> {
    type Data = Box<<E as Encode>::Data>;

    open spec fn encoding(data: Box<<E as Encode>::Data>) -> Seq<u8> {
        E::encoding(*data)
    }

    open spec fn encodable(data: Box<<E as Encode>::Data>) -> bool {
        E::encodable(*data)
    }

    closed spec fn progress(&self, data: Box<<E as Encode>::Data>) -> int {
        self.inner.progress(*data)
    }

    closed spec fn wf(&self, data: Box<<E as Encode>::Data>) -> bool {
        self.inner.wf(*data)
    }

    closed spec fn done(&self) -> bool {
        self.inner.done()
    }

    closed spec fn failed(&self) -> bool {
        self.inner.failed()
    }

    proof fn lemma_progress_bounds(&self, data: Box<<E as Encode>::Data>) {
        self.inner.lemma_progress_bounds(*data);
    }

    fn init(data: &Box<<E as Encode>::Data>) -> (e: Self) {
        BoxEncode { inner: E::init(&**data) }
    }

    fn poll_encode<W: AsyncWrite>(&mut self, writer: &mut W, data: &Box<<E as Encode>::Data>) -> (r: crate::codec::PollEncodeStatus<Error>) {
        let ghost p0 = self.inner.progress(**data);
        let r = self.inner.poll_encode(writer, &**data);
        proof {
            if r is Error && !(old(self).done() || old(self).failed()) {
                let p = choose|p: int|
                    #![trigger E::encoding(**data).subrange(p0, p)]
                    {
                        &&& p0 <= p <= E::encoding(**data).len()
                        &&& writer.written() == old(writer).written() + E::encoding(**data).subrange(p0, p)
                    };
                assert(old(self).progress(*data) == p0);
                assert(exists|p2: int|
                    #![trigger Self::encoding(*data).subrange(old(self).progress(*data), p2)]
                    {
                        &&& old(self).progress(*data) <= p2 <= Self::encoding(*data).len()
                        &&& writer.written() == old(writer).written() + Self::encoding(*data).subrange(old(self).progress(*data), p2)
                    }) by {
                    assert(Self::encoding(*data).subrange(p0, p) == E::encoding(**data).subrange(p0, p));
                }
            }
        }
        r
    }
}

/// The resumable decoder for a sole-owning box: it delegates
/// byte-for-byte to the inner shape's codec and boxes the result.
pub struct BoxDecode<D: Decode> {
    inner: D,
}

impl<D: Decode> Decode for BoxDecode<D> {
    type Data = Box<<D as Decode>::Data>;

    type Model = <D as Decode>::Model;

    open spec fn model(d: Box<<D as Decode>::Data>) -> <D as Decode>::Model {
        D::model(*d)
    }

    open spec fn decode_spec(bytes: Seq<u8>) -> DecOutcome<<D as Decode>::Model> {
        D::decode_spec(bytes)
    }

    closed spec fn taken(&self) -> Seq<u8> {
        self.inner.taken()
    }

    closed spec fn wf(&self) -> bool {
        self.inner.wf()
    }

    closed spec fn done(&self) -> bool {
        self.inner.done()
    }

    closed spec fn failed(&self) -> bool {
        self.inner.failed()
    }

    proof fn lemma_lawful(b: Seq<u8>, ext: Seq<u8>) {
        D::lemma_lawful(b, ext);
    }

    fn init() -> (d: Self) {
        BoxDecode { inner: D::init() }
    }

    fn poll_decode<R: AsyncRead + AsyncBufRead>(&mut self, reader: &mut R) -> (r: crate::codec::PollDecodeStatus<Box<<D as Decode>::Data>, Error>) {
        match self.inner.poll_decode(reader) {
            crate::codec::PollDecodeStatus::Fini(d) => crate::codec::PollDecodeStatus::Fini(Box::new(d)),
            crate::codec::PollDecodeStatus::Pending => crate::codec::PollDecodeStatus::Pending,
            crate::codec::PollDecodeStatus::Error(e) => crate::codec::PollDecodeStatus::Error(e),
        }
    }
}

/// The value a shared-ownership handle points at.
pub open spec fn arc_inner<T>(a: std::sync::Arc<T>) -> T {
    *a
}

/// The resumable encoder for a shared-ownership handle: it delegates
/// byte-for-byte to the inner shape's codec.
pub struct ArcEncode<E: Encode> {
    inner: E,
}

impl<E: Encode> Encode for ArcEncode<E> {
    type Data = std::sync::Arc<<E as Encode>::Data>;

    open spec fn encoding(data: std::sync::Arc<<E as Encode>::Data>) -> Seq<u8> {
        E::encoding(*data)
    }

    open spec fn encodable(data: std::sync::Arc<<E as Encode>::Data>) -> bool {
        E::encodable(*data)
    }

    closed spec fn progress(&self, data: std::sync::Arc<<E as Encode>::Data>) -> int {
        self.inner.progress(*data)
    }

    closed spec fn wf(&self, data: std::sync::Arc<<E as Encode>::Data>) -> bool {
        self.inner.wf(*data)
    }

    closed spec fn done(&self) -> bool {
        self.inner.done()
    }

    closed spec fn failed(&self) -> bool {
        self.inner.failed()
    }

    proof fn lemma_progress_bounds(&self, data: std::sync::Arc<<E as Encode>::Data>) {
        self.inner.lemma_progress_bounds(arc_inner(data));
    }

    fn init(data: &std::sync::Arc<<E as Encode>::Data>) -> (e: Self) {
        ArcEncode { inner: E::init(&**data) }
    }

    fn poll_encode<W: AsyncWrite>(&mut self, writer: &mut W, data: &std::sync::Arc<<E as Encode>::Data>) -> (r: crate::codec::PollEncodeStatus<Error>) {
        let ghost p0 = self.inner.progress(arc_inner(*data));
        let r = self.inner.poll_encode(writer, &**data);
        proof {
            if r is Error && !(old(self).done() || old(self).failed()) {
                let p = choose|p: int|
                    #![trigger E::encoding(**data).subrange(p0, p)]
                    {
                        &&& p0 <= p <= E::encoding(**data).len()
                        &&& writer.written() == old(writer).written() + E::encoding(**data).subrange(p0, p)
                    };
                assert(old(self).progress(*data) == p0);
                assert(exists|p2: int|
                    #![trigger Self::encoding(*data).subrange(old(self).progress(*data), p2)]
                    {
                        &&& old(self).progress(*data) <= p2 <= Self::encoding(*data).len()
                        &&& writer.written() == old(writer).written() + Self::encoding(*data).subrange(old(self).progress(*data), p2)
                    }) by {
                    assert(Self::encoding(*data).subrange(p0, p) == E::encoding(**data).subrange(p0, p));
                }
            }
        }
        r
    }
}

/// The resumable decoder for a shared-ownership handle: it delegates
/// byte-for-byte to the inner shape's codec and wraps the result in a fresh handle.
pub struct ArcDecode<D: Decode> {
    inner: D,
}

impl<D: Decode> Decode for ArcDecode<D> {
    type Data = std::sync::Arc<<D as Decode>::Data>;

    type Model = <D as Decode>::Model;

    open spec fn model(d: std::sync::Arc<<D as Decode>::Data>) -> <D as Decode>::Model {
        D::model(*d)
    }

    open spec fn decode_spec(bytes: Seq<u8>) -> DecOutcome<<D as Decode>::Model> {
        D::decode_spec(bytes)
    }

    closed spec fn taken(&self) -> Seq<u8> {
        self.inner.taken()
    }

    closed spec fn wf(&self) -> bool {
        self.inner.wf()
    }

    closed spec fn done(&self) -> bool {
        self.inner.done()
    }

    closed spec fn failed(&self) -> bool {
        self.inner.failed()
    }

    proof fn lemma_lawful(b: Seq<u8>, ext: Seq<u8>) {
        D::lemma_lawful(b, ext);
    }

    fn init() -> (d: Self) {
        ArcDecode { inner: D::init() }
    }

    fn poll_decode<R: AsyncRead + AsyncBufRead>(&mut self, reader: &mut R) -> (r: crate::codec::PollDecodeStatus<std::sync::Arc<<D as Decode>::Data>, Error>) {
        match self.inner.poll_decode(reader) {
            crate::codec::PollDecodeStatus::Fini(d) => crate::codec::PollDecodeStatus::Fini(std::sync::Arc::new(d)),
            crate::codec::PollDecodeStatus::Pending => crate::codec::PollDecodeStatus::Pending,
            crate::codec::PollDecodeStatus::Error(e) => crate::codec::PollDecodeStatus::Error(e),
        }
    }
}

/// The round-trip law for shared-ownership handles: the handle is
/// transparent on the wire, so the inner pair's agreement is the pair's
/// agreement.
pub proof fn lemma_arc_round_trips<E: Encode, D: Decode<Data = <E as Encode>::Data>>()
    requires
        crate::codec::round_trips::<E, D>(),
    ensures
        crate::codec::round_trips::<ArcEncode<E>, ArcDecode<D>>(),
{
    assert forall|d: std::sync::Arc<<E as Encode>::Data>, rest: Seq<u8>|
        <ArcEncode<E> as Encode>::encodable(d) implies #[trigger] <ArcDecode<D> as Decode>::decode_spec(<ArcEncode<E> as Encode>::encoding(d).add(rest)) == DecOutcome::<<D as Decode>::Model>::Done(<ArcDecode<D> as Decode>::model(d), <ArcEncode<E> as Encode>::encoding(d).len() as int) by {
        assert(D::decode_spec(E::encoding(*d).add(rest)) == DecOutcome::Done(D::model(*d), E::encoding(*d).len() as int));
    }
}

impl<E: AsyncSerialization> AsyncSerialization for ArcEncode<E> {
    type Dec = ArcDecode<<E as AsyncSerialization>::Dec>;

    proof fn lemma_round_trip() {
        E::lemma_round_trip();
        lemma_arc_round_trips::<E, <E as AsyncSerialization>::Dec>();
    }
}

/// The round-trip law for boxed values: the box is transparent on the
/// wire, so the inner pair's agreement is the boxed pair's agreement.
pub proof fn lemma_box_round_trips<E: Encode, D: Decode<Data = <E as Encode>::Data>>()
    requires
        crate::codec::round_trips::<E, D>(),
    ensures
        crate::codec::round_trips::<BoxEncode<E>, BoxDecode<D>>(),
{
    assert forall|d: Box<<E as Encode>::Data>, rest: Seq<u8>|
        <BoxEncode<E> as Encode>::encodable(d) implies #[trigger] <BoxDecode<D> as Decode>::decode_spec(<BoxEncode<E> as Encode>::encoding(d).add(rest)) == DecOutcome::<<D as Decode>::Model>::Done(<BoxDecode<D> as Decode>::model(d), <BoxEncode<E> as Encode>::encoding(d).len() as int) by {
        assert(D::decode_spec(E::encoding(*d).add(rest)) == DecOutcome::Done(D::model(*d), E::encoding(*d).len() as int));
    }
}

impl<E: AsyncSerialization> AsyncSerialization for BoxEncode<E> {
    type Dec = BoxDecode<<E as AsyncSerialization>::Dec>;

    proof fn lemma_round_trip() {
        E::lemma_round_trip();
        lemma_box_round_trips::<E, <E as AsyncSerialization>::Dec>();
    }
}

} // verus!
