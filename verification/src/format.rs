//! A wire format that encodes the primitives as their little-endian,
//! in-memory byte representations.
//!
//! [`Formatter`] supplies a resumable encoder/decoder pair for every
//! primitive kind, built from one generic fixed-width codec driven by a
//! [`BufferState`].

use core::marker::PhantomData;

use vstd::bytes::{spec_u128_from_le_bytes, spec_u128_to_le_bytes, u128_from_le_bytes, u128_to_le_bytes, spec_u16_from_le_bytes, spec_u16_to_le_bytes, spec_u32_from_le_bytes, spec_u32_to_le_bytes, spec_u64_from_le_bytes, spec_u64_to_le_bytes, u16_from_le_bytes, u16_to_le_bytes, u32_from_le_bytes, u32_to_le_bytes, u64_from_le_bytes, u64_to_le_bytes};
use vstd::prelude::*;

use crate::buffer::BufferState;
use crate::codec::{AsyncSerialization, DecOutcome, Decode, Encode, Format, PollDecodeStatus, PollEncodeStatus, round_trips};
use crate::internal::{SequenceLen, VariantIdx};
use crate::io::{AsyncBufRead, AsyncRead, AsyncWrite, Error};

verus! {

/// Create a formatter instance.
pub fn format() -> Formatter {
    Formatter
}

/// A format that encodes the primitives as their little-endian, in-memory
/// byte representations, with a four-byte discriminant and an eight-byte
/// sequence length.
pub struct Formatter;

/// A primitive with a fixed wire width under [`Formatter`].
pub trait Prim: Sized + Copy {
    /// The fixed number of wire bytes.
    spec fn width() -> nat;

    /// The wire image of a value.
    spec fn wire(v: Self) -> Seq<u8>;

    /// Whether the value fits the wire width.
    spec fn wire_ok(v: Self) -> bool;

    /// Parse one full window of wire bytes.
    spec fn parse(b: Seq<u8>) -> Option<Self>;

    /// Every primitive occupies at least one wire byte.
    proof fn lemma_width_pos()
        ensures
            Self::width() > 0,
    ;

    /// The wire image fills the width exactly.
    proof fn lemma_wire_len(v: Self)
        requires
            Self::wire_ok(v),
        ensures
            Self::wire(v).len() == Self::width(),
    ;

    /// Parsing a wire image recovers the value.
    proof fn lemma_parse_wire(v: Self)
        requires
            Self::wire_ok(v),
        ensures
            Self::parse(Self::wire(v)) == Some(v),
    ;

    /// The fixed wire width.
    fn width_exec() -> (r: usize)
        ensures
            r == Self::width(),
    ;

    /// Produce the wire image of a value.
    fn to_wire(v: &Self) -> (r: Vec<u8>)
        requires
            Self::wire_ok(*v),
        ensures
            r@ == Self::wire(*v),
    ;

    /// Parse one full window of wire bytes.
    fn from_wire(b: &Vec<u8>) -> (r: Option<Self>)
        requires
            b@.len() == Self::width(),
        ensures
            r == Self::parse(b@),
    ;
}

/// The resumable encoder for a fixed-width primitive: its wire image plus
/// a cursor over the bytes still to be flushed.
pub struct PrimEncode<P: Prim> {
    buf: BufferState,
    _marker: PhantomData<P>,
}

impl<P: Prim> Encode for PrimEncode<P> {
    type Data = P;

    open spec fn encoding(data: P) -> Seq<u8> {
        P::wire(data)
    }

    open spec fn encodable(data: P) -> bool {
        P::wire_ok(data)
    }

    closed spec fn progress(&self, data: P) -> int {
        self.buf.spec_cur().spec_offset() as int
    }

    closed spec fn wf(&self, data: P) -> bool {
        self.buf.spec_cur().spec_failed() || {
            &&& self.buf.bytes() == P::wire(data)
            &&& self.buf.spec_cur().spec_len() == self.buf.bytes().len()
            &&& self.buf.spec_cur().spec_offset() <= self.buf.spec_cur().spec_len()
        }
    }

    closed spec fn done(&self) -> bool {
        self.buf.spec_cur().spec_len() != 0 && self.buf.spec_cur().spec_offset() == self.buf.spec_cur().spec_len()
    }

    closed spec fn failed(&self) -> bool {
        self.buf.spec_cur().spec_failed()
    }

    proof fn lemma_progress_bounds(&self, data: P) {
    }

    fn init(data: &P) -> (e: Self) {
        proof {
            P::lemma_width_pos();
            P::lemma_wire_len(*data);
        }
        PrimEncode { buf: BufferState::with_contents(P::to_wire(data)), _marker: PhantomData }
    }

    fn poll_encode<W: AsyncWrite>(&mut self, writer: &mut W, data: &P) -> (r: PollEncodeStatus<Error>)
        ensures
            (r is Error && !(old(self).done() || old(self).failed())) ==> exists|p: int|
                #![trigger Self::encoding(*data).subrange(old(self).progress(*data), p)]
                {
                    &&& old(self).progress(*data) <= p <= Self::encoding(*data).len()
                    &&& final(writer).written() == old(writer).written() + Self::encoding(*data).subrange(old(self).progress(*data), p)
                },
    {
        if self.buf.is_empty() {
            PollEncodeStatus::Error(crate::io::invalid_input())
        } else if !self.buf.is_pending() {
            self.buf.abort();
            PollEncodeStatus::Error(crate::io::invalid_input())
        } else {
            let ghost off = self.buf.spec_cur().spec_offset() as int;
            let ghost bytes0 = self.buf.bytes();
            let r = self.buf.write_remaining(writer);
            proof {
                if let PollEncodeStatus::Error(_) = &r {
                    let q = choose|q: int|
                        #![trigger bytes0.subrange(off, q)]
                        {
                            &&& off <= q <= bytes0.len()
                            &&& writer.written() == old(writer).written() + bytes0.subrange(off, q)
                        };
                    assert(Self::encoding(*data).subrange(old(self).progress(*data), q) == bytes0.subrange(off, q));
                }
            }
            r
        }
    }
}

/// The resumable decoder for a fixed-width primitive: a window gathering
/// its wire bytes plus a cursor over the bytes still missing.
pub struct PrimDecode<P: Prim> {
    buf: BufferState,
    _marker: PhantomData<P>,
}

impl<P: Prim> Decode for PrimDecode<P> {
    type Data = P;

    type Model = P;

    open spec fn model(d: P) -> P {
        d
    }

    open spec fn decode_spec(bytes: Seq<u8>) -> DecOutcome<P> {
        if bytes.len() < P::width() {
            DecOutcome::NeedMore
        } else {
            match P::parse(bytes.take(P::width() as int)) {
                Some(v) => DecOutcome::Done(v, P::width() as int),
                None => DecOutcome::Bad,
            }
        }
    }

    closed spec fn taken(&self) -> Seq<u8> {
        self.buf.bytes().take(self.buf.spec_cur().spec_offset() as int)
    }

    closed spec fn wf(&self) -> bool {
        self.buf.spec_cur().spec_failed() || {
            &&& self.buf.bytes().len() == P::width()
            &&& self.buf.spec_cur().spec_len() == P::width()
            &&& self.buf.spec_cur().spec_offset() <= P::width()
        }
    }

    closed spec fn done(&self) -> bool {
        self.buf.spec_cur().spec_len() != 0 && self.buf.spec_cur().spec_offset() == self.buf.spec_cur().spec_len()
    }

    closed spec fn failed(&self) -> bool {
        self.buf.spec_cur().spec_failed()
    }

    proof fn lemma_lawful(b: Seq<u8>, ext: Seq<u8>) {
        if b.len() >= P::width() {
            assert(b.add(ext).take(P::width() as int) =~= b.take(P::width() as int));
        }
    }

    fn init() -> (d: Self) {
        proof {
            P::lemma_width_pos();
        }
        let width = P::width_exec();
        let d = PrimDecode { buf: BufferState::init(width), _marker: PhantomData };
        proof {
            assert(d.taken() =~= Seq::<u8>::empty());
        }
        d
    }

    fn poll_decode<R: AsyncRead + AsyncBufRead>(&mut self, reader: &mut R) -> (r: PollDecodeStatus<P, Error>)
        ensures
            r matches PollDecodeStatus::Error(e) ==> (!(old(self).done() || old(self).failed()) ==> exists|n: int|
                #![trigger old(reader).remaining().skip(n)]
                {
                    &&& 0 <= n <= old(reader).remaining().len()
                    &&& final(reader).remaining() == old(reader).remaining().skip(n)
                    &&& (Self::decode_spec(old(self).taken().add(old(reader).remaining().take(n))) is Bad ==> e == Error::InvalidData)
                }),
    {
        if self.buf.is_empty() {
            PollDecodeStatus::Error(crate::io::invalid_input())
        } else if !self.buf.is_pending() {
            self.buf.abort();
            PollDecodeStatus::Error(crate::io::invalid_input())
        } else {
            let ghost all = old(reader).remaining();
            let ghost off = self.buf.spec_cur().spec_offset() as int;
            let ghost w = P::width() as int;
            match self.buf.read_remaining(reader) {
                PollDecodeStatus::Fini(_) => {
                    proof {
                        let n = w - off;
                        assert(old(self).taken().add(all.take(n)) =~= self.buf.bytes()) by {
                            assert(old(self).buf.bytes().subrange(0, off) == old(self).taken());
                            assert(old(self).buf.bytes().subrange(w, w) =~= Seq::<u8>::empty());
                            assert(self.buf.bytes() =~= old(self).buf.bytes().subrange(0, off) + all.take(n) + old(self).buf.bytes().subrange(w, w));
                        }
                        assert(self.buf.bytes().take(w) =~= self.buf.bytes());
                    }
                    match P::from_wire(self.buf.buffer()) {
                        Some(v) => {
                            proof {
                                let n = w - off;
                                assert(Self::decode_spec(old(self).taken().add(all.take(n))) == DecOutcome::Done(v, old(self).taken().len() + n));
                            }
                            PollDecodeStatus::Fini(v)
                        },
                        None => {
                            proof {
                                let n = w - off;
                                assert(Self::decode_spec(old(self).taken().add(all.take(n))) is Bad);
                            }
                            self.buf.abort();
                            PollDecodeStatus::Error(crate::io::invalid_data())
                        },
                    }
                },
                PollDecodeStatus::Pending => {
                    proof {
                        let k = self.buf.spec_cur().spec_offset() - off;
                        assert(self.taken() =~= old(self).taken().add(all.take(k))) by {
                            assert(self.buf.bytes() =~= old(self).buf.bytes().subrange(0, off) + all.take(k) + old(self).buf.bytes().subrange(off + k, w));
                        }
                    }
                    PollDecodeStatus::Pending
                },
                PollDecodeStatus::Error(e) => {
                    proof {
                        let k = choose|k: int|
                            #![trigger all.skip(k)]
                            {
                                &&& 0 <= k < w - off
                                &&& k <= all.len()
                                &&& reader.remaining() == all.skip(k)
                            };
                        assert(old(self).taken().add(all.take(k)).len() < P::width());
                    }
                    PollDecodeStatus::Error(e)
                },
            }
        }
    }
}

/// Any fixed-width primitive codec pair round-trips.
pub proof fn lemma_prim_round_trips<P: Prim>()
    ensures
        round_trips::<PrimEncode<P>, PrimDecode<P>>(),
{
    assert forall|d: P, rest: Seq<u8>|
        <PrimEncode<P> as Encode>::encodable(d) implies #[trigger] <PrimDecode<P> as Decode>::decode_spec(<PrimEncode<P> as Encode>::encoding(d).add(rest)) == DecOutcome::<P>::Done(d, <PrimEncode<P> as Encode>::encoding(d).len() as int) by {
        P::lemma_width_pos();
        P::lemma_wire_len(d);
        P::lemma_parse_wire(d);
        assert(P::wire(d).add(rest).take(P::width() as int) =~= P::wire(d));
    }
}

/// The resumable encoder for the unit primitive, which occupies no wire
/// bytes at all.
#[derive(Debug, Clone, Copy)]
pub enum EncodeUnit {
    /// No poll has happened yet.
    Init,
    /// The encode completed.
    Fini,
    /// The encode was polled after completion.
    Failed,
}

impl Encode for EncodeUnit {
    type Data = ();

    open spec fn encoding(data: ()) -> Seq<u8> {
        Seq::<u8>::empty()
    }

    open spec fn encodable(data: ()) -> bool {
        true
    }

    closed spec fn progress(&self, data: ()) -> int {
        0
    }

    closed spec fn wf(&self, data: ()) -> bool {
        true
    }

    closed spec fn done(&self) -> bool {
        self is Fini
    }

    closed spec fn failed(&self) -> bool {
        self is Failed
    }

    proof fn lemma_progress_bounds(&self, data: ()) {
    }

    fn init(data: &()) -> (e: Self) {
        EncodeUnit::Init
    }

    fn poll_encode<W: AsyncWrite>(&mut self, writer: &mut W, data: &()) -> (r: PollEncodeStatus<Error>)
        ensures
            !(old(self).done() || old(self).failed()) ==> r is Fini,
    {
        match *self {
            EncodeUnit::Init => {
                *self = EncodeUnit::Fini;
                proof {
                    assert(writer.written() + Seq::<u8>::empty().subrange(0, 0) =~= writer.written());
                }
                PollEncodeStatus::Fini
            },
            _ => {
                *self = EncodeUnit::Failed;
                PollEncodeStatus::Error(crate::io::invalid_input())
            },
        }
    }
}

/// The resumable decoder for the unit primitive, which consumes no wire
/// bytes at all.
#[derive(Debug, Clone, Copy)]
pub enum DecodeUnit {
    /// No poll has happened yet.
    Init,
    /// The decode completed.
    Fini,
    /// The decode was polled after completion.
    Failed,
}

impl Decode for DecodeUnit {
    type Data = ();

    type Model = ();

    open spec fn model(d: ()) -> () {
        d
    }

    open spec fn decode_spec(bytes: Seq<u8>) -> DecOutcome<()> {
        DecOutcome::Done((), 0)
    }

    closed spec fn taken(&self) -> Seq<u8> {
        Seq::<u8>::empty()
    }

    closed spec fn wf(&self) -> bool {
        true
    }

    closed spec fn done(&self) -> bool {
        self is Fini
    }

    closed spec fn failed(&self) -> bool {
        self is Failed
    }

    proof fn lemma_lawful(b: Seq<u8>, ext: Seq<u8>) {
    }

    fn init() -> (d: Self) {
        DecodeUnit::Init
    }

    fn poll_decode<R: AsyncRead + AsyncBufRead>(&mut self, reader: &mut R) -> (r: PollDecodeStatus<(), Error>)
        ensures
            !(old(self).done() || old(self).failed()) ==> (r matches PollDecodeStatus::Fini(d) && d == ()),
    {
        match *self {
            DecodeUnit::Init => {
                *self = DecodeUnit::Fini;
                proof {
                    assert(reader.remaining().skip(0) =~= reader.remaining());
                    assert(old(self).taken().add(reader.remaining().take(0)) =~= Seq::<u8>::empty());
                }
                PollDecodeStatus::Fini(())
            },
            _ => {
                *self = DecodeUnit::Failed;
                PollDecodeStatus::Error(crate::io::invalid_input())
            },
        }
    }
}

impl Prim for u8 {
    open spec fn width() -> nat {
        1
    }

    open spec fn wire(v: u8) -> Seq<u8> {
        seq![v]
    }

    open spec fn wire_ok(v: u8) -> bool {
        true
    }

    open spec fn parse(b: Seq<u8>) -> Option<u8> {
        Some(b[0])
    }

    proof fn lemma_width_pos() {
    }

    proof fn lemma_wire_len(v: u8) {
    }

    proof fn lemma_parse_wire(v: u8) {
    }

    fn width_exec() -> (r: usize) {
        1
    }

    fn to_wire(v: &u8) -> (r: Vec<u8>) {
        let mut out: Vec<u8> = Vec::new();
        out.push(*v);
        proof {
            assert(out@ =~= seq![*v]);
        }
        out
    }

    fn from_wire(b: &Vec<u8>) -> (r: Option<u8>) {
        Some(b[0])
    }
}

impl Prim for u16 {
    open spec fn width() -> nat {
        2
    }

    open spec fn wire(v: u16) -> Seq<u8> {
        spec_u16_to_le_bytes(v)
    }

    open spec fn wire_ok(v: u16) -> bool {
        true
    }

    open spec fn parse(b: Seq<u8>) -> Option<u16> {
        Some(spec_u16_from_le_bytes(b))
    }

    proof fn lemma_width_pos() {
    }

    proof fn lemma_wire_len(v: u16) {
        vstd::bytes::lemma_auto_spec_u16_to_from_le_bytes();
    }

    proof fn lemma_parse_wire(v: u16) {
        vstd::bytes::lemma_auto_spec_u16_to_from_le_bytes();
        assert(spec_u16_to_le_bytes(v).len() == 2);
    }

    fn width_exec() -> (r: usize) {
        2
    }

    fn to_wire(v: &u16) -> (r: Vec<u8>) {
        u16_to_le_bytes(*v)
    }

    fn from_wire(b: &Vec<u8>) -> (r: Option<u16>) {
        Some(u16_from_le_bytes(b.as_slice()))
    }
}

impl Prim for u32 {
    open spec fn width() -> nat {
        4
    }

    open spec fn wire(v: u32) -> Seq<u8> {
        spec_u32_to_le_bytes(v)
    }

    open spec fn wire_ok(v: u32) -> bool {
        true
    }

    open spec fn parse(b: Seq<u8>) -> Option<u32> {
        Some(spec_u32_from_le_bytes(b))
    }

    proof fn lemma_width_pos() {
    }

    proof fn lemma_wire_len(v: u32) {
        vstd::bytes::lemma_auto_spec_u32_to_from_le_bytes();
    }

    proof fn lemma_parse_wire(v: u32) {
        vstd::bytes::lemma_auto_spec_u32_to_from_le_bytes();
        assert(spec_u32_to_le_bytes(v).len() == 4);
    }

    fn width_exec() -> (r: usize) {
        4
    }

    fn to_wire(v: &u32) -> (r: Vec<u8>) {
        u32_to_le_bytes(*v)
    }

    fn from_wire(b: &Vec<u8>) -> (r: Option<u32>) {
        Some(u32_from_le_bytes(b.as_slice()))
    }
}

impl Prim for u64 {
    open spec fn width() -> nat {
        8
    }

    open spec fn wire(v: u64) -> Seq<u8> {
        spec_u64_to_le_bytes(v)
    }

    open spec fn wire_ok(v: u64) -> bool {
        true
    }

    open spec fn parse(b: Seq<u8>) -> Option<u64> {
        Some(spec_u64_from_le_bytes(b))
    }

    proof fn lemma_width_pos() {
    }

    proof fn lemma_wire_len(v: u64) {
        vstd::bytes::lemma_auto_spec_u64_to_from_le_bytes();
    }

    proof fn lemma_parse_wire(v: u64) {
        vstd::bytes::lemma_auto_spec_u64_to_from_le_bytes();
    }

    fn width_exec() -> (r: usize) {
        8
    }

    fn to_wire(v: &u64) -> (r: Vec<u8>) {
        u64_to_le_bytes(*v)
    }

    fn from_wire(b: &Vec<u8>) -> (r: Option<u64>) {
        Some(u64_from_le_bytes(b.as_slice()))
    }
}

impl Prim for bool {
    open spec fn width() -> nat {
        1
    }

    open spec fn wire(v: bool) -> Seq<u8> {
        if v {
            seq![1u8]
        } else {
            seq![0u8]
        }
    }

    open spec fn wire_ok(v: bool) -> bool {
        true
    }

    open spec fn parse(b: Seq<u8>) -> Option<bool> {
        if b[0] == 0 {
            Some(false)
        } else if b[0] == 1 {
            Some(true)
        } else {
            None
        }
    }

    proof fn lemma_width_pos() {
    }

    proof fn lemma_wire_len(v: bool) {
    }

    proof fn lemma_parse_wire(v: bool) {
    }

    fn width_exec() -> (r: usize) {
        1
    }

    fn to_wire(v: &bool) -> (r: Vec<u8>) {
        let mut out: Vec<u8> = Vec::new();
        out.push(if *v { 1u8 } else { 0u8 });
        proof {
            assert(out@ =~= <bool as Prim>::wire(*v));
        }
        out
    }

    fn from_wire(b: &Vec<u8>) -> (r: Option<bool>) {
        if b[0] == 0 {
            Some(false)
        } else if b[0] == 1 {
            Some(true)
        } else {
            None
        }
    }
}

impl Prim for VariantIdx {
    open spec fn width() -> nat {
        4
    }

    open spec fn wire(v: VariantIdx) -> Seq<u8> {
        spec_u32_to_le_bytes(v.0 as u32)
    }

    open spec fn wire_ok(v: VariantIdx) -> bool {
        v.0 <= u32::MAX
    }

    open spec fn parse(b: Seq<u8>) -> Option<VariantIdx> {
        Some(VariantIdx(spec_u32_from_le_bytes(b) as usize))
    }

    proof fn lemma_width_pos() {
    }

    proof fn lemma_wire_len(v: VariantIdx) {
        vstd::bytes::lemma_auto_spec_u32_to_from_le_bytes();
    }

    proof fn lemma_parse_wire(v: VariantIdx) {
        vstd::bytes::lemma_auto_spec_u32_to_from_le_bytes();
        assert(spec_u32_to_le_bytes(v.0 as u32).len() == 4);
        assert((v.0 as u32) as usize == v.0);
    }

    fn width_exec() -> (r: usize) {
        4
    }

    fn to_wire(v: &VariantIdx) -> (r: Vec<u8>) {
        u32_to_le_bytes(v.0 as u32)
    }

    fn from_wire(b: &Vec<u8>) -> (r: Option<VariantIdx>) {
        Some(VariantIdx(u32_from_le_bytes(b.as_slice()) as usize))
    }
}

impl Prim for SequenceLen {
    open spec fn width() -> nat {
        8
    }

    open spec fn wire(v: SequenceLen) -> Seq<u8> {
        spec_u64_to_le_bytes(v.0 as u64)
    }

    open spec fn wire_ok(v: SequenceLen) -> bool {
        true
    }

    open spec fn parse(b: Seq<u8>) -> Option<SequenceLen> {
        if spec_u64_from_le_bytes(b) <= usize::MAX {
            Some(SequenceLen(spec_u64_from_le_bytes(b) as usize))
        } else {
            None
        }
    }

    proof fn lemma_width_pos() {
    }

    proof fn lemma_wire_len(v: SequenceLen) {
        vstd::bytes::lemma_auto_spec_u64_to_from_le_bytes();
    }

    proof fn lemma_parse_wire(v: SequenceLen) {
        vstd::bytes::lemma_auto_spec_u64_to_from_le_bytes();
    }

    fn width_exec() -> (r: usize) {
        8
    }

    fn to_wire(v: &SequenceLen) -> (r: Vec<u8>) {
        u64_to_le_bytes(v.0 as u64)
    }

    fn from_wire(b: &Vec<u8>) -> (r: Option<SequenceLen>) {
        let x = u64_from_le_bytes(b.as_slice());
        if x <= usize::MAX as u64 {
            Some(SequenceLen(x as usize))
        } else {
            None
        }
    }
}

impl Prim for u128 {
    open spec fn width() -> nat {
        16
    }

    open spec fn wire(v: u128) -> Seq<u8> {
        spec_u128_to_le_bytes(v)
    }

    open spec fn wire_ok(v: u128) -> bool {
        true
    }

    open spec fn parse(b: Seq<u8>) -> Option<u128> {
        Some(spec_u128_from_le_bytes(b))
    }

    proof fn lemma_width_pos() {
    }

    proof fn lemma_wire_len(v: u128) {
        vstd::bytes::lemma_auto_spec_u128_to_from_le_bytes();
        assert(spec_u128_to_le_bytes(v).len() == 16);
    }

    proof fn lemma_parse_wire(v: u128) {
        vstd::bytes::lemma_auto_spec_u128_to_from_le_bytes();
        assert(spec_u128_to_le_bytes(v).len() == 16);
    }

    fn width_exec() -> (r: usize) {
        16
    }

    fn to_wire(v: &u128) -> (r: Vec<u8>) {
        u128_to_le_bytes(*v)
    }

    fn from_wire(b: &Vec<u8>) -> (r: Option<u128>) {
        Some(u128_from_le_bytes(b.as_slice()))
    }
}

impl Prim for i8 {
    open spec fn width() -> nat {
        1
    }

    open spec fn wire(v: i8) -> Seq<u8> {
        seq![v as u8]
    }

    open spec fn wire_ok(v: i8) -> bool {
        true
    }

    open spec fn parse(b: Seq<u8>) -> Option<i8> {
        Some(b[0] as i8)
    }

    proof fn lemma_width_pos() {
    }

    proof fn lemma_wire_len(v: i8) {
    }

    proof fn lemma_parse_wire(v: i8) {
        assert((v as u8) as i8 == v) by (bit_vector);
    }

    fn width_exec() -> (r: usize) {
        1
    }

    fn to_wire(v: &i8) -> (r: Vec<u8>) {
        let mut out: Vec<u8> = Vec::new();
        out.push(*v as u8);
        proof {
            assert(out@ =~= seq![*v as u8]);
        }
        out
    }

    fn from_wire(b: &Vec<u8>) -> (r: Option<i8>) {
        Some(b[0] as i8)
    }
}

impl Prim for i16 {
    open spec fn width() -> nat {
        2
    }

    open spec fn wire(v: i16) -> Seq<u8> {
        spec_u16_to_le_bytes(v as u16)
    }

    open spec fn wire_ok(v: i16) -> bool {
        true
    }

    open spec fn parse(b: Seq<u8>) -> Option<i16> {
        Some(spec_u16_from_le_bytes(b) as i16)
    }

    proof fn lemma_width_pos() {
    }

    proof fn lemma_wire_len(v: i16) {
        vstd::bytes::lemma_auto_spec_u16_to_from_le_bytes();
        assert(spec_u16_to_le_bytes(v as u16).len() == 2);
    }

    proof fn lemma_parse_wire(v: i16) {
        vstd::bytes::lemma_auto_spec_u16_to_from_le_bytes();
        assert(spec_u16_to_le_bytes(v as u16).len() == 2);
        assert((v as u16) as i16 == v) by (bit_vector);
    }

    fn width_exec() -> (r: usize) {
        2
    }

    fn to_wire(v: &i16) -> (r: Vec<u8>) {
        u16_to_le_bytes(*v as u16)
    }

    fn from_wire(b: &Vec<u8>) -> (r: Option<i16>) {
        Some(u16_from_le_bytes(b.as_slice()) as i16)
    }
}

impl Prim for i32 {
    open spec fn width() -> nat {
        4
    }

    open spec fn wire(v: i32) -> Seq<u8> {
        spec_u32_to_le_bytes(v as u32)
    }

    open spec fn wire_ok(v: i32) -> bool {
        true
    }

    open spec fn parse(b: Seq<u8>) -> Option<i32> {
        Some(spec_u32_from_le_bytes(b) as i32)
    }

    proof fn lemma_width_pos() {
    }

    proof fn lemma_wire_len(v: i32) {
        vstd::bytes::lemma_auto_spec_u32_to_from_le_bytes();
        assert(spec_u32_to_le_bytes(v as u32).len() == 4);
    }

    proof fn lemma_parse_wire(v: i32) {
        vstd::bytes::lemma_auto_spec_u32_to_from_le_bytes();
        assert(spec_u32_to_le_bytes(v as u32).len() == 4);
        assert((v as u32) as i32 == v) by (bit_vector);
    }

    fn width_exec() -> (r: usize) {
        4
    }

    fn to_wire(v: &i32) -> (r: Vec<u8>) {
        u32_to_le_bytes(*v as u32)
    }

    fn from_wire(b: &Vec<u8>) -> (r: Option<i32>) {
        Some(u32_from_le_bytes(b.as_slice()) as i32)
    }
}

impl Prim for i64 {
    open spec fn width() -> nat {
        8
    }

    open spec fn wire(v: i64) -> Seq<u8> {
        spec_u64_to_le_bytes(v as u64)
    }

    open spec fn wire_ok(v: i64) -> bool {
        true
    }

    open spec fn parse(b: Seq<u8>) -> Option<i64> {
        Some(spec_u64_from_le_bytes(b) as i64)
    }

    proof fn lemma_width_pos() {
    }

    proof fn lemma_wire_len(v: i64) {
        vstd::bytes::lemma_auto_spec_u64_to_from_le_bytes();
        assert(spec_u64_to_le_bytes(v as u64).len() == 8);
    }

    proof fn lemma_parse_wire(v: i64) {
        vstd::bytes::lemma_auto_spec_u64_to_from_le_bytes();
        assert(spec_u64_to_le_bytes(v as u64).len() == 8);
        assert((v as u64) as i64 == v) by (bit_vector);
    }

    fn width_exec() -> (r: usize) {
        8
    }

    fn to_wire(v: &i64) -> (r: Vec<u8>) {
        u64_to_le_bytes(*v as u64)
    }

    fn from_wire(b: &Vec<u8>) -> (r: Option<i64>) {
        Some(u64_from_le_bytes(b.as_slice()) as i64)
    }
}

impl Prim for i128 {
    open spec fn width() -> nat {
        16
    }

    open spec fn wire(v: i128) -> Seq<u8> {
        spec_u128_to_le_bytes(v as u128)
    }

    open spec fn wire_ok(v: i128) -> bool {
        true
    }

    open spec fn parse(b: Seq<u8>) -> Option<i128> {
        Some(spec_u128_from_le_bytes(b) as i128)
    }

    proof fn lemma_width_pos() {
    }

    proof fn lemma_wire_len(v: i128) {
        vstd::bytes::lemma_auto_spec_u128_to_from_le_bytes();
        assert(spec_u128_to_le_bytes(v as u128).len() == 16);
    }

    proof fn lemma_parse_wire(v: i128) {
        vstd::bytes::lemma_auto_spec_u128_to_from_le_bytes();
        assert(spec_u128_to_le_bytes(v as u128).len() == 16);
        assert((v as u128) as i128 == v) by (bit_vector);
    }

    fn width_exec() -> (r: usize) {
        16
    }

    fn to_wire(v: &i128) -> (r: Vec<u8>) {
        u128_to_le_bytes(*v as u128)
    }

    fn from_wire(b: &Vec<u8>) -> (r: Option<i128>) {
        Some(u128_from_le_bytes(b.as_slice()) as i128)
    }
}

/// Relies on `char::from_u32`: it yields the character for any Unicode
/// scalar value, and rejects surrogate or out-of-range values.
pub assume_specification[ char::from_u32 ](v: u32) -> (r: Option<char>)
    ensures
        match r {
            Some(c) => vstd::utf8::is_scalar(v) && c == v as char,
            None => !vstd::utf8::is_scalar(v),
        },
;

impl Prim for char {
    open spec fn width() -> nat {
        4
    }

    open spec fn wire(v: char) -> Seq<u8> {
        spec_u32_to_le_bytes(v as u32)
    }

    open spec fn wire_ok(v: char) -> bool {
        true
    }

    open spec fn parse(b: Seq<u8>) -> Option<char> {
        if vstd::utf8::is_scalar(spec_u32_from_le_bytes(b)) {
            Some(spec_u32_from_le_bytes(b) as char)
        } else {
            None
        }
    }

    proof fn lemma_width_pos() {
    }

    proof fn lemma_wire_len(v: char) {
        vstd::bytes::lemma_auto_spec_u32_to_from_le_bytes();
        assert(spec_u32_to_le_bytes(v as u32).len() == 4);
    }

    proof fn lemma_parse_wire(v: char) {
        vstd::bytes::lemma_auto_spec_u32_to_from_le_bytes();
        assert(spec_u32_to_le_bytes(v as u32).len() == 4);
        vstd::utf8::char_is_scalar(v);
        vstd::utf8::char_u32_cast(v, v as u32);
    }

    fn width_exec() -> (r: usize) {
        4
    }

    fn to_wire(v: &char) -> (r: Vec<u8>) {
        u32_to_le_bytes(*v as u32)
    }

    fn from_wire(b: &Vec<u8>) -> (r: Option<char>) {
        char::from_u32(u32_from_le_bytes(b.as_slice()))
    }
}

impl<P: Prim> AsyncSerialization for PrimEncode<P> {
    type Dec = PrimDecode<P>;

    proof fn lemma_round_trip() {
        lemma_prim_round_trips::<P>();
    }
}

impl AsyncSerialization for EncodeUnit {
    type Dec = DecodeUnit;

    proof fn lemma_round_trip() {
    }
}

impl Format for Formatter {
    type EncodeUnit = EncodeUnit;

    type DecodeUnit = DecodeUnit;

    type EncodeVariantIdx = PrimEncode<VariantIdx>;

    type DecodeVariantIdx = PrimDecode<VariantIdx>;

    type EncodeSequenceLen = PrimEncode<SequenceLen>;

    type DecodeSequenceLen = PrimDecode<SequenceLen>;

    fn invalid_input_err() -> (e: Error) {
        crate::io::invalid_input()
    }

    fn invalid_data_err() -> (e: Error) {
        crate::io::invalid_data()
    }

    proof fn lemma_unit_round_trip() {
        assert forall|d: (), rest: Seq<u8>|
            <EncodeUnit as Encode>::encodable(d) implies #[trigger] <DecodeUnit as Decode>::decode_spec(<EncodeUnit as Encode>::encoding(d).add(rest)) == DecOutcome::<()>::Done(d, <EncodeUnit as Encode>::encoding(d).len() as int) by {
        }
    }

    proof fn lemma_variant_idx_round_trip() {
        lemma_prim_round_trips::<VariantIdx>();
    }

    proof fn lemma_variant_idx_model(v: VariantIdx) {
    }

    proof fn lemma_sequence_len_model(v: SequenceLen) {
    }

    proof fn lemma_sequence_len_round_trip() {
        lemma_prim_round_trips::<SequenceLen>();
    }
}


} // verus!
