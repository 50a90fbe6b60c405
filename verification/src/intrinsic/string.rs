//! The resumable codec for text: a byte-count header, then the text's
//! UTF-8 bytes.
//!
//! Decoding gathers the payload straight from the source's peeked bytes
//! into a growable buffer, and text that is not valid UTF-8 is a data
//! error, never a panic.

use vstd::prelude::*;
use vstd::string::StrSliceExecFns;
use vstd::utf8::{decode_utf8, encode_utf8, valid_utf8};

use crate::buffer::{BufferCursor, BufferState};
use crate::codec::{AsyncSerialization, DecOutcome, Decode, Encode, Format, PollDecodeStatus, PollEncodeStatus, StartDecodeStatus, StartEncodeStatus, round_trips};
use crate::internal::SequenceLen;
use crate::io::{AsyncBufRead, AsyncRead, AsyncWrite, Error};

verus! {

/// The wire image of a text value: its UTF-8 byte count, then the bytes.
pub open spec fn str_enc<F: Format>(chars: Seq<char>) -> Seq<u8> {
    <F::EncodeSequenceLen as Encode>::encoding(SequenceLen(encode_utf8(chars).len() as usize)) + encode_utf8(chars)
}

/// Relies on `String::from_utf8`: it yields the text carried by the given
/// bytes exactly when they are valid UTF-8, and rejects them otherwise.
#[verifier::external_type_specification]
#[verifier::external_body]
pub struct ExFromUtf8Error(std::string::FromUtf8Error);

pub assume_specification[ String::from_utf8 ](vec: Vec<u8>) -> (r: Result<String, std::string::FromUtf8Error>)
    ensures
        match r {
            Ok(s) => valid_utf8(vec@) && s@ == decode_utf8(vec@),
            Err(_) => !valid_utf8(vec@),
        },
;

/// The cursor of an in-flight text encode.
pub enum StringEncodeCursor<F: Format> {
    /// No poll has happened yet.
    Init,
    /// The byte-count header is still being emitted.
    Len(SequenceLen, F::EncodeSequenceLen),
    /// The UTF-8 payload is being emitted.
    Payload(BufferState),
    /// The encode completed.
    Fini,
    /// The encode failed, or was polled after completion.
    Failed,
}

/// The resumable encoder for a text value.
pub struct StringEncode<F: Format> {
    cursor: StringEncodeCursor<F>,
}

impl<F: Format> Encode for StringEncode<F> {
    type Data = String;

    open spec fn encoding(data: String) -> Seq<u8> {
        str_enc::<F>(data@)
    }

    open spec fn encodable(data: String) -> bool {
        &&& encode_utf8(data@).len() <= usize::MAX
        &&& <F::EncodeSequenceLen as Encode>::encodable(SequenceLen(encode_utf8(data@).len() as usize))
    }

    closed spec fn progress(&self, data: String) -> int {
        let hdr_len = <F::EncodeSequenceLen as Encode>::encoding(SequenceLen(encode_utf8(data@).len() as usize)).len() as int;
        match &self.cursor {
            StringEncodeCursor::Init => 0,
            StringEncodeCursor::Len(l, sub) => sub.progress(*l),
            StringEncodeCursor::Payload(buf) => hdr_len + buf.spec_cur().spec_offset() as int,
            StringEncodeCursor::Fini => Self::encoding(data).len() as int,
            StringEncodeCursor::Failed => 0,
        }
    }

    closed spec fn wf(&self, data: String) -> bool {
        match &self.cursor {
            StringEncodeCursor::Init => true,
            StringEncodeCursor::Len(l, sub) => {
                &&& l.0 == encode_utf8(data@).len()
                &&& sub.wf(*l) && !sub.done() && !sub.failed()
            },
            StringEncodeCursor::Payload(buf) => {
                &&& buf.bytes() == encode_utf8(data@)
                &&& buf.spec_cur().spec_len() == buf.bytes().len()
                &&& buf.spec_cur().spec_offset() < buf.spec_cur().spec_len()
                &&& buf.bytes().len() > 0
            },
            StringEncodeCursor::Fini => true,
            StringEncodeCursor::Failed => true,
        }
    }

    closed spec fn done(&self) -> bool {
        self.cursor is Fini
    }

    closed spec fn failed(&self) -> bool {
        self.cursor is Failed
    }

    proof fn lemma_progress_bounds(&self, data: String) {
        match &self.cursor {
            StringEncodeCursor::Len(l, sub) => {
                sub.lemma_progress_bounds(*l);
            },
            _ => {},
        }
    }

    fn init(data: &String) -> (e: Self) {
        StringEncode { cursor: StringEncodeCursor::Init }
    }

    #[verifier::rlimit(100)]
    #[verifier::spinoff_prover]
    fn poll_encode<W: AsyncWrite>(&mut self, writer: &mut W, data: &String) -> (r: PollEncodeStatus<Error>) {
        let ghost enc = Self::encoding(*data);
        let ghost payload = encode_utf8(data@);
        let ghost hdr = <F::EncodeSequenceLen as Encode>::encoding(SequenceLen(payload.len() as usize));
        let mut tmp = StringEncode { cursor: StringEncodeCursor::Failed };
        core::mem::swap(self, &mut tmp);
        let StringEncode { cursor: st } = tmp;
        match st {
            StringEncodeCursor::Init => {
                let bytes = data.as_str().as_bytes_vec();
                let l = SequenceLen::new(bytes.len());
                match <F::EncodeSequenceLen as Encode>::start_encode(writer, &l) {
                    StartEncodeStatus::Fini => {
                        let r = self.emit_payload(writer, bytes, Ghost(*data));
                        proof {
                            match r {
                                PollEncodeStatus::Fini => {
                                    assert(old(writer).written() + hdr + payload =~= old(writer).written() + enc);
                                    assert(enc.subrange(0, enc.len() as int) =~= enc);
                                },
                                PollEncodeStatus::Pending => {
                                    let q = self.cursor->Payload_0.spec_cur().spec_offset() as int;
                                    assert(old(writer).written() + hdr + payload.subrange(0, q) =~= old(writer).written() + enc.subrange(0, hdr.len() + q)) by {
                                        assert(payload.subrange(0, q) =~= enc.subrange(hdr.len() as int, hdr.len() + q)) by {
                                            assert(payload =~= enc.subrange(hdr.len() as int, enc.len() as int));
                                        }
                                        assert(hdr =~= enc.take(hdr.len() as int));
                                        assert(enc.take(hdr.len() as int) + enc.subrange(hdr.len() as int, hdr.len() + q) =~= enc.subrange(0, hdr.len() + q));
                                    }
                                },
                                PollEncodeStatus::Error(e) => {
                                    let q = choose|q: int|
                                        #![trigger payload.take(q)]
                                        {
                                            &&& 0 <= q <= payload.len()
                                            &&& writer.written() == old(writer).written() + hdr + payload.take(q)
                                        };
                                    assert(old(writer).written() + hdr + payload.take(q) =~= old(writer).written() + enc.subrange(0, hdr.len() + q)) by {
                                        assert(payload.take(q) =~= enc.subrange(hdr.len() as int, hdr.len() + q)) by {
                                            assert(payload =~= enc.subrange(hdr.len() as int, enc.len() as int));
                                        }
                                        assert(hdr =~= enc.take(hdr.len() as int));
                                        assert(enc.take(hdr.len() as int) + enc.subrange(hdr.len() as int, hdr.len() + q) =~= enc.subrange(0, hdr.len() + q));
                                    }
                                    assert(old(self).progress(*data) == 0);
                                    assert(exists|p2: int|
                                #![trigger Self::encoding(*data).subrange(old(self).progress(*data), p2)]
                                {
                                    &&& old(self).progress(*data) <= p2 <= Self::encoding(*data).len()
                                    &&& writer.written() == old(writer).written() + Self::encoding(*data).subrange(old(self).progress(*data), p2)
                                });
                                },
                            }
                        }
                        r
                    },
                    StartEncodeStatus::Pending(sub) => {
                        proof {
                            assert(hdr.take(sub.progress(l)) =~= enc.subrange(0, sub.progress(l))) by {
                                assert(hdr =~= enc.take(hdr.len() as int));
                            }
                        }
                        self.cursor = StringEncodeCursor::Len(l, sub);
                        PollEncodeStatus::Pending
                    },
                    StartEncodeStatus::Error(e) => {
                        proof {
                            let p = choose|p: int|
                                #![trigger hdr.take(p)]
                                {
                                    &&& 0 <= p <= hdr.len()
                                    &&& writer.written() == old(writer).written() + hdr.take(p)
                                };
                            assert(hdr.take(p) =~= enc.subrange(0, p)) by {
                                assert(hdr =~= enc.take(hdr.len() as int));
                            }
                            assert(old(self).progress(*data) == 0);
                            assert(exists|p2: int|
                                #![trigger Self::encoding(*data).subrange(old(self).progress(*data), p2)]
                                {
                                    &&& old(self).progress(*data) <= p2 <= Self::encoding(*data).len()
                                    &&& writer.written() == old(writer).written() + Self::encoding(*data).subrange(old(self).progress(*data), p2)
                                });
                        }
                        PollEncodeStatus::Error(e)
                    },
                }
            },
            StringEncodeCursor::Len(l, mut sub) => {
                let ghost p0 = sub.progress(l);
                proof {
                    sub.lemma_progress_bounds(l);
                }
                match sub.poll_encode(writer, &l) {
                    PollEncodeStatus::Fini => {
                        proof {
                            assert(hdr.subrange(p0, hdr.len() as int) =~= enc.subrange(p0, hdr.len() as int)) by {
                                assert(hdr =~= enc.take(hdr.len() as int));
                            }
                        }
                        let bytes = data.as_str().as_bytes_vec();
                        let r = self.emit_payload(writer, bytes, Ghost(*data));
                        proof {
                            match r {
                                PollEncodeStatus::Fini => {
                                    assert(old(writer).written() + enc.subrange(p0, hdr.len() as int) + payload =~= old(writer).written() + enc.subrange(p0, enc.len() as int)) by {
                                        assert(payload =~= enc.subrange(hdr.len() as int, enc.len() as int));
                                        assert(enc.subrange(p0, hdr.len() as int) + enc.subrange(hdr.len() as int, enc.len() as int) =~= enc.subrange(p0, enc.len() as int));
                                    }
                                },
                                PollEncodeStatus::Pending => {
                                    let q = self.cursor->Payload_0.spec_cur().spec_offset() as int;
                                    assert(old(writer).written() + enc.subrange(p0, hdr.len() as int) + payload.subrange(0, q) =~= old(writer).written() + enc.subrange(p0, hdr.len() + q)) by {
                                        assert(payload.subrange(0, q) =~= enc.subrange(hdr.len() as int, hdr.len() + q)) by {
                                            assert(payload =~= enc.subrange(hdr.len() as int, enc.len() as int));
                                        }
                                        assert(enc.subrange(p0, hdr.len() as int) + enc.subrange(hdr.len() as int, hdr.len() + q) =~= enc.subrange(p0, hdr.len() + q));
                                    }
                                },
                                PollEncodeStatus::Error(e) => {
                                    let q = choose|q: int|
                                        #![trigger payload.take(q)]
                                        {
                                            &&& 0 <= q <= payload.len()
                                            &&& writer.written() == old(writer).written() + enc.subrange(p0, hdr.len() as int) + payload.take(q)
                                        };
                                    assert(old(writer).written() + enc.subrange(p0, hdr.len() as int) + payload.take(q) =~= old(writer).written() + enc.subrange(p0, hdr.len() + q)) by {
                                        assert(payload.take(q) =~= enc.subrange(hdr.len() as int, hdr.len() + q)) by {
                                            assert(payload =~= enc.subrange(hdr.len() as int, enc.len() as int));
                                        }
                                        assert(enc.subrange(p0, hdr.len() as int) + enc.subrange(hdr.len() as int, hdr.len() + q) =~= enc.subrange(p0, hdr.len() + q));
                                    }
                                    assert(old(self).progress(*data) == p0);
                                    assert(exists|p2: int|
                                #![trigger Self::encoding(*data).subrange(old(self).progress(*data), p2)]
                                {
                                    &&& old(self).progress(*data) <= p2 <= Self::encoding(*data).len()
                                    &&& writer.written() == old(writer).written() + Self::encoding(*data).subrange(old(self).progress(*data), p2)
                                });
                                },
                            }
                        }
                        r
                    },
                    PollEncodeStatus::Pending => {
                        proof {
                            assert(hdr.subrange(p0, sub.progress(l)) =~= enc.subrange(p0, sub.progress(l))) by {
                                assert(hdr =~= enc.take(hdr.len() as int));
                            }
                        }
                        self.cursor = StringEncodeCursor::Len(l, sub);
                        PollEncodeStatus::Pending
                    },
                    PollEncodeStatus::Error(e) => {
                        proof {
                            let p = choose|p: int|
                                #![trigger hdr.subrange(p0, p)]
                                {
                                    &&& p0 <= p <= hdr.len()
                                    &&& writer.written() == old(writer).written() + hdr.subrange(p0, p)
                                };
                            assert(hdr.subrange(p0, p) =~= enc.subrange(p0, p)) by {
                                assert(hdr =~= enc.take(hdr.len() as int));
                            }
                            assert(old(self).progress(*data) == p0);
                            assert(exists|p2: int|
                                #![trigger Self::encoding(*data).subrange(old(self).progress(*data), p2)]
                                {
                                    &&& old(self).progress(*data) <= p2 <= Self::encoding(*data).len()
                                    &&& writer.written() == old(writer).written() + Self::encoding(*data).subrange(old(self).progress(*data), p2)
                                });
                        }
                        PollEncodeStatus::Error(e)
                    },
                }
            },
            StringEncodeCursor::Payload(mut buf) => {
                let ghost p0 = buf.spec_cur().spec_offset() as int;
                match buf.write_remaining(writer) {
                    PollEncodeStatus::Fini => {
                        self.cursor = StringEncodeCursor::Fini;
                        proof {
                            assert(payload.subrange(p0, payload.len() as int) =~= enc.subrange(hdr.len() + p0, enc.len() as int)) by {
                                assert(payload =~= enc.subrange(hdr.len() as int, enc.len() as int));
                            }
                        }
                        PollEncodeStatus::Fini
                    },
                    PollEncodeStatus::Pending => {
                        proof {
                            let q = buf.spec_cur().spec_offset() as int;
                            assert(payload.subrange(p0, q) =~= enc.subrange(hdr.len() + p0, hdr.len() + q)) by {
                                assert(payload =~= enc.subrange(hdr.len() as int, enc.len() as int));
                            }
                        }
                        self.cursor = StringEncodeCursor::Payload(buf);
                        PollEncodeStatus::Pending
                    },
                    PollEncodeStatus::Error(e) => {
                        proof {
                            let q = choose|q: int|
                                #![trigger payload.subrange(p0, q)]
                                {
                                    &&& p0 <= q <= payload.len()
                                    &&& writer.written() == old(writer).written() + payload.subrange(p0, q)
                                };
                            assert(payload.subrange(p0, q) =~= enc.subrange(hdr.len() + p0, hdr.len() + q)) by {
                                assert(payload =~= enc.subrange(hdr.len() as int, enc.len() as int));
                            }
                            assert(old(self).progress(*data) == hdr.len() as int + p0);
                            assert(exists|p2: int|
                                #![trigger Self::encoding(*data).subrange(old(self).progress(*data), p2)]
                                {
                                    &&& old(self).progress(*data) <= p2 <= Self::encoding(*data).len()
                                    &&& writer.written() == old(writer).written() + Self::encoding(*data).subrange(old(self).progress(*data), p2)
                                });
                        }
                        PollEncodeStatus::Error(e)
                    },
                }
            },
            StringEncodeCursor::Fini => {
                PollEncodeStatus::Error(crate::io::invalid_input())
            },
            StringEncodeCursor::Failed => {
                PollEncodeStatus::Error(crate::io::invalid_input())
            },
        }
    }
}

impl<F: Format> StringEncode<F> {
    /// Emit the UTF-8 payload, the byte-count header having been fully
    /// emitted; an empty payload finishes immediately.
    fn emit_payload<W: AsyncWrite>(&mut self, writer: &mut W, bytes: Vec<u8>, Ghost(data): Ghost<String>) -> (r: PollEncodeStatus<Error>)
        requires
            bytes@ == encode_utf8(data@),
            old(self).cursor is Failed,
        ensures
            match r {
                PollEncodeStatus::Fini => {
                    &&& final(self).cursor is Fini
                    &&& final(writer).written() == old(writer).written() + encode_utf8(data@)
                },
                PollEncodeStatus::Pending => {
                    &&& final(self).cursor matches StringEncodeCursor::Payload(buf) && ({
                        &&& buf.bytes() == encode_utf8(data@)
                        &&& buf.spec_cur().spec_len() == buf.bytes().len()
                        &&& buf.spec_cur().spec_offset() < buf.spec_cur().spec_len()
                        &&& buf.bytes().len() > 0
                        &&& final(writer).written() == old(writer).written() + encode_utf8(data@).subrange(0, buf.spec_cur().spec_offset() as int)
                    })
                },
                PollEncodeStatus::Error(_) => {
                    &&& final(self).cursor is Failed
                    &&& exists|q: int|
                        #![trigger encode_utf8(data@).take(q)]
                        {
                            &&& 0 <= q <= encode_utf8(data@).len()
                            &&& final(writer).written() == old(writer).written() + encode_utf8(data@).take(q)
                        }
                },
            },
    {
        let mut buf = BufferState::with_contents(bytes);
        if !buf.is_pending() {
            self.cursor = StringEncodeCursor::Fini;
            proof {
                assert(encode_utf8(data@) =~= Seq::<u8>::empty());
                assert(old(writer).written() + Seq::<u8>::empty() =~= old(writer).written());
            }
            PollEncodeStatus::Fini
        } else {
            match buf.write_remaining(writer) {
                PollEncodeStatus::Fini => {
                    self.cursor = StringEncodeCursor::Fini;
                    proof {
                        assert(encode_utf8(data@).subrange(0, encode_utf8(data@).len() as int) =~= encode_utf8(data@));
                    }
                    PollEncodeStatus::Fini
                },
                PollEncodeStatus::Pending => {
                    self.cursor = StringEncodeCursor::Payload(buf);
                    PollEncodeStatus::Pending
                },
                PollEncodeStatus::Error(e) => {
                    proof {
                        let pl = encode_utf8(data@);
                        let q = choose|q: int|
                            #![trigger pl.subrange(0, q)]
                            {
                                &&& 0 <= q <= pl.len()
                                &&& writer.written() == old(writer).written() + pl.subrange(0, q)
                            };
                        assert(pl.subrange(0, q) =~= pl.take(q));
                    }
                    PollEncodeStatus::Error(e)
                },
            }
        }
    }
}

/// The cursor of an in-flight text decode.
pub enum StringDecodeCursor<F: Format> {
    /// No poll has happened yet.
    Init,
    /// The byte-count header is still being gathered.
    Len(F::DecodeSequenceLen),
    /// The UTF-8 payload is being gathered into a growable buffer.
    Payload(BufferCursor, Vec<u8>),
    /// The decode completed.
    Fini,
    /// The decode failed, or was polled after completion.
    Failed,
}

/// The resumable decoder for a text value: the current slot of the chain
/// plus the bytes committed by the completed header.
pub struct StringDecode<F: Format> {
    cursor: StringDecodeCursor<F>,
    hdr_taken: Ghost<Seq<u8>>,
}

impl<F: Format> Decode for StringDecode<F> {
    type Data = String;

    type Model = Seq<char>;

    open spec fn model(d: String) -> Seq<char> {
        d@
    }

    open spec fn decode_spec(bytes: Seq<u8>) -> DecOutcome<Seq<char>> {
        match <F::DecodeSequenceLen as Decode>::decode_spec(bytes) {
            DecOutcome::Done(l, n) => if bytes.skip(n).len() < l.0 {
                DecOutcome::NeedMore
            } else {
                if valid_utf8(bytes.skip(n).take(l.0 as int)) {
                    DecOutcome::Done(decode_utf8(bytes.skip(n).take(l.0 as int)), n + l.0)
                } else {
                    DecOutcome::Bad
                }
            },
            DecOutcome::NeedMore => DecOutcome::NeedMore,
            DecOutcome::Bad => DecOutcome::Bad,
        }
    }

    closed spec fn taken(&self) -> Seq<u8> {
        match &self.cursor {
            StringDecodeCursor::Init => Seq::empty(),
            StringDecodeCursor::Len(sub) => sub.taken(),
            StringDecodeCursor::Payload(cur, gathered) => self.hdr_taken@ + gathered@,
            StringDecodeCursor::Fini => self.hdr_taken@,
            StringDecodeCursor::Failed => self.hdr_taken@,
        }
    }

    closed spec fn wf(&self) -> bool {
        match &self.cursor {
            StringDecodeCursor::Init => true,
            StringDecodeCursor::Len(sub) => sub.wf() && !sub.done() && !sub.failed(),
            StringDecodeCursor::Payload(cur, gathered) => {
                &&& <F::DecodeSequenceLen as Decode>::decode_spec(self.hdr_taken@) == DecOutcome::Done(SequenceLen(cur.spec_len() as usize), self.hdr_taken@.len() as int)
                &&& cur.spec_len() <= usize::MAX
                &&& gathered@.len() == cur.spec_offset()
                &&& cur.spec_offset() < cur.spec_len()
            },
            StringDecodeCursor::Fini => true,
            StringDecodeCursor::Failed => true,
        }
    }

    closed spec fn done(&self) -> bool {
        self.cursor is Fini
    }

    closed spec fn failed(&self) -> bool {
        self.cursor is Failed
    }

    proof fn lemma_lawful(b: Seq<u8>, ext: Seq<u8>) {
        <F::DecodeSequenceLen as Decode>::lemma_lawful(b, ext);
        match <F::DecodeSequenceLen as Decode>::decode_spec(b) {
            DecOutcome::Done(l, n) => {
                if b.skip(n).len() >= l.0 {
                    assert(b.add(ext).skip(n) =~= b.skip(n).add(ext));
                    assert(b.add(ext).skip(n).take(l.0 as int) =~= b.skip(n).take(l.0 as int));
                }
            },
            DecOutcome::NeedMore => {},
            DecOutcome::Bad => {},
        }
    }

    fn init() -> (d: Self) {
        StringDecode { cursor: StringDecodeCursor::Init, hdr_taken: Ghost(Seq::empty()) }
    }

    #[verifier::rlimit(100)]
    #[verifier::spinoff_prover]
    fn poll_decode<R: AsyncRead + AsyncBufRead>(&mut self, reader: &mut R) -> (r: PollDecodeStatus<String, Error>) {
        let ghost all = old(reader).remaining();
        let mut tmp = StringDecode { cursor: StringDecodeCursor::Failed, hdr_taken: Ghost(Seq::empty()) };
        core::mem::swap(self, &mut tmp);
        let StringDecode { cursor: st, hdr_taken: Ghost(hdr_b) } = tmp;
        match st {
            StringDecodeCursor::Init => {
                match <F::DecodeSequenceLen as Decode>::start_decode(reader) {
                    StartDecodeStatus::Fini(l) => {
                        proof {
                            F::lemma_sequence_len_model(l);
                        }
                        let ghost n1 = choose|n1: int|
                            #![trigger all.take(n1)]
                            {
                                &&& 0 <= n1 <= all.len()
                                &&& reader.remaining() == all.skip(n1)
                                &&& <F::DecodeSequenceLen as Decode>::decode_spec(all.take(n1)) == DecOutcome::Done(l, n1)
                            };
                        let ghost mid = reader.remaining();
                        let r = self.gather_payload(l.value(), reader, Ghost(all.take(n1)));
                        proof {
                            match &r {
                                PollDecodeStatus::Fini(d) => {
                                    let n2 = choose|n2: int|
                                        #![trigger mid.take(n2)]
                                        {
                                            &&& 0 <= n2 <= mid.len()
                                            &&& reader.remaining() == mid.skip(n2)
                                            &&& Self::decode_spec(all.take(n1).add(mid.take(n2))) == DecOutcome::Done(d@, n1 + n2)
                                        };
                                    assert(mid.take(n2) =~= all.subrange(n1, n1 + n2));
                                    assert(mid.skip(n2) =~= all.skip(n1 + n2));
                                    assert(all.take(n1).add(all.subrange(n1, n1 + n2)) =~= all.take(n1 + n2));
                                },
                                PollDecodeStatus::Pending => {
                                    let n2 = choose|n2: int|
                                        #![trigger mid.take(n2)]
                                        {
                                            &&& 0 <= n2 <= mid.len()
                                            &&& reader.remaining() == mid.skip(n2)
                                            &&& self.taken() == all.take(n1).add(mid.take(n2))
                                        };
                                    assert(mid.take(n2) =~= all.subrange(n1, n1 + n2));
                                    assert(mid.skip(n2) =~= all.skip(n1 + n2));
                                    assert(all.take(n1).add(all.subrange(n1, n1 + n2)) =~= all.take(n1 + n2));
                                },
                                PollDecodeStatus::Error(e) => {
                                    let n2 = choose|n2: int|
                                        #![trigger mid.skip(n2)]
                                        {
                                            &&& 0 <= n2 <= mid.len()
                                            &&& reader.remaining() == mid.skip(n2)
                                            &&& (Self::decode_spec(all.take(n1).add(mid.take(n2))) is Bad ==> e == Error::InvalidData)
                                            &&& !(Self::decode_spec(all.take(n1).add(mid.take(n2))) is Done)
                                        };
                                    assert(mid.take(n2) =~= all.subrange(n1, n1 + n2));
                                    assert(mid.skip(n2) =~= all.skip(n1 + n2));
                                    assert(all.take(n1).add(all.subrange(n1, n1 + n2)) =~= all.take(n1 + n2));
                                },
                            }
                        }
                        r
                    },
                    StartDecodeStatus::Pending(sub) => {
                        self.cursor = StringDecodeCursor::Len(sub);
                        PollDecodeStatus::Pending
                    },
                    StartDecodeStatus::Error(e) => {
                        proof {
                            let n = choose|n: int|
                                #![trigger all.skip(n)]
                                {
                                    &&& 0 <= n <= all.len()
                                    &&& reader.remaining() == all.skip(n)
                                    &&& (<F::DecodeSequenceLen as Decode>::decode_spec(all.take(n)) is Bad ==> e == Error::InvalidData)
                                    &&& !(<F::DecodeSequenceLen as Decode>::decode_spec(all.take(n)) is Done)
                                };
                            assert(Seq::<u8>::empty().add(all.take(n)) =~= all.take(n));
                            assert(Self::decode_spec(all.take(n)) is Bad ==> e == Error::InvalidData);
                            assert(!(Self::decode_spec(all.take(n)) is Done));
                        }
                        PollDecodeStatus::Error(e)
                    },
                }
            },
            StringDecodeCursor::Len(mut sub) => {
                let ghost t0 = sub.taken();
                match sub.poll_decode(reader) {
                    PollDecodeStatus::Fini(l) => {
                        proof {
                            F::lemma_sequence_len_model(l);
                        }
                        let ghost n1 = choose|n1: int|
                            #![trigger all.take(n1)]
                            {
                                &&& 0 <= n1 <= all.len()
                                &&& reader.remaining() == all.skip(n1)
                                &&& <F::DecodeSequenceLen as Decode>::decode_spec(t0.add(all.take(n1))) == DecOutcome::Done(l, t0.len() + n1)
                            };
                        let ghost committed = t0.add(all.take(n1));
                        let ghost mid = reader.remaining();
                        let r = self.gather_payload(l.value(), reader, Ghost(committed));
                        proof {
                            match &r {
                                PollDecodeStatus::Fini(d) => {
                                    let n2 = choose|n2: int|
                                        #![trigger mid.take(n2)]
                                        {
                                            &&& 0 <= n2 <= mid.len()
                                            &&& reader.remaining() == mid.skip(n2)
                                            &&& Self::decode_spec(committed.add(mid.take(n2))) == DecOutcome::Done(d@, committed.len() + n2)
                                        };
                                    assert(mid.take(n2) =~= all.subrange(n1, n1 + n2));
                                    assert(mid.skip(n2) =~= all.skip(n1 + n2));
                                    assert(committed.add(all.subrange(n1, n1 + n2)) =~= t0.add(all.take(n1 + n2)));
                                },
                                PollDecodeStatus::Pending => {
                                    let n2 = choose|n2: int|
                                        #![trigger mid.take(n2)]
                                        {
                                            &&& 0 <= n2 <= mid.len()
                                            &&& reader.remaining() == mid.skip(n2)
                                            &&& self.taken() == committed.add(mid.take(n2))
                                        };
                                    assert(mid.take(n2) =~= all.subrange(n1, n1 + n2));
                                    assert(mid.skip(n2) =~= all.skip(n1 + n2));
                                    assert(committed.add(all.subrange(n1, n1 + n2)) =~= t0.add(all.take(n1 + n2)));
                                },
                                PollDecodeStatus::Error(e) => {
                                    let n2 = choose|n2: int|
                                        #![trigger mid.skip(n2)]
                                        {
                                            &&& 0 <= n2 <= mid.len()
                                            &&& reader.remaining() == mid.skip(n2)
                                            &&& (Self::decode_spec(committed.add(mid.take(n2))) is Bad ==> e == Error::InvalidData)
                                            &&& !(Self::decode_spec(committed.add(mid.take(n2))) is Done)
                                        };
                                    assert(mid.take(n2) =~= all.subrange(n1, n1 + n2));
                                    assert(mid.skip(n2) =~= all.skip(n1 + n2));
                                    assert(committed.add(all.subrange(n1, n1 + n2)) =~= t0.add(all.take(n1 + n2)));
                                },
                            }
                        }
                        r
                    },
                    PollDecodeStatus::Pending => {
                        self.cursor = StringDecodeCursor::Len(sub);
                        PollDecodeStatus::Pending
                    },
                    PollDecodeStatus::Error(e) => {
                        proof {
                            let n = choose|n: int|
                                #![trigger all.skip(n)]
                                {
                                    &&& 0 <= n <= all.len()
                                    &&& reader.remaining() == all.skip(n)
                                    &&& (<F::DecodeSequenceLen as Decode>::decode_spec(t0.add(all.take(n))) is Bad ==> e == Error::InvalidData)
                                    &&& !(<F::DecodeSequenceLen as Decode>::decode_spec(t0.add(all.take(n))) is Done)
                                };
                            assert(Self::decode_spec(t0.add(all.take(n))) is Bad ==> e == Error::InvalidData);
                            assert(!(Self::decode_spec(t0.add(all.take(n))) is Done));
                        }
                        PollDecodeStatus::Error(e)
                    },
                }
            },
            StringDecodeCursor::Payload(mut cur, mut gathered) => {
                let ghost g0 = gathered@;
                let ghost target = cur.spec_len();
                match cur.fill_vec(reader, &mut gathered) {
                    PollDecodeStatus::Fini(_) => {
                        let r = self.finish_payload(gathered, Ghost(hdr_b), Ghost(target as usize));
                        proof {
                            let k = target - g0.len();
                            assert(hdr_b.add(g0).add(all.take(k as int)) =~= hdr_b.add(g0.add(all.take(k as int))));
                        }
                        r
                    },
                    PollDecodeStatus::Pending => {
                        proof {
                            let k = cur.spec_offset() - g0.len();
                            assert(hdr_b.add(g0).add(all.take(k as int)) =~= hdr_b.add(g0.add(all.take(k as int))));
                        }
                        self.cursor = StringDecodeCursor::Payload(cur, gathered);
                        self.hdr_taken = Ghost(hdr_b);
                        PollDecodeStatus::Pending
                    },
                    PollDecodeStatus::Error(e) => {
                        proof {
                            let k = choose|k: int|
                                #![trigger all.skip(k)]
                                {
                                    &&& 0 <= k < target - g0.len()
                                    &&& k <= all.len()
                                    &&& reader.remaining() == all.skip(k)
                                };
                            crate::codec::lemma_dec_lawful::<F::DecodeSequenceLen>();
                            let total = hdr_b.add(g0).add(all.take(k));
                            assert(total =~= hdr_b.add(g0.add(all.take(k))));
                            assert(<F::DecodeSequenceLen as Decode>::decode_spec(total) == DecOutcome::Done(SequenceLen(target as usize), hdr_b.len() as int));
                            assert(total.skip(hdr_b.len() as int) =~= g0.add(all.take(k)));
                            assert(g0.add(all.take(k)).len() < target);
                            assert(!(Self::decode_spec(total) is Bad));
                            assert(!(Self::decode_spec(total) is Done));
                        }
                        PollDecodeStatus::Error(e)
                    },
                }
            },
            StringDecodeCursor::Fini => {
                PollDecodeStatus::Error(crate::io::invalid_input())
            },
            StringDecodeCursor::Failed => {
                PollDecodeStatus::Error(crate::io::invalid_input())
            },
        }
    }
}

impl<F: Format> StringDecode<F> {
    /// Gather the UTF-8 payload of `target` bytes, the byte-count header
    /// having been fully parsed out of the `hdr_b` bytes.
    fn gather_payload<R: AsyncRead + AsyncBufRead>(&mut self, target: usize, reader: &mut R, Ghost(hdr_b): Ghost<Seq<u8>>) -> (r: PollDecodeStatus<String, Error>)
        requires
            old(self).cursor is Failed,
            <F::DecodeSequenceLen as Decode>::decode_spec(hdr_b) == DecOutcome::Done(SequenceLen(target), hdr_b.len() as int),
        ensures
            match r {
                PollDecodeStatus::Fini(d) => {
                    &&& final(self).cursor is Fini
                    &&& exists|n: int|
                        #![trigger old(reader).remaining().take(n)]
                        {
                            &&& 0 <= n <= old(reader).remaining().len()
                            &&& final(reader).remaining() == old(reader).remaining().skip(n)
                            &&& Self::decode_spec(hdr_b.add(old(reader).remaining().take(n))) == DecOutcome::Done(d@, hdr_b.len() as int + n)
                        }
                },
                PollDecodeStatus::Pending => {
                    &&& final(self).wf() && !final(self).done() && !final(self).failed()
                    &&& exists|n: int|
                        #![trigger old(reader).remaining().take(n)]
                        {
                            &&& 0 <= n <= old(reader).remaining().len()
                            &&& final(reader).remaining() == old(reader).remaining().skip(n)
                            &&& final(self).taken() == hdr_b.add(old(reader).remaining().take(n))
                        }
                },
                PollDecodeStatus::Error(e) => {
                    &&& final(self).failed()
                    &&& exists|n: int|
                        #![trigger old(reader).remaining().skip(n)]
                        {
                            &&& 0 <= n <= old(reader).remaining().len()
                            &&& final(reader).remaining() == old(reader).remaining().skip(n)
                            &&& (Self::decode_spec(hdr_b.add(old(reader).remaining().take(n))) is Bad ==> e == Error::InvalidData)
                            &&& !(Self::decode_spec(hdr_b.add(old(reader).remaining().take(n))) is Done)
                        }
                },
            },
    {
        let mut cur = BufferCursor::with_len(target);
        let mut gathered: Vec<u8> = Vec::new();
        if !cur.is_pending() {
            proof {
                assert(old(reader).remaining().take(0) =~= Seq::<u8>::empty());
                assert(old(reader).remaining().skip(0) =~= old(reader).remaining());
            }
            let r = self.finish_payload(gathered, Ghost(hdr_b), Ghost(target));
            proof {
                assert(hdr_b.add(Seq::<u8>::empty()) =~= hdr_b);
                assert(hdr_b.add(Seq::<u8>::empty().add(old(reader).remaining().take(0))) =~= hdr_b);
                assert(hdr_b.add(old(reader).remaining().take(0)) =~= hdr_b);
            }
            r
        } else {
            match cur.fill_vec(reader, &mut gathered) {
                PollDecodeStatus::Fini(_) => {
                    let r = self.finish_payload(gathered, Ghost(hdr_b), Ghost(target));
                    proof {
                        let k = target as int;
                        assert(Seq::<u8>::empty().add(old(reader).remaining().take(k)) =~= old(reader).remaining().take(k));
                    }
                    r
                },
                PollDecodeStatus::Pending => {
                    proof {
                        let k = cur.spec_offset() as int;
                        assert(Seq::<u8>::empty().add(old(reader).remaining().take(k)) =~= old(reader).remaining().take(k));
                    }
                    self.cursor = StringDecodeCursor::Payload(cur, gathered);
                    self.hdr_taken = Ghost(hdr_b);
                    PollDecodeStatus::Pending
                },
                PollDecodeStatus::Error(e) => {
                    proof {
                        let all = old(reader).remaining();
                        let k = choose|k: int|
                            #![trigger all.skip(k)]
                            {
                                &&& 0 <= k < target
                                &&& k <= all.len()
                                &&& reader.remaining() == all.skip(k)
                            };
                        crate::codec::lemma_dec_lawful::<F::DecodeSequenceLen>();
                        let total = hdr_b.add(all.take(k));
                        assert(<F::DecodeSequenceLen as Decode>::decode_spec(total) == DecOutcome::Done(SequenceLen(target), hdr_b.len() as int));
                        assert(total.skip(hdr_b.len() as int) =~= all.take(k));
                        assert(all.take(k).len() < target);
                        assert(!(Self::decode_spec(total) is Bad));
                        assert(!(Self::decode_spec(total) is Done));
                    }
                    PollDecodeStatus::Error(e)
                },
            }
        }
    }

    /// Convert the fully gathered payload, rejecting text that is not
    /// valid UTF-8 as a data error.
    fn finish_payload(&mut self, gathered: Vec<u8>, Ghost(hdr_b): Ghost<Seq<u8>>, Ghost(target): Ghost<usize>) -> (r: PollDecodeStatus<String, Error>)
        requires
            old(self).cursor is Failed,
            <F::DecodeSequenceLen as Decode>::decode_spec(hdr_b) == DecOutcome::Done(SequenceLen(target), hdr_b.len() as int),
            gathered@.len() == target,
        ensures
            match r {
                PollDecodeStatus::Fini(d) => {
                    &&& final(self).cursor is Fini
                    &&& Self::decode_spec(hdr_b.add(gathered@)) == DecOutcome::Done(d@, hdr_b.len() as int + gathered@.len() as int)
                },
                PollDecodeStatus::Pending => false,
                PollDecodeStatus::Error(e) => {
                    &&& final(self).failed()
                    &&& e == Error::InvalidData
                    &&& !valid_utf8(gathered@)
                    &&& Self::decode_spec(hdr_b.add(gathered@)) is Bad
                },
            },
    {
        let ghost payload = gathered@;
        proof {
            crate::codec::lemma_dec_lawful::<F::DecodeSequenceLen>();
            let whole = hdr_b.add(payload);
            assert(<F::DecodeSequenceLen as Decode>::decode_spec(whole) == DecOutcome::Done(SequenceLen(target), hdr_b.len() as int));
            assert(whole.skip(hdr_b.len() as int) =~= payload);
            assert(payload.take(target as int) =~= payload);
        }
        match String::from_utf8(gathered) {
            Ok(s) => {
                self.cursor = StringDecodeCursor::Fini;
                self.hdr_taken = Ghost(hdr_b.add(payload));
                PollDecodeStatus::Fini(s)
            },
            Err(_) => {
                PollDecodeStatus::Error(crate::io::invalid_data())
            },
        }
    }
}

/// The round-trip law for text, under any format: the wire image parses
/// back to exactly the text's characters, consuming exactly the wire
/// image.
pub proof fn lemma_string_round_trips<F: Format>()
    ensures
        round_trips::<StringEncode<F>, StringDecode<F>>(),
{
    F::lemma_sequence_len_round_trip();
    assert forall|d: String, rest: Seq<u8>|
        <StringEncode<F> as Encode>::encodable(d) implies #[trigger] <StringDecode<F> as Decode>::decode_spec(<StringEncode<F> as Encode>::encoding(d).add(rest)) == DecOutcome::<Seq<char>>::Done(d@, <StringEncode<F> as Encode>::encoding(d).len() as int) by {
        let chars = d@;
        let payload = encode_utf8(chars);
        let l = SequenceLen(payload.len() as usize);
        F::lemma_sequence_len_model(l);
        let hdr = <F::EncodeSequenceLen as Encode>::encoding(l);
        let whole = <StringEncode<F> as Encode>::encoding(d).add(rest);
        assert(whole =~= hdr.add(payload.add(rest)));
        assert(<F::DecodeSequenceLen as Decode>::decode_spec(hdr.add(payload.add(rest))) == DecOutcome::Done(l, hdr.len() as int));
        assert(whole.skip(hdr.len() as int) =~= payload.add(rest));
        assert(payload.add(rest).take(l.0 as int) =~= payload);
        vstd::utf8::encode_utf8_valid_utf8(chars);
        vstd::utf8::encode_utf8_decode_utf8(chars);
    }
}

impl<F: Format> AsyncSerialization for StringEncode<F> {
    type Dec = StringDecode<F>;

    proof fn lemma_round_trip() {
        lemma_string_round_trips::<F>();
    }
}

} // verus!
