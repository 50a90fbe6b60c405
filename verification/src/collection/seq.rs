//! The resumable codec for growable ordered containers: a length header,
//! then the chain pattern over the elements from the current index onward.

use core::marker::PhantomData;

use vstd::prelude::*;

use crate::codec::{AsyncSerialization, DecOutcome, Decode, Encode, Format, PollDecodeStatus, PollEncodeStatus, StartDecodeStatus, StartEncodeStatus, round_trips};
use crate::collection::SeqApi;
use crate::internal::SequenceLen;
use crate::io::{AsyncBufRead, AsyncRead, AsyncWrite, Error};

verus! {

/// The concatenated wire images of a run of elements, first to last.
pub open spec fn seq_items_enc<E: Encode>(elems: Seq<<E as Encode>::Data>) -> Seq<u8>
    decreases elems.len(),
{
    if elems.len() == 0 {
        Seq::empty()
    } else {
        E::encoding(elems[0]) + seq_items_enc::<E>(elems.drop_first())
    }
}

/// Appending an element appends its wire image.
pub proof fn lemma_items_enc_push<E: Encode>(elems: Seq<<E as Encode>::Data>, x: <E as Encode>::Data)
    ensures
        seq_items_enc::<E>(elems.push(x)) == seq_items_enc::<E>(elems) + E::encoding(x),
    decreases elems.len(),
{
    if elems.len() == 0 {
        assert(elems.push(x)[0] == x);
        assert(elems.push(x).drop_first() =~= Seq::<<E as Encode>::Data>::empty());
        assert(seq_items_enc::<E>(elems.push(x).drop_first()) == Seq::<u8>::empty());
        assert(seq_items_enc::<E>(elems.push(x)) == E::encoding(x) + Seq::<u8>::empty());
        assert(seq_items_enc::<E>(elems) == Seq::<u8>::empty());
        assert(E::encoding(x) + Seq::<u8>::empty() =~= Seq::<u8>::empty() + E::encoding(x));
    } else {
        assert(elems.push(x)[0] == elems[0]);
        assert(elems.push(x).drop_first() =~= elems.drop_first().push(x));
        lemma_items_enc_push::<E>(elems.drop_first(), x);
        assert(seq_items_enc::<E>(elems.push(x)) == E::encoding(elems[0]) + seq_items_enc::<E>(elems.drop_first().push(x)));
        assert(seq_items_enc::<E>(elems.push(x)) == E::encoding(elems[0]) + (seq_items_enc::<E>(elems.drop_first()) + E::encoding(x)));
        assert(seq_items_enc::<E>(elems) == E::encoding(elems[0]) + seq_items_enc::<E>(elems.drop_first()));
        assert(E::encoding(elems[0]) + (seq_items_enc::<E>(elems.drop_first()) + E::encoding(x)) =~= (E::encoding(elems[0]) + seq_items_enc::<E>(elems.drop_first())) + E::encoding(x));
    }
}

/// A run of elements encodes as its first part followed by the rest.
pub proof fn lemma_items_enc_split<E: Encode>(elems: Seq<<E as Encode>::Data>, i: int)
    requires
        0 <= i <= elems.len(),
    ensures
        seq_items_enc::<E>(elems) == seq_items_enc::<E>(elems.take(i)) + seq_items_enc::<E>(elems.skip(i)),
    decreases i,
{
    if i == 0 {
        assert(elems.take(0) =~= Seq::<<E as Encode>::Data>::empty());
        assert(elems.skip(0) =~= elems);
        assert(Seq::<u8>::empty() + seq_items_enc::<E>(elems) =~= seq_items_enc::<E>(elems));
    } else {
        lemma_items_enc_split::<E>(elems, i - 1);
        assert(elems.take(i) =~= elems.take(i - 1).push(elems[i - 1]));
        lemma_items_enc_push::<E>(elems.take(i - 1), elems[i - 1]);
        assert(elems.skip(i - 1)[0] == elems[i - 1]);
        assert(elems.skip(i - 1).drop_first() =~= elems.skip(i));
        assert(seq_items_enc::<E>(elems.skip(i - 1)) == E::encoding(elems[i - 1]) + seq_items_enc::<E>(elems.skip(i)));
        assert(seq_items_enc::<E>(elems.take(i - 1)) + (E::encoding(elems[i - 1]) + seq_items_enc::<E>(elems.skip(i))) =~= (seq_items_enc::<E>(elems.take(i - 1)) + E::encoding(elems[i - 1])) + seq_items_enc::<E>(elems.skip(i)));
    }
}

/// The wire image of a whole container: its length header, then every
/// element's wire image in order.
pub open spec fn seq_enc<F: Format, E: Encode>(elems: Seq<<E as Encode>::Data>) -> Seq<u8> {
    <F::EncodeSequenceLen as Encode>::encoding(SequenceLen(elems.len() as usize)) + seq_items_enc::<E>(elems)
}

/// The cursor of an in-flight container encode.
pub enum SeqEncodeCursor<F: Format, E: Encode> {
    /// No poll has happened yet.
    Init,
    /// The length header is still being emitted.
    Len(SequenceLen, F::EncodeSequenceLen),
    /// The element at this index is being emitted.
    Cur(usize, E),
    /// The encode completed.
    Fini,
    /// The encode failed, or was polled after completion.
    Failed,
}

/// The resumable encoder for a growable ordered container.
pub struct SeqEncode<F: Format, E: Encode, C: SeqApi<<E as Encode>::Data>> {
    cursor: SeqEncodeCursor<F, E>,
    _marker: PhantomData<C>,
}

impl<F: Format, E: Encode, C: SeqApi<<E as Encode>::Data>> SeqEncode<F, E, C> {
    /// Emit the elements from `idx` onward, the length header and all
    /// earlier elements having been fully emitted.
    fn items_from<W: AsyncWrite>(writer: &mut W, data: &C, idx: usize) -> (r: StartEncodeStatus<Self, Error>)
        requires
            Self::encodable(*data),
            idx <= data.elems().len(),
        ensures
            match r {
                StartEncodeStatus::Fini => final(writer).written() == old(writer).written() + Self::encoding(*data).subrange(<F::EncodeSequenceLen as Encode>::encoding(SequenceLen(data.elems().len() as usize)).len() as int + seq_items_enc::<E>(data.elems().take(idx as int)).len() as int, Self::encoding(*data).len() as int),
                StartEncodeStatus::Pending(s) => {
                    &&& s.wf(*data) && !s.done() && !s.failed()
                    &&& <F::EncodeSequenceLen as Encode>::encoding(SequenceLen(data.elems().len() as usize)).len() as int + seq_items_enc::<E>(data.elems().take(idx as int)).len() as int <= s.progress(*data) <= Self::encoding(*data).len()
                    &&& final(writer).written() == old(writer).written() + Self::encoding(*data).subrange(<F::EncodeSequenceLen as Encode>::encoding(SequenceLen(data.elems().len() as usize)).len() as int + seq_items_enc::<E>(data.elems().take(idx as int)).len() as int, s.progress(*data))
                },
                StartEncodeStatus::Error(e) => exists|p: int|
                    #![trigger Self::encoding(*data).subrange(<F::EncodeSequenceLen as Encode>::encoding(SequenceLen(data.elems().len() as usize)).len() as int + seq_items_enc::<E>(data.elems().take(idx as int)).len() as int, p)]
                    {
                        &&& <F::EncodeSequenceLen as Encode>::encoding(SequenceLen(data.elems().len() as usize)).len() as int + seq_items_enc::<E>(data.elems().take(idx as int)).len() as int <= p <= Self::encoding(*data).len()
                        &&& final(writer).written() == old(writer).written() + Self::encoding(*data).subrange(<F::EncodeSequenceLen as Encode>::encoding(SequenceLen(data.elems().len() as usize)).len() as int + seq_items_enc::<E>(data.elems().take(idx as int)).len() as int, p)
                    },
            },
    {
        let ghost elems = data.elems();
        let ghost hdr = <F::EncodeSequenceLen as Encode>::encoding(SequenceLen(elems.len() as usize));
        let ghost enc = Self::encoding(*data);
        let ghost start_off: int = hdr.len() as int + seq_items_enc::<E>(elems.take(idx as int)).len() as int;
        let len = data.length();
        proof {
            lemma_items_enc_split::<E>(elems, idx as int);
            assert(enc.subrange(start_off, start_off) =~= Seq::<u8>::empty());
            assert(old(writer).written() + Seq::<u8>::empty() =~= old(writer).written());
        }
        let mut j: usize = idx;
        while j < len
            invariant
                Self::encodable(*data),
                idx <= j <= len,
                len == data.elems().len(),
                elems == data.elems(),
                hdr == <F::EncodeSequenceLen as Encode>::encoding(SequenceLen(elems.len() as usize)),
                enc == Self::encoding(*data),
                start_off == hdr.len() as int + seq_items_enc::<E>(elems.take(idx as int)).len() as int,
                start_off <= hdr.len() as int + seq_items_enc::<E>(elems.take(j as int)).len() as int <= enc.len() as int,
                writer.written() == old(writer).written() + enc.subrange(start_off, hdr.len() as int + seq_items_enc::<E>(elems.take(j as int)).len() as int),
            decreases len - j,
        {
            let ghost off_j: int = hdr.len() as int + seq_items_enc::<E>(elems.take(j as int)).len() as int;
            proof {
                lemma_items_enc_split::<E>(elems, j as int);
                lemma_items_enc_split::<E>(elems, j + 1);
                assert(elems.take(j + 1) =~= elems.take(j as int).push(elems[j as int]));
                lemma_items_enc_push::<E>(elems.take(j as int), elems[j as int]);
                assert(enc.subrange(off_j, off_j + E::encoding(elems[j as int]).len() as int) =~= E::encoding(elems[j as int])) by {
                    assert(enc =~= (hdr + seq_items_enc::<E>(elems.take(j as int))) + (E::encoding(elems[j as int]) + seq_items_enc::<E>(elems.skip(j + 1))));
                }
            }
            match E::start_encode(writer, data.borrow_at(j)) {
                StartEncodeStatus::Fini => {
                    proof {
                        assert(enc.subrange(start_off, off_j) + enc.subrange(off_j, off_j + E::encoding(elems[j as int]).len() as int) =~= enc.subrange(start_off, off_j + E::encoding(elems[j as int]).len() as int));
                    }
                    j = j + 1;
                },
                StartEncodeStatus::Pending(sub) => {
                    proof {
                        let p = sub.progress(elems[j as int]);
                        assert(enc.subrange(off_j, off_j + p) =~= E::encoding(elems[j as int]).take(p)) by {
                            assert(enc =~= (hdr + seq_items_enc::<E>(elems.take(j as int))) + (E::encoding(elems[j as int]) + seq_items_enc::<E>(elems.skip(j + 1))));
                        }
                        assert(enc.subrange(start_off, off_j) + enc.subrange(off_j, off_j + p) =~= enc.subrange(start_off, off_j + p));
                    }
                    return StartEncodeStatus::Pending(SeqEncode { cursor: SeqEncodeCursor::Cur(j, sub), _marker: PhantomData });
                },
                StartEncodeStatus::Error(e) => {
                    proof {
                        let elem = E::encoding(elems[j as int]);
                        let q = choose|q: int|
                            #![trigger elem.take(q)]
                            {
                                &&& 0 <= q <= elem.len()
                                &&& writer.written() == old(writer).written() + enc.subrange(start_off, off_j) + elem.take(q)
                            };
                        assert(elem.take(q) =~= enc.subrange(off_j, off_j + q)) by {
                            assert(enc =~= (hdr + seq_items_enc::<E>(elems.take(j as int))) + (E::encoding(elems[j as int]) + seq_items_enc::<E>(elems.skip(j + 1))));
                        }
                        assert(enc.subrange(start_off, off_j) + enc.subrange(off_j, off_j + q) =~= enc.subrange(start_off, off_j + q));
                    }
                    return StartEncodeStatus::Error(e);
                },
            }
        }
        proof {
            assert(elems.take(len as int) =~= elems);
        }
        StartEncodeStatus::Fini
    }

    /// Begin the whole encode: the length header, then the elements.
    fn after_init<W: AsyncWrite>(writer: &mut W, data: &C) -> (r: StartEncodeStatus<Self, Error>)
        requires
            Self::encodable(*data),
        ensures
            match r {
                StartEncodeStatus::Fini => final(writer).written() == old(writer).written() + Self::encoding(*data),
                StartEncodeStatus::Pending(s) => {
                    &&& s.wf(*data) && !s.done() && !s.failed()
                    &&& 0 <= s.progress(*data) <= Self::encoding(*data).len()
                    &&& final(writer).written() == old(writer).written() + Self::encoding(*data).take(s.progress(*data))
                },
                StartEncodeStatus::Error(e) => exists|p: int|
                    #![trigger Self::encoding(*data).take(p)]
                    {
                        &&& 0 <= p <= Self::encoding(*data).len()
                        &&& final(writer).written() == old(writer).written() + Self::encoding(*data).take(p)
                    },
            },
    {
        let ghost elems = data.elems();
        let ghost hdr = <F::EncodeSequenceLen as Encode>::encoding(SequenceLen(elems.len() as usize));
        let ghost enc = Self::encoding(*data);
        let count = data.length();
        let l = SequenceLen::new(count);
        match <F::EncodeSequenceLen as Encode>::start_encode(writer, &l) {
            StartEncodeStatus::Fini => {
                let r = Self::items_from(writer, data, 0);
                proof {
                    assert(seq_items_enc::<E>(elems.take(0)) =~= Seq::<u8>::empty()) by {
                        assert(elems.take(0) =~= Seq::<<E as Encode>::Data>::empty());
                    }
                    match &r {
                        StartEncodeStatus::Fini => {
                            assert(old(writer).written() + hdr + enc.subrange(hdr.len() as int, enc.len() as int) =~= old(writer).written() + enc) by {
                                assert(hdr =~= enc.take(hdr.len() as int));
                                assert(enc.take(hdr.len() as int) + enc.subrange(hdr.len() as int, enc.len() as int) =~= enc);
                            }
                        },
                        StartEncodeStatus::Pending(s) => {
                            assert(old(writer).written() + hdr + enc.subrange(hdr.len() as int, s.progress(*data)) =~= old(writer).written() + enc.take(s.progress(*data))) by {
                                assert(hdr =~= enc.take(hdr.len() as int));
                                assert(enc.take(hdr.len() as int) + enc.subrange(hdr.len() as int, s.progress(*data)) =~= enc.take(s.progress(*data)));
                            }
                        },
                        StartEncodeStatus::Error(e) => {
                            let p = choose|p: int|
                                #![trigger enc.subrange(hdr.len() as int + seq_items_enc::<E>(elems.take(0)).len() as int, p)]
                                {
                                    &&& hdr.len() as int + seq_items_enc::<E>(elems.take(0)).len() as int <= p <= enc.len()
                                    &&& writer.written() == old(writer).written() + hdr + enc.subrange(hdr.len() as int + seq_items_enc::<E>(elems.take(0)).len() as int, p)
                                };
                            assert(seq_items_enc::<E>(elems.take(0)).len() == 0) by {
                                assert(elems.take(0) =~= Seq::<<E as Encode>::Data>::empty());
                            }
                            assert(old(writer).written() + hdr + enc.subrange(hdr.len() as int, p) =~= old(writer).written() + enc.take(p)) by {
                                assert(hdr =~= enc.take(hdr.len() as int));
                                assert(enc.take(hdr.len() as int) + enc.subrange(hdr.len() as int, p) =~= enc.take(p));
                            }
                        },
                    }
                }
                r
            },
            StartEncodeStatus::Pending(sub) => {
                proof {
                    assert(hdr.take(sub.progress(l)) =~= enc.take(sub.progress(l))) by {
                        assert(hdr =~= enc.take(hdr.len() as int));
                    }
                }
                StartEncodeStatus::Pending(SeqEncode { cursor: SeqEncodeCursor::Len(l, sub), _marker: PhantomData })
            },
            StartEncodeStatus::Error(e) => {
                proof {
                    let p = choose|p: int|
                        #![trigger hdr.take(p)]
                        {
                            &&& 0 <= p <= hdr.len()
                            &&& writer.written() == old(writer).written() + hdr.take(p)
                        };
                    assert(hdr.take(p) =~= enc.take(p)) by {
                        assert(hdr =~= enc.take(hdr.len() as int));
                    }
                }
                StartEncodeStatus::Error(e)
            },
        }
    }
}

impl<F: Format, E: Encode, C: SeqApi<<E as Encode>::Data>> Encode for SeqEncode<F, E, C> {
    type Data = C;

    open spec fn encoding(data: C) -> Seq<u8> {
        seq_enc::<F, E>(data.elems())
    }

    open spec fn encodable(data: C) -> bool {
        &&& data.elems().len() <= usize::MAX
        &&& <F::EncodeSequenceLen as Encode>::encodable(SequenceLen(data.elems().len() as usize))
        &&& forall|i: int| 0 <= i < data.elems().len() ==> E::encodable(#[trigger] data.elems()[i])
    }

    closed spec fn progress(&self, data: C) -> int {
        let hdr_len = <F::EncodeSequenceLen as Encode>::encoding(SequenceLen(data.elems().len() as usize)).len() as int;
        match &self.cursor {
            SeqEncodeCursor::Init => 0,
            SeqEncodeCursor::Len(l, sub) => sub.progress(*l),
            SeqEncodeCursor::Cur(j, sub) => if *j < data.elems().len() {
                hdr_len + seq_items_enc::<E>(data.elems().take(*j as int)).len() as int + sub.progress(data.elems()[*j as int])
            } else {
                0
            },
            SeqEncodeCursor::Fini => Self::encoding(data).len() as int,
            SeqEncodeCursor::Failed => 0,
        }
    }

    closed spec fn wf(&self, data: C) -> bool {
        match &self.cursor {
            SeqEncodeCursor::Init => true,
            SeqEncodeCursor::Len(l, sub) => {
                &&& l.0 == data.elems().len()
                &&& sub.wf(*l) && !sub.done() && !sub.failed()
            },
            SeqEncodeCursor::Cur(j, sub) => {
                &&& *j < data.elems().len()
                &&& sub.wf(data.elems()[*j as int]) && !sub.done() && !sub.failed()
            },
            SeqEncodeCursor::Fini => true,
            SeqEncodeCursor::Failed => true,
        }
    }

    closed spec fn done(&self) -> bool {
        self.cursor is Fini
    }

    closed spec fn failed(&self) -> bool {
        self.cursor is Failed
    }

    proof fn lemma_progress_bounds(&self, data: C) {
        let elems = data.elems();
        let hdr = <F::EncodeSequenceLen as Encode>::encoding(SequenceLen(elems.len() as usize));
        match &self.cursor {
            SeqEncodeCursor::Len(l, sub) => {
                sub.lemma_progress_bounds(*l);
            },
            SeqEncodeCursor::Cur(j, sub) => {
                sub.lemma_progress_bounds(elems[*j as int]);
                lemma_items_enc_split::<E>(elems, *j as int);
                lemma_items_enc_split::<E>(elems, *j + 1);
                assert(elems.take(*j + 1) =~= elems.take(*j as int).push(elems[*j as int]));
                lemma_items_enc_push::<E>(elems.take(*j as int), elems[*j as int]);
            },
            _ => {},
        }
    }

    fn init(data: &C) -> (e: Self) {
        SeqEncode { cursor: SeqEncodeCursor::Init, _marker: PhantomData }
    }

    #[verifier::rlimit(100)]
    #[verifier::spinoff_prover]
    fn poll_encode<W: AsyncWrite>(&mut self, writer: &mut W, data: &C) -> (r: PollEncodeStatus<Error>) {
        let ghost elems = data.elems();
        let ghost hdr = <F::EncodeSequenceLen as Encode>::encoding(SequenceLen(elems.len() as usize));
        let ghost enc = Self::encoding(*data);
        let mut tmp = SeqEncode { cursor: SeqEncodeCursor::Failed, _marker: PhantomData };
        core::mem::swap(self, &mut tmp);
        let SeqEncode { cursor: st, _marker } = tmp;
        match st {
            SeqEncodeCursor::Init => {
                match Self::after_init(writer, data) {
                    StartEncodeStatus::Fini => {
                        self.cursor = SeqEncodeCursor::Fini;
                        proof {
                            assert(enc.subrange(0, enc.len() as int) =~= enc);
                        }
                        PollEncodeStatus::Fini
                    },
                    StartEncodeStatus::Pending(s) => {
                        proof {
                            assert(enc.take(s.progress(*data)) =~= enc.subrange(0, s.progress(*data)));
                        }
                        *self = s;
                        PollEncodeStatus::Pending
                    },
                    StartEncodeStatus::Error(e) => {
                        proof {
                            let p = choose|p: int|
                                #![trigger enc.take(p)]
                                {
                                    &&& 0 <= p <= enc.len()
                                    &&& writer.written() == old(writer).written() + enc.take(p)
                                };
                            assert(enc.take(p) =~= enc.subrange(0, p));
                            assert(old(self).progress(*data) == 0);
                            assert(exists|p2: int|
                                #![trigger Self::encoding(*data).subrange(old(self).progress(*data), p2)]
                                {
                                    &&& old(self).progress(*data) <= p2 <= Self::encoding(*data).len()
                                    &&& writer.written() == old(writer).written() + Self::encoding(*data).subrange(old(self).progress(*data), p2)
                                });
                        }
                        PollEncodeStatus::Error(e)
                    },
                }
            },
            SeqEncodeCursor::Len(l, mut sub) => {
                let ghost p0 = sub.progress(l);
                proof {
                    sub.lemma_progress_bounds(l);
                }
                match sub.poll_encode(writer, &l) {
                    PollEncodeStatus::Fini => {
                        proof {
                            assert(hdr.subrange(p0, hdr.len() as int) =~= enc.subrange(p0, hdr.len() as int)) by {
                                assert(hdr =~= enc.take(hdr.len() as int));
                            }
                        }
                        match Self::items_from(writer, data, 0) {
                            StartEncodeStatus::Fini => {
                                self.cursor = SeqEncodeCursor::Fini;
                                proof {
                                    assert(seq_items_enc::<E>(elems.take(0)) =~= Seq::<u8>::empty()) by {
                                        assert(elems.take(0) =~= Seq::<<E as Encode>::Data>::empty());
                                    }
                                    assert(old(writer).written() + enc.subrange(p0, hdr.len() as int) + enc.subrange(hdr.len() as int, enc.len() as int) =~= old(writer).written() + enc.subrange(p0, enc.len() as int));
                                }
                                PollEncodeStatus::Fini
                            },
                            StartEncodeStatus::Pending(s) => {
                                proof {
                                    assert(seq_items_enc::<E>(elems.take(0)) =~= Seq::<u8>::empty()) by {
                                        assert(elems.take(0) =~= Seq::<<E as Encode>::Data>::empty());
                                    }
                                    assert(old(writer).written() + enc.subrange(p0, hdr.len() as int) + enc.subrange(hdr.len() as int, s.progress(*data)) =~= old(writer).written() + enc.subrange(p0, s.progress(*data)));
                                }
                                *self = s;
                                PollEncodeStatus::Pending
                            },
                            StartEncodeStatus::Error(e) => {
                                proof {
                                    let off0 = hdr.len() as int + seq_items_enc::<E>(elems.take(0)).len() as int;
                                    assert(seq_items_enc::<E>(elems.take(0)).len() == 0) by {
                                        assert(elems.take(0) =~= Seq::<<E as Encode>::Data>::empty());
                                    }
                                    let p = choose|p: int|
                                        #![trigger enc.subrange(off0, p)]
                                        {
                                            &&& off0 <= p <= enc.len()
                                            &&& writer.written() == old(writer).written() + enc.subrange(p0, hdr.len() as int) + enc.subrange(off0, p)
                                        };
                                    assert(old(writer).written() + enc.subrange(p0, hdr.len() as int) + enc.subrange(hdr.len() as int, p) =~= old(writer).written() + enc.subrange(p0, p)) by {
                                        assert(enc.subrange(p0, hdr.len() as int) + enc.subrange(hdr.len() as int, p) =~= enc.subrange(p0, p));
                                    }
                                    assert(old(self).progress(*data) == p0);
                                    assert(exists|p2: int|
                                #![trigger Self::encoding(*data).subrange(old(self).progress(*data), p2)]
                                {
                                    &&& old(self).progress(*data) <= p2 <= Self::encoding(*data).len()
                                    &&& writer.written() == old(writer).written() + Self::encoding(*data).subrange(old(self).progress(*data), p2)
                                });
                                }
                                PollEncodeStatus::Error(e)
                            },
                        }
                    },
                    PollEncodeStatus::Pending => {
                        proof {
                            assert(hdr.subrange(p0, sub.progress(l)) =~= enc.subrange(p0, sub.progress(l))) by {
                                assert(hdr =~= enc.take(hdr.len() as int));
                            }
                        }
                        self.cursor = SeqEncodeCursor::Len(l, sub);
                        PollEncodeStatus::Pending
                    },
                    PollEncodeStatus::Error(e) => {
                        proof {
                            let p = choose|p: int|
                                #![trigger hdr.subrange(p0, p)]
                                {
                                    &&& p0 <= p <= hdr.len()
                                    &&& writer.written() == old(writer).written() + hdr.subrange(p0, p)
                                };
                            assert(hdr.subrange(p0, p) =~= enc.subrange(p0, p)) by {
                                assert(hdr =~= enc.take(hdr.len() as int));
                            }
                            assert(old(self).progress(*data) == p0);
                            assert(exists|p2: int|
                                #![trigger Self::encoding(*data).subrange(old(self).progress(*data), p2)]
                                {
                                    &&& old(self).progress(*data) <= p2 <= Self::encoding(*data).len()
                                    &&& writer.written() == old(writer).written() + Self::encoding(*data).subrange(old(self).progress(*data), p2)
                                });
                        }
                        PollEncodeStatus::Error(e)
                    },
                }
            },
            SeqEncodeCursor::Cur(j, mut sub) => {
                let ghost off_j: int = hdr.len() as int + seq_items_enc::<E>(elems.take(j as int)).len() as int;
                let ghost pp0 = sub.progress(elems[j as int]);
                proof {
                    sub.lemma_progress_bounds(elems[j as int]);
                    lemma_items_enc_split::<E>(elems, j as int);
                    lemma_items_enc_split::<E>(elems, j + 1);
                    assert(elems.take(j + 1) =~= elems.take(j as int).push(elems[j as int]));
                    lemma_items_enc_push::<E>(elems.take(j as int), elems[j as int]);
                    assert(enc =~= (hdr + seq_items_enc::<E>(elems.take(j as int))) + (E::encoding(elems[j as int]) + seq_items_enc::<E>(elems.skip(j + 1))));
                }
                match sub.poll_encode(writer, data.borrow_at(j)) {
                    PollEncodeStatus::Fini => {
                        proof {
                            let pe = E::encoding(elems[j as int]);
                            assert(pe.subrange(pp0, pe.len() as int) =~= enc.subrange(off_j + pp0, off_j + pe.len() as int));
                        }
                        match Self::items_from(writer, data, j + 1) {
                            StartEncodeStatus::Fini => {
                                self.cursor = SeqEncodeCursor::Fini;
                                proof {
                                    let pe = E::encoding(elems[j as int]);
                                    assert(old(writer).written() + enc.subrange(off_j + pp0, off_j + pe.len() as int) + enc.subrange(off_j + pe.len() as int, enc.len() as int) =~= old(writer).written() + enc.subrange(off_j + pp0, enc.len() as int));
                                }
                                PollEncodeStatus::Fini
                            },
                            StartEncodeStatus::Pending(s) => {
                                proof {
                                    let pe = E::encoding(elems[j as int]);
                                    assert(old(writer).written() + enc.subrange(off_j + pp0, off_j + pe.len() as int) + enc.subrange(off_j + pe.len() as int, s.progress(*data)) =~= old(writer).written() + enc.subrange(off_j + pp0, s.progress(*data)));
                                }
                                *self = s;
                                PollEncodeStatus::Pending
                            },
                            StartEncodeStatus::Error(e) => {
                                proof {
                                    let pe = E::encoding(elems[j as int]);
                                    let off_next = hdr.len() as int + seq_items_enc::<E>(elems.take(j + 1)).len() as int;
                                    let p = choose|p: int|
                                        #![trigger enc.subrange(off_next, p)]
                                        {
                                            &&& off_next <= p <= enc.len()
                                            &&& writer.written() == old(writer).written() + enc.subrange(off_j + pp0, off_j + pe.len() as int) + enc.subrange(off_next, p)
                                        };
                                    assert(off_next == off_j + pe.len());
                                    assert(old(writer).written() + enc.subrange(off_j + pp0, off_j + pe.len() as int) + enc.subrange(off_j + pe.len() as int, p) =~= old(writer).written() + enc.subrange(off_j + pp0, p)) by {
                                        assert(enc.subrange(off_j + pp0, off_j + pe.len() as int) + enc.subrange(off_j + pe.len() as int, p) =~= enc.subrange(off_j + pp0, p));
                                    }
                                    assert(old(self).progress(*data) == off_j + pp0);
                                    assert(exists|p2: int|
                                #![trigger Self::encoding(*data).subrange(old(self).progress(*data), p2)]
                                {
                                    &&& old(self).progress(*data) <= p2 <= Self::encoding(*data).len()
                                    &&& writer.written() == old(writer).written() + Self::encoding(*data).subrange(old(self).progress(*data), p2)
                                });
                                }
                                PollEncodeStatus::Error(e)
                            },
                        }
                    },
                    PollEncodeStatus::Pending => {
                        proof {
                            let pe = E::encoding(elems[j as int]);
                            let q = sub.progress(elems[j as int]);
                            assert(pe.subrange(pp0, q) =~= enc.subrange(off_j + pp0, off_j + q));
                        }
                        self.cursor = SeqEncodeCursor::Cur(j, sub);
                        PollEncodeStatus::Pending
                    },
                    PollEncodeStatus::Error(e) => {
                        proof {
                            let pe = E::encoding(elems[j as int]);
                            let p = choose|p: int|
                                #![trigger pe.subrange(pp0, p)]
                                {
                                    &&& pp0 <= p <= pe.len()
                                    &&& writer.written() == old(writer).written() + pe.subrange(pp0, p)
                                };
                            assert(pe.subrange(pp0, p) =~= enc.subrange(off_j + pp0, off_j + p));
                            assert(old(self).progress(*data) == off_j + pp0);
                            assert(exists|p2: int|
                                #![trigger Self::encoding(*data).subrange(old(self).progress(*data), p2)]
                                {
                                    &&& old(self).progress(*data) <= p2 <= Self::encoding(*data).len()
                                    &&& writer.written() == old(writer).written() + Self::encoding(*data).subrange(old(self).progress(*data), p2)
                                });
                        }
                        PollEncodeStatus::Error(e)
                    },
                }
            },
            SeqEncodeCursor::Fini => {
                PollEncodeStatus::Error(crate::io::invalid_input())
            },
            SeqEncodeCursor::Failed => {
                PollEncodeStatus::Error(crate::io::invalid_input())
            },
        }
    }
}

/// The observations of a run of elements, in order.
pub open spec fn seq_models<D: Decode>(elems: Seq<<D as Decode>::Data>) -> Seq<<D as Decode>::Model> {
    Seq::new(elems.len(), |i: int| D::model(elems[i]))
}

/// The wire grammar of a run of exactly `k` elements, first to last.
pub open spec fn seq_items_dec<D: Decode>(bytes: Seq<u8>, k: nat) -> DecOutcome<Seq<<D as Decode>::Model>>
    decreases k,
{
    if k == 0 {
        DecOutcome::Done(Seq::empty(), 0)
    } else {
        match D::decode_spec(bytes) {
            DecOutcome::Done(v, n) => match seq_items_dec::<D>(bytes.skip(n), (k - 1) as nat) {
                DecOutcome::Done(vs, m) => DecOutcome::Done(Seq::empty().push(v).add(vs), n + m),
                DecOutcome::NeedMore => DecOutcome::NeedMore,
                DecOutcome::Bad => DecOutcome::Bad,
            },
            DecOutcome::NeedMore => DecOutcome::NeedMore,
            DecOutcome::Bad => DecOutcome::Bad,
        }
    }
}

/// The run grammar is a lawful prefix grammar whenever the element grammar
/// is.
pub proof fn lemma_items_dec_lawful<D: Decode>(bytes: Seq<u8>, ext: Seq<u8>, k: nat)
    ensures
        match seq_items_dec::<D>(bytes, k) {
            DecOutcome::Done(vs, m) => 0 <= m <= bytes.len() && seq_items_dec::<D>(bytes.add(ext), k) == DecOutcome::Done(vs, m),
            DecOutcome::NeedMore => true,
            DecOutcome::Bad => seq_items_dec::<D>(bytes.add(ext), k) == DecOutcome::<Seq<<D as Decode>::Model>>::Bad,
        },
    decreases k,
{
    if k > 0 {
        D::lemma_lawful(bytes, ext);
        match D::decode_spec(bytes) {
            DecOutcome::Done(v, n) => {
                assert(bytes.add(ext).skip(n) =~= bytes.skip(n).add(ext));
                lemma_items_dec_lawful::<D>(bytes.skip(n), ext, (k - 1) as nat);
            },
            DecOutcome::NeedMore => {},
            DecOutcome::Bad => {},
        }
    }
}

/// Appending the exact wire bytes of one more element to an exact parse of
/// a run appends that element's observation to the run's parse.
pub proof fn lemma_items_dec_snoc<D: Decode>(b1: Seq<u8>, vs: Seq<<D as Decode>::Model>, b2: Seq<u8>, v: <D as Decode>::Model)
    requires
        seq_items_dec::<D>(b1, vs.len()) == DecOutcome::Done(vs, b1.len() as int),
        D::decode_spec(b2) == DecOutcome::Done(v, b2.len() as int),
    ensures
        seq_items_dec::<D>(b1.add(b2), (vs.len() + 1) as nat) == DecOutcome::Done(vs.push(v), b1.len() as int + b2.len() as int),
    decreases vs.len(),
{
    if vs.len() == 0 {
        assert(b1.len() == 0);
        assert(b1.add(b2) =~= b2);
        assert(b2.skip(b2.len() as int) =~= Seq::<u8>::empty());
        assert(seq_items_dec::<D>(b2.skip(b2.len() as int), 0) == DecOutcome::<Seq<<D as Decode>::Model>>::Done(Seq::empty(), 0));
        assert(Seq::empty().push(v).add(Seq::empty()) =~= vs.push(v));
    } else {
        let first = D::decode_spec(b1);
        match first {
            DecOutcome::Done(v0, n0) => {
                D::lemma_lawful(b1, b2);
                let inner = seq_items_dec::<D>(b1.skip(n0), (vs.len() - 1) as nat);
                match inner {
                    DecOutcome::Done(vs0, m0) => {
                        assert(vs == Seq::empty().push(v0).add(vs0));
                        assert(vs0 =~= vs.drop_first());
                        assert(vs[0] == v0);
                        assert(n0 + m0 == b1.len());
                        assert(m0 == b1.skip(n0).len());
                        lemma_items_dec_snoc::<D>(b1.skip(n0), vs0, b2, v);
                        assert(b1.add(b2).skip(n0) =~= b1.skip(n0).add(b2));
                        assert(Seq::empty().push(v0).add(vs0.push(v)) =~= vs.push(v));
                    },
                    DecOutcome::NeedMore => {
                        assert(false);
                    },
                    DecOutcome::Bad => {
                        assert(false);
                    },
                }
            },
            DecOutcome::NeedMore => {
                assert(false);
            },
            DecOutcome::Bad => {
                assert(false);
            },
        }
    }
}

/// An exact parse of a run of elements decomposes a longer run's grammar:
/// the remaining bytes carry the remaining elements.
pub proof fn lemma_items_dec_prepend<D: Decode>(b1: Seq<u8>, vs: Seq<<D as Decode>::Model>, b2: Seq<u8>, k: nat)
    requires
        seq_items_dec::<D>(b1, vs.len()) == DecOutcome::Done(vs, b1.len() as int),
        vs.len() <= k,
    ensures
        seq_items_dec::<D>(b1.add(b2), k) == match seq_items_dec::<D>(b2, (k - vs.len()) as nat) {
            DecOutcome::Done(vs2, m) => DecOutcome::Done(vs.add(vs2), b1.len() + m),
            DecOutcome::NeedMore => DecOutcome::NeedMore,
            DecOutcome::Bad => DecOutcome::Bad,
        },
    decreases vs.len(),
{
    if vs.len() == 0 {
        assert(b1.len() == 0);
        assert(b1.add(b2) =~= b2);
        match seq_items_dec::<D>(b2, k) {
            DecOutcome::Done(vs2, m) => {
                assert(vs.add(vs2) =~= vs2);
            },
            DecOutcome::NeedMore => {},
            DecOutcome::Bad => {},
        }
    } else {
        let first = D::decode_spec(b1);
        match first {
            DecOutcome::Done(v0, n0) => {
                D::lemma_lawful(b1, b2);
                let inner = seq_items_dec::<D>(b1.skip(n0), (vs.len() - 1) as nat);
                match inner {
                    DecOutcome::Done(vs0, m0) => {
                        assert(vs == Seq::empty().push(v0).add(vs0));
                        assert(vs0 =~= vs.drop_first());
                        assert(n0 + m0 == b1.len());
                        assert(m0 == b1.skip(n0).len());
                        lemma_items_dec_prepend::<D>(b1.skip(n0), vs0, b2, (k - 1) as nat);
                        assert(b1.add(b2).skip(n0) =~= b1.skip(n0).add(b2));
                        match seq_items_dec::<D>(b2, (k - vs.len()) as nat) {
                            DecOutcome::Done(vs2, m) => {
                                assert(Seq::empty().push(v0).add(vs0.add(vs2)) =~= vs.add(vs2));
                            },
                            DecOutcome::NeedMore => {},
                            DecOutcome::Bad => {},
                        }
                    },
                    DecOutcome::NeedMore => {
                        assert(false);
                    },
                    DecOutcome::Bad => {
                        assert(false);
                    },
                }
            },
            DecOutcome::NeedMore => {
                assert(false);
            },
            DecOutcome::Bad => {
                assert(false);
            },
        }
    }
}

/// Appending one element appends its observation.
pub proof fn lemma_seq_models_push<D: Decode>(elems: Seq<<D as Decode>::Data>, d: <D as Decode>::Data)
    ensures
        seq_models::<D>(elems.push(d)) == seq_models::<D>(elems).push(D::model(d)),
{
    assert(seq_models::<D>(elems.push(d)) =~= seq_models::<D>(elems).push(D::model(d)));
}

/// The cursor of an in-flight container decode.
pub enum SeqDecodeCursor<F: Format, D: Decode, C: SeqApi<<D as Decode>::Data>> {
    /// No poll has happened yet.
    Init,
    /// The length header is still being gathered.
    Len(F::DecodeSequenceLen),
    /// This many elements are expected in total; the partial container
    /// holds those gathered so far, and the decoder works on the next.
    Cur(usize, C, D),
    /// The decode completed.
    Fini,
    /// The decode failed, or was polled after completion.
    Failed,
}

/// The resumable decoder for a growable ordered container: the current
/// slot of the chain, the bytes committed by the length header, and the
/// bytes committed by the completed elements.
pub struct SeqDecode<F: Format, D: Decode, C: SeqApi<<D as Decode>::Data>> {
    cursor: SeqDecodeCursor<F, D, C>,
    hdr_taken: Ghost<Seq<u8>>,
    items_taken: Ghost<Seq<u8>>,
}

impl<F: Format, D: Decode, C: SeqApi<<D as Decode>::Data>> SeqDecode<F, D, C> {
    /// Gather the elements from the partial container's length onward, the
    /// length header having been fully parsed as `target` out of `hdr_b`,
    /// and the elements so far out of `items_b`.
    fn items_from<R: AsyncRead + AsyncBufRead>(target: usize, acc: C, reader: &mut R, Ghost(hdr_b): Ghost<Seq<u8>>, Ghost(items_b): Ghost<Seq<u8>>) -> (r: StartDecodeStatus<C, Self, Error>)
        requires
            <F::DecodeSequenceLen as Decode>::decode_spec(hdr_b) == DecOutcome::Done(SequenceLen(target), hdr_b.len() as int),
            acc.elems().len() <= target,
            seq_items_dec::<D>(items_b, acc.elems().len()) == DecOutcome::Done(seq_models::<D>(acc.elems()), items_b.len() as int),
        ensures
            match r {
                StartDecodeStatus::Fini(c) => exists|n: int|
                    #![trigger old(reader).remaining().take(n)]
                    {
                        &&& 0 <= n <= old(reader).remaining().len()
                        &&& final(reader).remaining() == old(reader).remaining().skip(n)
                        &&& Self::decode_spec(hdr_b.add(items_b).add(old(reader).remaining().take(n))) == DecOutcome::Done(Self::model(c), hdr_b.len() + items_b.len() + n)
                    },
                StartDecodeStatus::Pending(s) => {
                    &&& s.wf() && !s.done() && !s.failed()
                    &&& exists|n: int|
                        #![trigger old(reader).remaining().take(n)]
                        {
                            &&& 0 <= n <= old(reader).remaining().len()
                            &&& final(reader).remaining() == old(reader).remaining().skip(n)
                            &&& s.taken() == hdr_b.add(items_b).add(old(reader).remaining().take(n))
                        }
                },
                StartDecodeStatus::Error(e) => exists|n: int|
                    #![trigger old(reader).remaining().skip(n)]
                    {
                        &&& 0 <= n <= old(reader).remaining().len()
                        &&& final(reader).remaining() == old(reader).remaining().skip(n)
                        &&& (Self::decode_spec(hdr_b.add(items_b).add(old(reader).remaining().take(n))) is Bad ==> e == Error::InvalidData)
                        &&& !(Self::decode_spec(hdr_b.add(items_b).add(old(reader).remaining().take(n))) is Done)
                    },
            },
    {
        let ghost all = old(reader).remaining();
        let mut acc = acc;
        let ghost mut items_bytes = items_b;
        let ghost mut consumed: int = 0;
        let mut j: usize = acc.length();
        proof {
            assert(all.take(0) =~= Seq::<u8>::empty());
            assert(items_b.add(Seq::<u8>::empty()) =~= items_b);
        }
        while j < target
            invariant
                all == old(reader).remaining(),
                <F::DecodeSequenceLen as Decode>::decode_spec(hdr_b) == DecOutcome::Done(SequenceLen(target), hdr_b.len() as int),
                j == acc.elems().len(),
                j <= target,
                0 <= consumed <= all.len(),
                reader.remaining() == all.skip(consumed),
                items_bytes == items_b.add(all.take(consumed)),
                seq_items_dec::<D>(items_bytes, acc.elems().len()) == DecOutcome::Done(seq_models::<D>(acc.elems()), items_bytes.len() as int),
            decreases target - j,
        {
            let ghost mid = reader.remaining();
            match D::start_decode(reader) {
                StartDecodeStatus::Fini(d) => {
                    proof {
                        let m = choose|m: int|
                            #![trigger mid.take(m)]
                            {
                                &&& 0 <= m <= mid.len()
                                &&& reader.remaining() == mid.skip(m)
                                &&& D::decode_spec(mid.take(m)) == DecOutcome::Done(D::model(d), m)
                            };
                        lemma_items_dec_snoc::<D>(items_bytes, seq_models::<D>(acc.elems()), mid.take(m), D::model(d));
                        assert(mid.take(m) =~= all.subrange(consumed, consumed + m));
                        assert(mid.skip(m) =~= all.skip(consumed + m));
                        assert(all.take(consumed).add(all.subrange(consumed, consumed + m)) =~= all.take(consumed + m));
                        assert(items_bytes.add(mid.take(m)) =~= items_b.add(all.take(consumed + m)));
                        lemma_seq_models_push::<D>(acc.elems(), d);
                        items_bytes = items_bytes.add(mid.take(m));
                        consumed = consumed + m;
                    }
                    acc.append(d);
                    j = j + 1;
                },
                StartDecodeStatus::Pending(sub) => {
                    let s = SeqDecode { cursor: SeqDecodeCursor::Cur(target, acc, sub), hdr_taken: Ghost(hdr_b), items_taken: Ghost(items_bytes) };
                    proof {
                        let m = choose|m: int|
                            #![trigger mid.take(m)]
                            {
                                &&& 0 <= m <= mid.len()
                                &&& reader.remaining() == mid.skip(m)
                                &&& sub.taken() == mid.take(m)
                            };
                        assert(mid.take(m) =~= all.subrange(consumed, consumed + m));
                        assert(mid.skip(m) =~= all.skip(consumed + m));
                        assert(all.take(consumed).add(all.subrange(consumed, consumed + m)) =~= all.take(consumed + m));
                        assert(s.taken() =~= hdr_b.add(items_b).add(all.take(consumed + m))) by {
                            assert(s.taken() == hdr_b.add(items_bytes).add(mid.take(m)));
                        }
                        assert(s.taken() == hdr_b.add(items_b).add(old(reader).remaining().take(consumed + m)));
                    }
                    return StartDecodeStatus::Pending(s);
                },
                StartDecodeStatus::Error(e) => {
                    proof {
                        let m = choose|m: int|
                            #![trigger mid.skip(m)]
                            {
                                &&& 0 <= m <= mid.len()
                                &&& reader.remaining() == mid.skip(m)
                                &&& (D::decode_spec(mid.take(m)) is Bad ==> e == Error::InvalidData)
                                &&& !(D::decode_spec(mid.take(m)) is Done)
                            };
                        crate::codec::lemma_dec_lawful::<F::DecodeSequenceLen>();
                        assert(mid.take(m) =~= all.subrange(consumed, consumed + m));
                        assert(mid.skip(m) =~= all.skip(consumed + m));
                        assert(all.take(consumed).add(all.subrange(consumed, consumed + m)) =~= all.take(consumed + m));
                        let total = hdr_b.add(items_b).add(all.take(consumed + m));
                        assert(total =~= hdr_b.add(items_bytes.add(mid.take(m))));
                        assert(<F::DecodeSequenceLen as Decode>::decode_spec(total) == DecOutcome::Done(SequenceLen(target), hdr_b.len() as int));
                        assert(total.skip(hdr_b.len() as int) =~= items_bytes.add(mid.take(m)));
                        lemma_items_dec_prepend::<D>(items_bytes, seq_models::<D>(acc.elems()), mid.take(m), target as nat);
                        assert(Self::decode_spec(total) is Bad ==> e == Error::InvalidData);
                        assert(!(Self::decode_spec(total) is Done));
                    }
                    return StartDecodeStatus::Error(e);
                },
            }
        }
        proof {
            crate::codec::lemma_dec_lawful::<F::DecodeSequenceLen>();
            let whole = hdr_b.add(items_bytes);
            assert(<F::DecodeSequenceLen as Decode>::decode_spec(whole) == DecOutcome::Done(SequenceLen(target), hdr_b.len() as int));
            assert(whole.skip(hdr_b.len() as int) =~= items_bytes);
            assert(hdr_b.add(items_b).add(old(reader).remaining().take(consumed)) =~= whole);
            assert(Self::decode_spec(hdr_b.add(items_b).add(old(reader).remaining().take(consumed))) == DecOutcome::Done(seq_models::<D>(acc.elems()), hdr_b.len() as int + items_b.len() as int + consumed)) by {
                assert(Self::decode_spec(whole) == DecOutcome::Done(seq_models::<D>(acc.elems()), hdr_b.len() as int + items_bytes.len() as int));
                assert(items_bytes.len() == items_b.len() + consumed);
            }
            assert(reader.remaining() == old(reader).remaining().skip(consumed));
            assert(0 <= consumed <= old(reader).remaining().len());
            assert(Self::decode_spec(hdr_b.add(items_b).add(old(reader).remaining().take(consumed))) == DecOutcome::Done(Self::model(acc), hdr_b.len() + items_b.len() + consumed));
        }
        StartDecodeStatus::Fini(acc)
    }

    /// Begin the whole decode: the length header, then the elements.
    fn after_init<R: AsyncRead + AsyncBufRead>(reader: &mut R) -> (r: StartDecodeStatus<C, Self, Error>)
        ensures
            match r {
                StartDecodeStatus::Fini(c) => exists|n: int|
                    #![trigger old(reader).remaining().take(n)]
                    {
                        &&& 0 <= n <= old(reader).remaining().len()
                        &&& final(reader).remaining() == old(reader).remaining().skip(n)
                        &&& Self::decode_spec(old(reader).remaining().take(n)) == DecOutcome::Done(Self::model(c), n)
                    },
                StartDecodeStatus::Pending(s) => {
                    &&& s.wf() && !s.done() && !s.failed()
                    &&& exists|n: int|
                        #![trigger old(reader).remaining().take(n)]
                        {
                            &&& 0 <= n <= old(reader).remaining().len()
                            &&& final(reader).remaining() == old(reader).remaining().skip(n)
                            &&& s.taken() == old(reader).remaining().take(n)
                        }
                },
                StartDecodeStatus::Error(e) => exists|n: int|
                    #![trigger old(reader).remaining().skip(n)]
                    {
                        &&& 0 <= n <= old(reader).remaining().len()
                        &&& final(reader).remaining() == old(reader).remaining().skip(n)
                        &&& (Self::decode_spec(old(reader).remaining().take(n)) is Bad ==> e == Error::InvalidData)
                        &&& !(Self::decode_spec(old(reader).remaining().take(n)) is Done)
                    },
            },
    {
        let ghost all = old(reader).remaining();
        match <F::DecodeSequenceLen as Decode>::start_decode(reader) {
            StartDecodeStatus::Fini(l) => {
                proof {
                    F::lemma_sequence_len_model(l);
                }
                let ghost n1 = choose|n1: int|
                    #![trigger all.take(n1)]
                    {
                        &&& 0 <= n1 <= all.len()
                        &&& reader.remaining() == all.skip(n1)
                        &&& <F::DecodeSequenceLen as Decode>::decode_spec(all.take(n1)) == DecOutcome::Done(l, n1)
                    };
                let ghost mid = reader.remaining();
                let target = l.value();
                let mut acc = C::new();
                acc.reserve(target);
                proof {
                    assert(seq_models::<D>(acc.elems()) =~= Seq::<<D as Decode>::Model>::empty());
                }
                let r = Self::items_from(target, acc, reader, Ghost(all.take(n1)), Ghost(Seq::empty()));
                proof {
                    let hdr_b = all.take(n1);
                    match &r {
                        StartDecodeStatus::Fini(c) => {
                            let n2 = choose|n2: int|
                                #![trigger mid.take(n2)]
                                {
                                    &&& 0 <= n2 <= mid.len()
                                    &&& reader.remaining() == mid.skip(n2)
                                    &&& Self::decode_spec(hdr_b.add(Seq::empty()).add(mid.take(n2))) == DecOutcome::Done(Self::model(*c), hdr_b.len() + Seq::<u8>::empty().len() + n2)
                                };
                            assert(mid.take(n2) =~= all.subrange(n1, n1 + n2));
                            assert(mid.skip(n2) =~= all.skip(n1 + n2));
                            assert(hdr_b.add(Seq::empty()).add(all.subrange(n1, n1 + n2)) =~= all.take(n1 + n2));
                        },
                        StartDecodeStatus::Pending(s) => {
                            let n2 = choose|n2: int|
                                #![trigger mid.take(n2)]
                                {
                                    &&& 0 <= n2 <= mid.len()
                                    &&& reader.remaining() == mid.skip(n2)
                                    &&& s.taken() == hdr_b.add(Seq::empty()).add(mid.take(n2))
                                };
                            assert(mid.take(n2) =~= all.subrange(n1, n1 + n2));
                            assert(mid.skip(n2) =~= all.skip(n1 + n2));
                            assert(hdr_b.add(Seq::empty()).add(all.subrange(n1, n1 + n2)) =~= all.take(n1 + n2));
                        },
                        StartDecodeStatus::Error(e) => {
                            let n2 = choose|n2: int|
                                #![trigger mid.skip(n2)]
                                {
                                    &&& 0 <= n2 <= mid.len()
                                    &&& reader.remaining() == mid.skip(n2)
                                    &&& (Self::decode_spec(hdr_b.add(Seq::empty()).add(mid.take(n2))) is Bad ==> *e == Error::InvalidData)
                                    &&& !(Self::decode_spec(hdr_b.add(Seq::empty()).add(mid.take(n2))) is Done)
                                };
                            assert(mid.take(n2) =~= all.subrange(n1, n1 + n2));
                            assert(mid.skip(n2) =~= all.skip(n1 + n2));
                            assert(hdr_b.add(Seq::empty()).add(all.subrange(n1, n1 + n2)) =~= all.take(n1 + n2));
                        },
                    }
                }
                r
            },
            StartDecodeStatus::Pending(sub) => {
                let s = SeqDecode { cursor: SeqDecodeCursor::Len(sub), hdr_taken: Ghost(Seq::empty()), items_taken: Ghost(Seq::empty()) };
                StartDecodeStatus::Pending(s)
            },
            StartDecodeStatus::Error(e) => {
                proof {
                    let n = choose|n: int|
                        #![trigger all.skip(n)]
                        {
                            &&& 0 <= n <= all.len()
                            &&& reader.remaining() == all.skip(n)
                            &&& (<F::DecodeSequenceLen as Decode>::decode_spec(all.take(n)) is Bad ==> e == Error::InvalidData)
                            &&& !(<F::DecodeSequenceLen as Decode>::decode_spec(all.take(n)) is Done)
                        };
                    assert(Self::decode_spec(all.take(n)) is Bad ==> e == Error::InvalidData);
                    assert(!(Self::decode_spec(all.take(n)) is Done));
                }
                StartDecodeStatus::Error(e)
            },
        }
    }
}

impl<F: Format, D: Decode, C: SeqApi<<D as Decode>::Data>> Decode for SeqDecode<F, D, C> {
    type Data = C;

    type Model = Seq<<D as Decode>::Model>;

    open spec fn model(d: C) -> Seq<<D as Decode>::Model> {
        seq_models::<D>(d.elems())
    }

    open spec fn decode_spec(bytes: Seq<u8>) -> DecOutcome<Seq<<D as Decode>::Model>> {
        match <F::DecodeSequenceLen as Decode>::decode_spec(bytes) {
            DecOutcome::Done(l, n) => match seq_items_dec::<D>(bytes.skip(n), l.0 as nat) {
                DecOutcome::Done(vs, m) => DecOutcome::Done(vs, n + m),
                DecOutcome::NeedMore => DecOutcome::NeedMore,
                DecOutcome::Bad => DecOutcome::Bad,
            },
            DecOutcome::NeedMore => DecOutcome::NeedMore,
            DecOutcome::Bad => DecOutcome::Bad,
        }
    }

    closed spec fn taken(&self) -> Seq<u8> {
        match &self.cursor {
            SeqDecodeCursor::Init => Seq::empty(),
            SeqDecodeCursor::Len(sub) => sub.taken(),
            SeqDecodeCursor::Cur(target, acc, sub) => self.hdr_taken@ + self.items_taken@ + sub.taken(),
            SeqDecodeCursor::Fini => self.hdr_taken@ + self.items_taken@,
            SeqDecodeCursor::Failed => self.hdr_taken@ + self.items_taken@,
        }
    }

    closed spec fn wf(&self) -> bool {
        match &self.cursor {
            SeqDecodeCursor::Init => true,
            SeqDecodeCursor::Len(sub) => sub.wf() && !sub.done() && !sub.failed(),
            SeqDecodeCursor::Cur(target, acc, sub) => {
                &&& <F::DecodeSequenceLen as Decode>::decode_spec(self.hdr_taken@) == DecOutcome::Done(SequenceLen(*target), self.hdr_taken@.len() as int)
                &&& acc.elems().len() < *target
                &&& seq_items_dec::<D>(self.items_taken@, acc.elems().len()) == DecOutcome::Done(seq_models::<D>(acc.elems()), self.items_taken@.len() as int)
                &&& sub.wf() && !sub.done() && !sub.failed()
            },
            SeqDecodeCursor::Fini => true,
            SeqDecodeCursor::Failed => true,
        }
    }

    closed spec fn done(&self) -> bool {
        self.cursor is Fini
    }

    closed spec fn failed(&self) -> bool {
        self.cursor is Failed
    }

    proof fn lemma_lawful(b: Seq<u8>, ext: Seq<u8>) {
        <F::DecodeSequenceLen as Decode>::lemma_lawful(b, ext);
        match <F::DecodeSequenceLen as Decode>::decode_spec(b) {
            DecOutcome::Done(l, n) => {
                assert(b.add(ext).skip(n) =~= b.skip(n).add(ext));
                lemma_items_dec_lawful::<D>(b.skip(n), ext, l.0 as nat);
            },
            DecOutcome::NeedMore => {},
            DecOutcome::Bad => {},
        }
    }

    fn init() -> (d: Self) {
        SeqDecode { cursor: SeqDecodeCursor::Init, hdr_taken: Ghost(Seq::empty()), items_taken: Ghost(Seq::empty()) }
    }

    #[verifier::rlimit(100)]
    #[verifier::spinoff_prover]
    fn poll_decode<R: AsyncRead + AsyncBufRead>(&mut self, reader: &mut R) -> (r: PollDecodeStatus<C, Error>) {
        let ghost all = old(reader).remaining();
        let mut tmp = SeqDecode { cursor: SeqDecodeCursor::Failed, hdr_taken: Ghost(Seq::empty()), items_taken: Ghost(Seq::empty()) };
        core::mem::swap(self, &mut tmp);
        let SeqDecode { cursor: st, hdr_taken: Ghost(hdr_b), items_taken: Ghost(items_b) } = tmp;
        match st {
            SeqDecodeCursor::Init => {
                match Self::after_init(reader) {
                    StartDecodeStatus::Fini(c) => {
                        self.cursor = SeqDecodeCursor::Fini;
                        proof {
                            let n = choose|n: int|
                                #![trigger all.take(n)]
                                {
                                    &&& 0 <= n <= all.len()
                                    &&& reader.remaining() == all.skip(n)
                                    &&& Self::decode_spec(all.take(n)) == DecOutcome::Done(Self::model(c), n)
                                };
                            assert(Seq::<u8>::empty().add(all.take(n)) =~= all.take(n));
                        }
                        PollDecodeStatus::Fini(c)
                    },
                    StartDecodeStatus::Pending(s) => {
                        *self = s;
                        proof {
                            let n = choose|n: int|
                                #![trigger all.take(n)]
                                {
                                    &&& 0 <= n <= all.len()
                                    &&& reader.remaining() == all.skip(n)
                                    &&& self.taken() == all.take(n)
                                };
                            assert(Seq::<u8>::empty().add(all.take(n)) =~= all.take(n));
                        }
                        PollDecodeStatus::Pending
                    },
                    StartDecodeStatus::Error(e) => {
                        proof {
                            let n = choose|n: int|
                                #![trigger all.skip(n)]
                                {
                                    &&& 0 <= n <= all.len()
                                    &&& reader.remaining() == all.skip(n)
                                    &&& (Self::decode_spec(all.take(n)) is Bad ==> e == Error::InvalidData)
                                    &&& !(Self::decode_spec(all.take(n)) is Done)
                                };
                            assert(Seq::<u8>::empty().add(all.take(n)) =~= all.take(n));
                        }
                        PollDecodeStatus::Error(e)
                    },
                }
            },
            SeqDecodeCursor::Len(mut sub) => {
                let ghost t0 = sub.taken();
                match sub.poll_decode(reader) {
                    PollDecodeStatus::Fini(l) => {
                        proof {
                            F::lemma_sequence_len_model(l);
                        }
                        let ghost n1 = choose|n1: int|
                            #![trigger all.take(n1)]
                            {
                                &&& 0 <= n1 <= all.len()
                                &&& reader.remaining() == all.skip(n1)
                                &&& <F::DecodeSequenceLen as Decode>::decode_spec(t0.add(all.take(n1))) == DecOutcome::Done(l, t0.len() + n1)
                            };
                        let ghost committed = t0.add(all.take(n1));
                        let ghost mid = reader.remaining();
                        let target = l.value();
                        let mut acc = C::new();
                        acc.reserve(target);
                        proof {
                            assert(seq_models::<D>(acc.elems()) =~= Seq::<<D as Decode>::Model>::empty());
                        }
                        match Self::items_from(target, acc, reader, Ghost(committed), Ghost(Seq::empty())) {
                            StartDecodeStatus::Fini(c) => {
                                self.cursor = SeqDecodeCursor::Fini;
                                proof {
                                    let n2 = choose|n2: int|
                                        #![trigger mid.take(n2)]
                                        {
                                            &&& 0 <= n2 <= mid.len()
                                            &&& reader.remaining() == mid.skip(n2)
                                            &&& Self::decode_spec(committed.add(Seq::empty()).add(mid.take(n2))) == DecOutcome::Done(Self::model(c), committed.len() + Seq::<u8>::empty().len() + n2)
                                        };
                                    assert(mid.take(n2) =~= all.subrange(n1, n1 + n2));
                                    assert(mid.skip(n2) =~= all.skip(n1 + n2));
                                    assert(committed.add(Seq::empty()).add(all.subrange(n1, n1 + n2)) =~= t0.add(all.take(n1 + n2)));
                                }
                                PollDecodeStatus::Fini(c)
                            },
                            StartDecodeStatus::Pending(s) => {
                                *self = s;
                                proof {
                                    let n2 = choose|n2: int|
                                        #![trigger mid.take(n2)]
                                        {
                                            &&& 0 <= n2 <= mid.len()
                                            &&& reader.remaining() == mid.skip(n2)
                                            &&& self.taken() == committed.add(Seq::empty()).add(mid.take(n2))
                                        };
                                    assert(mid.take(n2) =~= all.subrange(n1, n1 + n2));
                                    assert(mid.skip(n2) =~= all.skip(n1 + n2));
                                    assert(committed.add(Seq::empty()).add(all.subrange(n1, n1 + n2)) =~= t0.add(all.take(n1 + n2)));
                                }
                                PollDecodeStatus::Pending
                            },
                            StartDecodeStatus::Error(e) => {
                                proof {
                                    let n2 = choose|n2: int|
                                        #![trigger mid.skip(n2)]
                                        {
                                            &&& 0 <= n2 <= mid.len()
                                            &&& reader.remaining() == mid.skip(n2)
                                            &&& (Self::decode_spec(committed.add(Seq::empty()).add(mid.take(n2))) is Bad ==> e == Error::InvalidData)
                                            &&& !(Self::decode_spec(committed.add(Seq::empty()).add(mid.take(n2))) is Done)
                                        };
                                    assert(mid.take(n2) =~= all.subrange(n1, n1 + n2));
                                    assert(mid.skip(n2) =~= all.skip(n1 + n2));
                                    assert(committed.add(Seq::empty()).add(all.subrange(n1, n1 + n2)) =~= t0.add(all.take(n1 + n2)));
                                }
                                PollDecodeStatus::Error(e)
                            },
                        }
                    },
                    PollDecodeStatus::Pending => {
                        self.cursor = SeqDecodeCursor::Len(sub);
                        PollDecodeStatus::Pending
                    },
                    PollDecodeStatus::Error(e) => {
                        proof {
                            let n = choose|n: int|
                                #![trigger all.skip(n)]
                                {
                                    &&& 0 <= n <= all.len()
                                    &&& reader.remaining() == all.skip(n)
                                    &&& (<F::DecodeSequenceLen as Decode>::decode_spec(t0.add(all.take(n))) is Bad ==> e == Error::InvalidData)
                                    &&& !(<F::DecodeSequenceLen as Decode>::decode_spec(t0.add(all.take(n))) is Done)
                                };
                            assert(Self::decode_spec(t0.add(all.take(n))) is Bad ==> e == Error::InvalidData);
                            assert(!(Self::decode_spec(t0.add(all.take(n))) is Done));
                        }
                        PollDecodeStatus::Error(e)
                    },
                }
            },
            SeqDecodeCursor::Cur(target, mut acc, mut sub) => {
                let ghost t0 = sub.taken();
                match sub.poll_decode(reader) {
                    PollDecodeStatus::Fini(d) => {
                        let ghost n1 = choose|n1: int|
                            #![trigger all.take(n1)]
                            {
                                &&& 0 <= n1 <= all.len()
                                &&& reader.remaining() == all.skip(n1)
                                &&& D::decode_spec(t0.add(all.take(n1))) == DecOutcome::Done(D::model(d), t0.len() + n1)
                            };
                        let ghost item_bytes = t0.add(all.take(n1));
                        let ghost items_committed = items_b.add(item_bytes);
                        proof {
                            lemma_items_dec_snoc::<D>(items_b, seq_models::<D>(acc.elems()), item_bytes, D::model(d));
                            lemma_seq_models_push::<D>(acc.elems(), d);
                        }
                        let ghost mid = reader.remaining();
                        acc.append(d);
                        match Self::items_from(target, acc, reader, Ghost(hdr_b), Ghost(items_committed)) {
                            StartDecodeStatus::Fini(c) => {
                                self.cursor = SeqDecodeCursor::Fini;
                                proof {
                                    let n2 = choose|n2: int|
                                        #![trigger mid.take(n2)]
                                        {
                                            &&& 0 <= n2 <= mid.len()
                                            &&& reader.remaining() == mid.skip(n2)
                                            &&& Self::decode_spec(hdr_b.add(items_committed).add(mid.take(n2))) == DecOutcome::Done(Self::model(c), hdr_b.len() + items_committed.len() + n2)
                                        };
                                    assert(mid.take(n2) =~= all.subrange(n1, n1 + n2));
                                    assert(mid.skip(n2) =~= all.skip(n1 + n2));
                                    assert(hdr_b.add(items_committed).add(all.subrange(n1, n1 + n2)) =~= hdr_b.add(items_b).add(t0).add(all.take(n1 + n2)));
                                }
                                PollDecodeStatus::Fini(c)
                            },
                            StartDecodeStatus::Pending(s) => {
                                *self = s;
                                proof {
                                    let n2 = choose|n2: int|
                                        #![trigger mid.take(n2)]
                                        {
                                            &&& 0 <= n2 <= mid.len()
                                            &&& reader.remaining() == mid.skip(n2)
                                            &&& self.taken() == hdr_b.add(items_committed).add(mid.take(n2))
                                        };
                                    assert(mid.take(n2) =~= all.subrange(n1, n1 + n2));
                                    assert(mid.skip(n2) =~= all.skip(n1 + n2));
                                    assert(hdr_b.add(items_committed).add(all.subrange(n1, n1 + n2)) =~= hdr_b.add(items_b).add(t0).add(all.take(n1 + n2)));
                                }
                                PollDecodeStatus::Pending
                            },
                            StartDecodeStatus::Error(e) => {
                                proof {
                                    let n2 = choose|n2: int|
                                        #![trigger mid.skip(n2)]
                                        {
                                            &&& 0 <= n2 <= mid.len()
                                            &&& reader.remaining() == mid.skip(n2)
                                            &&& (Self::decode_spec(hdr_b.add(items_committed).add(mid.take(n2))) is Bad ==> e == Error::InvalidData)
                                            &&& !(Self::decode_spec(hdr_b.add(items_committed).add(mid.take(n2))) is Done)
                                        };
                                    assert(mid.take(n2) =~= all.subrange(n1, n1 + n2));
                                    assert(mid.skip(n2) =~= all.skip(n1 + n2));
                                    assert(hdr_b.add(items_committed).add(all.subrange(n1, n1 + n2)) =~= hdr_b.add(items_b).add(t0).add(all.take(n1 + n2)));
                                    assert(hdr_b.add(items_b).add(t0).add(all.take(n1 + n2)) =~= hdr_b.add(items_b).add(t0.add(all.take(n1 + n2))));
                                }
                                PollDecodeStatus::Error(e)
                            },
                        }
                    },
                    PollDecodeStatus::Pending => {
                        self.cursor = SeqDecodeCursor::Cur(target, acc, sub);
                        self.hdr_taken = Ghost(hdr_b);
                        self.items_taken = Ghost(items_b);
                        proof {
                            let n = choose|n: int|
                                #![trigger all.take(n)]
                                {
                                    &&& 0 <= n <= all.len()
                                    &&& reader.remaining() == all.skip(n)
                                    &&& sub.taken() == t0.add(all.take(n))
                                };
                            assert(hdr_b.add(items_b).add(t0.add(all.take(n))) =~= hdr_b.add(items_b).add(t0).add(all.take(n)));
                        }
                        PollDecodeStatus::Pending
                    },
                    PollDecodeStatus::Error(e) => {
                        proof {
                            let n = choose|n: int|
                                #![trigger all.skip(n)]
                                {
                                    &&& 0 <= n <= all.len()
                                    &&& reader.remaining() == all.skip(n)
                                    &&& (D::decode_spec(t0.add(all.take(n))) is Bad ==> e == Error::InvalidData)
                                    &&& !(D::decode_spec(t0.add(all.take(n))) is Done)
                                };
                            crate::codec::lemma_dec_lawful::<F::DecodeSequenceLen>();
                            let total = hdr_b.add(items_b).add(t0).add(all.take(n));
                            assert(total =~= hdr_b.add(items_b.add(t0.add(all.take(n)))));
                            assert(<F::DecodeSequenceLen as Decode>::decode_spec(total) == DecOutcome::Done(SequenceLen(target), hdr_b.len() as int));
                            assert(total.skip(hdr_b.len() as int) =~= items_b.add(t0.add(all.take(n))));
                            lemma_items_dec_prepend::<D>(items_b, seq_models::<D>(acc.elems()), t0.add(all.take(n)), target as nat);
                            assert(hdr_b.add(items_b).add(t0).add(all.take(n)) =~= hdr_b.add(items_b).add(t0.add(all.take(n))));
                            assert(Self::decode_spec(hdr_b.add(items_b).add(t0.add(all.take(n)))) is Bad ==> e == Error::InvalidData);
                            assert(!(Self::decode_spec(hdr_b.add(items_b).add(t0.add(all.take(n)))) is Done));
                        }
                        PollDecodeStatus::Error(e)
                    },
                }
            },
            SeqDecodeCursor::Fini => {
                PollDecodeStatus::Error(crate::io::invalid_input())
            },
            SeqDecodeCursor::Failed => {
                PollDecodeStatus::Error(crate::io::invalid_input())
            },
        }
    }
}

/// The round-trip law for element runs: whenever the element pair agrees,
/// a run of wire images parses back to the run of observations.
pub proof fn lemma_items_round_trip<E: Encode, D: Decode<Data = <E as Encode>::Data>>(elems: Seq<<E as Encode>::Data>, rest: Seq<u8>)
    requires
        round_trips::<E, D>(),
        forall|i: int| 0 <= i < elems.len() ==> E::encodable(#[trigger] elems[i]),
    ensures
        seq_items_dec::<D>(seq_items_enc::<E>(elems).add(rest), elems.len()) == DecOutcome::Done(seq_models::<D>(elems), seq_items_enc::<E>(elems).len() as int),
    decreases elems.len(),
{
    if elems.len() == 0 {
        assert(seq_items_enc::<E>(elems) =~= Seq::<u8>::empty());
        assert(seq_models::<D>(elems) =~= Seq::<<D as Decode>::Model>::empty());
    } else {
        let e0 = elems[0];
        let drop = elems.drop_first();
        let whole = seq_items_enc::<E>(elems).add(rest);
        assert(whole =~= E::encoding(e0).add(seq_items_enc::<E>(drop).add(rest)));
        assert(D::decode_spec(E::encoding(e0).add(seq_items_enc::<E>(drop).add(rest))) == DecOutcome::Done(D::model(e0), E::encoding(e0).len() as int));
        assert(whole.skip(E::encoding(e0).len() as int) =~= seq_items_enc::<E>(drop).add(rest));
        assert forall|i: int| 0 <= i < drop.len() implies E::encodable(#[trigger] drop[i]) by {
            assert(drop[i] == elems[i + 1]);
        }
        lemma_items_round_trip::<E, D>(drop, rest);
        assert(Seq::empty().push(D::model(e0)).add(seq_models::<D>(drop)) =~= seq_models::<D>(elems));
    }
}

/// The round-trip law for containers: whenever the element
/// encoder/decoder pair agrees, so does the container pair, under any
/// format.  Decoding a stream that starts with the wire image of a
/// container yields exactly its elements' observations, consuming exactly
/// the wire image.
pub proof fn lemma_seq_round_trips<F: Format, E: Encode, D: Decode<Data = <E as Encode>::Data>, C: SeqApi<<E as Encode>::Data>>()
    requires
        round_trips::<E, D>(),
    ensures
        round_trips::<SeqEncode<F, E, C>, SeqDecode<F, D, C>>(),
{
    F::lemma_sequence_len_round_trip();
    assert forall|d: C, rest: Seq<u8>|
        <SeqEncode<F, E, C> as Encode>::encodable(d) implies #[trigger] <SeqDecode<F, D, C> as Decode>::decode_spec(<SeqEncode<F, E, C> as Encode>::encoding(d).add(rest)) == DecOutcome::<Seq<<D as Decode>::Model>>::Done(<SeqDecode<F, D, C> as Decode>::model(d), <SeqEncode<F, E, C> as Encode>::encoding(d).len() as int) by {
        let elems = d.elems();
        let l = SequenceLen(elems.len() as usize);
        F::lemma_sequence_len_model(l);
        let hdr = <F::EncodeSequenceLen as Encode>::encoding(l);
        let items = seq_items_enc::<E>(elems);
        let whole = <SeqEncode<F, E, C> as Encode>::encoding(d).add(rest);
        assert(whole =~= hdr.add(items.add(rest)));
        assert(<F::DecodeSequenceLen as Decode>::decode_spec(hdr.add(items.add(rest))) == DecOutcome::Done(l, hdr.len() as int));
        assert(whole.skip(hdr.len() as int) =~= items.add(rest));
        lemma_items_round_trip::<E, D>(elems, rest);
        assert(l.0 as nat == elems.len());
    }
}

impl<F: Format, E: AsyncSerialization, C: SeqApi<<E as Encode>::Data>> AsyncSerialization for SeqEncode<F, E, C> {
    type Dec = SeqDecode<F, <E as AsyncSerialization>::Dec, C>;

    proof fn lemma_round_trip() {
        E::lemma_round_trip();
        lemma_seq_round_trips::<F, E, <E as AsyncSerialization>::Dec, C>();
    }
}

} // verus!
