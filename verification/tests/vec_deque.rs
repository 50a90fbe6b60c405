use std::collections::VecDeque;

use diny::codec::{Decode, Encode, PollDecodeStatus, PollEncodeStatus};
use diny::collection::seq::{SeqDecode, SeqEncode};
use diny::format::{Formatter, PrimDecode, PrimEncode};
use diny::util::{AsyncSliceReader, AsyncSliceWriter, ThrottledReader, ThrottledWriter};

const SEQ_LEN: usize = 8;

type Enc = SeqEncode<Formatter, PrimEncode<u64>, VecDeque<u64>>;
type Dec = SeqDecode<Formatter, PrimDecode<u64>, VecDeque<u64>>;

fn encode_all<E: Encode>(data: &E::Data) -> Vec<u8> {
    let mut w = AsyncSliceWriter::new(1 << 20);
    let mut enc = E::init(data);
    loop {
        match enc.poll_encode(&mut w, data) {
            PollEncodeStatus::Fini => break,
            PollEncodeStatus::Pending => {}
            PollEncodeStatus::Error(_) => panic!("unable to encode"),
        }
    }
    w.into_written()
}

fn encode_throttled<E: Encode>(data: &E::Data) -> Vec<u8> {
    let mut w = ThrottledWriter::new(1 << 20);
    let mut enc = E::init(data);
    loop {
        match enc.poll_encode(&mut w, data) {
            PollEncodeStatus::Fini => break,
            PollEncodeStatus::Pending => {}
            PollEncodeStatus::Error(_) => panic!("unable to encode"),
        }
    }
    w.into_written()
}

fn decode_all<D: Decode>(bytes: Vec<u8>) -> (D::Data, usize) {
    let mut r = AsyncSliceReader::new(bytes);
    let mut dec = D::init();
    loop {
        match dec.poll_decode(&mut r) {
            PollDecodeStatus::Fini(d) => return (d, r.bytes_read()),
            PollDecodeStatus::Pending => {}
            PollDecodeStatus::Error(_) => panic!("unable to decode"),
        }
    }
}

fn decode_throttled<D: Decode>(bytes: Vec<u8>) -> D::Data {
    let mut r = ThrottledReader::new(bytes);
    let mut dec = D::init();
    loop {
        match dec.poll_decode(&mut r) {
            PollDecodeStatus::Fini(d) => return d,
            PollDecodeStatus::Pending => {}
            PollDecodeStatus::Error(_) => panic!("unable to decode"),
        }
    }
}

fn test_serialize_exact(data: VecDeque<u64>, expected_len: usize) {
    let bytes = encode_all::<Enc>(&data);
    assert_eq!(bytes.len(), expected_len);
    let throttled = encode_throttled::<Enc>(&data);
    assert_eq!(throttled, bytes);
    let (decoded, consumed) = decode_all::<Dec>(bytes.clone());
    assert_eq!(consumed, expected_len);
    assert!(decoded == data);
    let decoded_throttled = decode_throttled::<Dec>(bytes);
    assert!(decoded_throttled == data);
}

#[test]
fn can_serialize_empty_vec_deque() {
    test_serialize_exact(VecDeque::new(), SEQ_LEN);
}

#[test]
fn can_serialize_vec_deque_single() {
    let mut vd = VecDeque::new();
    vd.push_back(1);
    test_serialize_exact(vd, SEQ_LEN + 8);
}

#[test]
fn can_serialize_vec_deque_multiple() {
    let mut vd = VecDeque::new();
    vd.push_back(1);
    vd.push_back(2);
    vd.push_back(3);
    test_serialize_exact(vd, SEQ_LEN + 8 * 3);
}
