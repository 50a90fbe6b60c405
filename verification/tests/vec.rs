use diny::codec::{Decode, Encode, PollDecodeStatus, PollEncodeStatus};
use diny::collection::seq::{SeqDecode, SeqEncode};
use diny::format::{Formatter, PrimDecode, PrimEncode};
use diny::intrinsic::option::{OptionDecode, OptionEncode};
use diny::util::{AsyncSliceReader, AsyncSliceWriter, ThrottledReader, ThrottledWriter};

const SEQ_LEN: usize = 8;

type VecEnc<E, T> = SeqEncode<Formatter, E, Vec<T>>;
type VecDec<D, T> = SeqDecode<Formatter, D, Vec<T>>;

fn encode_all<E: Encode>(data: &E::Data) -> Vec<u8> {
    let mut w = AsyncSliceWriter::new(1 << 20);
    let mut enc = E::init(data);
    loop {
        match enc.poll_encode(&mut w, data) {
            PollEncodeStatus::Fini => break,
            PollEncodeStatus::Pending => {}
            PollEncodeStatus::Error(_) => panic!("unable to encode"),
        }
    }
    w.into_written()
}

fn encode_throttled<E: Encode>(data: &E::Data) -> Vec<u8> {
    let mut w = ThrottledWriter::new(1 << 20);
    let mut enc = E::init(data);
    loop {
        match enc.poll_encode(&mut w, data) {
            PollEncodeStatus::Fini => break,
            PollEncodeStatus::Pending => {}
            PollEncodeStatus::Error(_) => panic!("unable to encode"),
        }
    }
    w.into_written()
}

fn decode_all<D: Decode>(bytes: Vec<u8>) -> (D::Data, usize) {
    let mut r = AsyncSliceReader::new(bytes);
    let mut dec = D::init();
    loop {
        match dec.poll_decode(&mut r) {
            PollDecodeStatus::Fini(d) => return (d, r.bytes_read()),
            PollDecodeStatus::Pending => {}
            PollDecodeStatus::Error(_) => panic!("unable to decode"),
        }
    }
}

fn decode_throttled<D: Decode>(bytes: Vec<u8>) -> D::Data {
    let mut r = ThrottledReader::new(bytes);
    let mut dec = D::init();
    loop {
        match dec.poll_decode(&mut r) {
            PollDecodeStatus::Fini(d) => return d,
            PollDecodeStatus::Pending => {}
            PollDecodeStatus::Error(_) => panic!("unable to decode"),
        }
    }
}

fn test_serialize_exact<E, D>(data: &E::Data, expected_len: usize)
where
    E: Encode,
    D: Decode<Data = E::Data>,
    E::Data: PartialEq,
{
    let bytes = encode_all::<E>(data);
    assert_eq!(bytes.len(), expected_len);
    let throttled = encode_throttled::<E>(data);
    assert_eq!(throttled, bytes);
    let (decoded, consumed) = decode_all::<D>(bytes.clone());
    assert_eq!(consumed, expected_len);
    assert!(decoded == *data);
    let decoded_throttled = decode_throttled::<D>(bytes);
    assert!(decoded_throttled == *data);
}

fn test_serialize<E, D>(data: &E::Data)
where
    E: Encode,
    D: Decode<Data = E::Data>,
    E::Data: PartialEq,
{
    let bytes = encode_all::<E>(data);
    let throttled = encode_throttled::<E>(data);
    assert_eq!(throttled, bytes);
    let (decoded, consumed) = decode_all::<D>(bytes.clone());
    assert_eq!(consumed, bytes.len());
    assert!(decoded == *data);
}

#[test]
fn can_serialize_empty_vec() {
    test_serialize_exact::<VecEnc<PrimEncode<u64>, u64>, VecDec<PrimDecode<u64>, u64>>(&Vec::new(), SEQ_LEN);
}

#[test]
fn can_serialize_vec_single() {
    test_serialize_exact::<VecEnc<PrimEncode<u64>, u64>, VecDec<PrimDecode<u64>, u64>>(&vec![5], SEQ_LEN + 8);
}

#[test]
fn can_serialize_vec_multiple() {
    test_serialize_exact::<VecEnc<PrimEncode<u64>, u64>, VecDec<PrimDecode<u64>, u64>>(&vec![1, 2, 3], SEQ_LEN + 8 * 3);
}

#[test]
fn can_serialize_vec_large() {
    test_serialize::<VecEnc<PrimEncode<u64>, u64>, VecDec<PrimDecode<u64>, u64>>(&vec![12345678u64; 30]);
}

#[test]
fn can_serialize_vec_of_options() {
    type E = VecEnc<OptionEncode<Formatter, PrimEncode<u64>>, Option<u64>>;
    type D = VecDec<OptionDecode<Formatter, PrimDecode<u64>>, Option<u64>>;
    test_serialize::<E, D>(&vec![Some(1), None, Some(3)]);
}

#[test]
fn empty_vec_has_exact_wire_bytes() {
    let bytes = encode_all::<VecEnc<PrimEncode<u64>, u64>>(&Vec::new());
    assert_eq!(bytes, vec![0u8; 8]);
    let (decoded, consumed) = decode_all::<VecDec<PrimDecode<u64>, u64>>(bytes);
    assert_eq!(consumed, 8);
    assert!(decoded.is_empty());
}

#[test]
fn one_element_appends_exactly_its_width() {
    let empty = encode_all::<VecEnc<PrimEncode<u64>, u64>>(&Vec::new());
    let one = encode_all::<VecEnc<PrimEncode<u64>, u64>>(&vec![9u64]);
    assert_eq!(one.len(), empty.len() + 8);
}
