use diny::codec::{Decode, Encode, PollDecodeStatus, PollEncodeStatus};
use diny::collection::map::{MapDecode, MapEncode};
use diny::collection::MapApi;
use diny::format::{Formatter, PrimDecode, PrimEncode};
use diny::intrinsic::pair::{PairDecode, PairEncode};
use diny::util::{AsyncSliceReader, AsyncSliceWriter, ThrottledReader, ThrottledWriter};

const SEQ_LEN: usize = 8;

type Enc = MapEncode<Formatter, PrimEncode<u8>, PrimEncode<u64>>;
type Dec = MapDecode<Formatter, PrimDecode<u8>, PrimDecode<u64>>;

fn encode_all<E: Encode>(data: &E::Data) -> Vec<u8> {
    let mut w = AsyncSliceWriter::new(1 << 20);
    let mut enc = E::init(data);
    loop {
        match enc.poll_encode(&mut w, data) {
            PollEncodeStatus::Fini => break,
            PollEncodeStatus::Pending => {}
            PollEncodeStatus::Error(_) => panic!("unable to encode"),
        }
    }
    w.into_written()
}

fn encode_throttled<E: Encode>(data: &E::Data) -> Vec<u8> {
    let mut w = ThrottledWriter::new(1 << 20);
    let mut enc = E::init(data);
    loop {
        match enc.poll_encode(&mut w, data) {
            PollEncodeStatus::Fini => break,
            PollEncodeStatus::Pending => {}
            PollEncodeStatus::Error(_) => panic!("unable to encode"),
        }
    }
    w.into_written()
}

fn decode_all<D: Decode>(bytes: Vec<u8>) -> (D::Data, usize) {
    let mut r = AsyncSliceReader::new(bytes);
    let mut dec = D::init();
    loop {
        match dec.poll_decode(&mut r) {
            PollDecodeStatus::Fini(d) => return (d, r.bytes_read()),
            PollDecodeStatus::Pending => {}
            PollDecodeStatus::Error(_) => panic!("unable to decode"),
        }
    }
}

fn decode_throttled<D: Decode>(bytes: Vec<u8>) -> D::Data {
    let mut r = ThrottledReader::new(bytes);
    let mut dec = D::init();
    loop {
        match dec.poll_decode(&mut r) {
            PollDecodeStatus::Fini(d) => return d,
            PollDecodeStatus::Pending => {}
            PollDecodeStatus::Error(_) => panic!("unable to decode"),
        }
    }
}

fn test_serialize_exact<E, D>(data: &E::Data, expected_len: usize)
where
    E: Encode,
    D: Decode<Data = E::Data>,
    E::Data: PartialEq,
{
    let bytes = encode_all::<E>(data);
    assert_eq!(bytes.len(), expected_len);
    let throttled = encode_throttled::<E>(data);
    assert_eq!(throttled, bytes);
    let (decoded, consumed) = decode_all::<D>(bytes.clone());
    assert_eq!(consumed, expected_len);
    assert!(decoded == *data);
    let decoded_throttled = decode_throttled::<D>(bytes);
    assert!(decoded_throttled == *data);
}

#[test]
fn can_serialize_empty_map() {
    let entries: Vec<(u8, u64)> = <Vec<(u8, u64)> as MapApi<u8, u64>>::new();
    test_serialize_exact::<Enc, Dec>(&entries, SEQ_LEN);
}

#[test]
fn can_serialize_map_single_entry() {
    let mut entries: Vec<(u8, u64)> = Vec::new();
    MapApi::append(&mut entries, 3u8, 30u64);
    test_serialize_exact::<Enc, Dec>(&entries, SEQ_LEN + (1 + 8));
}

#[test]
fn can_serialize_map_multiple_entries() {
    let mut entries: Vec<(u8, u64)> = Vec::new();
    MapApi::append(&mut entries, 1u8, 10u64);
    MapApi::append(&mut entries, 2u8, 20u64);
    MapApi::append(&mut entries, 3u8, 30u64);
    test_serialize_exact::<Enc, Dec>(&entries, SEQ_LEN + 3 * (1 + 8));
}

#[test]
fn entry_keeps_key_before_value_on_the_wire() {
    type PairEnc = PairEncode<PrimEncode<u8>, PrimEncode<u16>>;
    type PairDec = PairDecode<PrimDecode<u8>, PrimDecode<u16>>;
    let bytes = encode_all::<PairEnc>(&(0xAAu8, 0x0102u16));
    assert_eq!(bytes, vec![0xAA, 0x02, 0x01]);
    let (decoded, consumed) = decode_all::<PairDec>(bytes);
    assert_eq!(consumed, 3);
    assert_eq!(decoded, (0xAAu8, 0x0102u16));
}
