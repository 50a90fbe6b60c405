use diny::codec::{Decode, Encode, PollDecodeStatus, PollEncodeStatus};
use diny::format::{Formatter, PrimDecode, PrimEncode};
use diny::intrinsic::result::{ResultDecode, ResultEncode};
use diny::util::{AsyncSliceReader, AsyncSliceWriter, ThrottledReader, ThrottledWriter};

const VAR_IDX_LEN: usize = 4;

type ResEnc = ResultEncode<Formatter, PrimEncode<bool>, PrimEncode<u64>>;
type ResDec = ResultDecode<Formatter, PrimDecode<bool>, PrimDecode<u64>>;

fn encode_all<E: Encode>(data: &E::Data) -> Vec<u8> {
    let mut w = AsyncSliceWriter::new(1 << 20);
    let mut enc = E::init(data);
    loop {
        match enc.poll_encode(&mut w, data) {
            PollEncodeStatus::Fini => break,
            PollEncodeStatus::Pending => {}
            PollEncodeStatus::Error(_) => panic!("unable to encode"),
        }
    }
    w.into_written()
}

fn encode_throttled<E: Encode>(data: &E::Data) -> Vec<u8> {
    let mut w = ThrottledWriter::new(1 << 20);
    let mut enc = E::init(data);
    loop {
        match enc.poll_encode(&mut w, data) {
            PollEncodeStatus::Fini => break,
            PollEncodeStatus::Pending => {}
            PollEncodeStatus::Error(_) => panic!("unable to encode"),
        }
    }
    w.into_written()
}

fn decode_all<D: Decode>(bytes: Vec<u8>) -> (D::Data, usize) {
    let mut r = AsyncSliceReader::new(bytes);
    let mut dec = D::init();
    loop {
        match dec.poll_decode(&mut r) {
            PollDecodeStatus::Fini(d) => return (d, r.bytes_read()),
            PollDecodeStatus::Pending => {}
            PollDecodeStatus::Error(_) => panic!("unable to decode"),
        }
    }
}

fn decode_throttled<D: Decode>(bytes: Vec<u8>) -> D::Data {
    let mut r = ThrottledReader::new(bytes);
    let mut dec = D::init();
    loop {
        match dec.poll_decode(&mut r) {
            PollDecodeStatus::Fini(d) => return d,
            PollDecodeStatus::Pending => {}
            PollDecodeStatus::Error(_) => panic!("unable to decode"),
        }
    }
}

fn test_serialize_exact<E, D>(data: &E::Data, expected_len: usize)
where
    E: Encode,
    D: Decode<Data = E::Data>,
    E::Data: PartialEq,
{
    let bytes = encode_all::<E>(data);
    assert_eq!(bytes.len(), expected_len);
    let throttled = encode_throttled::<E>(data);
    assert_eq!(throttled, bytes);
    let (decoded, consumed) = decode_all::<D>(bytes.clone());
    assert_eq!(consumed, expected_len);
    assert!(decoded == *data);
    let decoded_throttled = decode_throttled::<D>(bytes);
    assert!(decoded_throttled == *data);
}

#[test]
fn can_serialize_result_ok() {
    test_serialize_exact::<ResEnc, ResDec>(&Ok(true), VAR_IDX_LEN + 1);
}

#[test]
fn can_serialize_result_err() {
    test_serialize_exact::<ResEnc, ResDec>(&Err(5), VAR_IDX_LEN + 8);
}

#[test]
fn result_unknown_discriminant_is_a_data_error() {
    let bytes = vec![2u8, 0, 0, 0, 1];
    let mut r = AsyncSliceReader::new(bytes);
    let mut dec = <ResDec as Decode>::init();
    loop {
        match dec.poll_decode(&mut r) {
            PollDecodeStatus::Fini(_) => panic!("decoded an unknown discriminant"),
            PollDecodeStatus::Pending => {}
            PollDecodeStatus::Error(e) => {
                assert_eq!(e, diny::io::Error::InvalidData);
                break;
            }
        }
    }
}
