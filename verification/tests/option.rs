use diny::codec::{Decode, Encode, PollDecodeStatus, PollEncodeStatus};
use diny::format::{Formatter, PrimDecode, PrimEncode};
use diny::intrinsic::option::{OptionDecode, OptionEncode};
use diny::util::{AsyncSliceReader, AsyncSliceWriter, ThrottledReader, ThrottledWriter};

const VAR_IDX_LEN: usize = 4;

type OptEnc<E> = OptionEncode<Formatter, E>;
type OptDec<D> = OptionDecode<Formatter, D>;

fn encode_all<E: Encode>(data: &E::Data) -> Vec<u8> {
    let mut w = AsyncSliceWriter::new(1 << 20);
    let mut enc = E::init(data);
    loop {
        match enc.poll_encode(&mut w, data) {
            PollEncodeStatus::Fini => break,
            PollEncodeStatus::Pending => {}
            PollEncodeStatus::Error(_) => panic!("unable to encode"),
        }
    }
    w.into_written()
}

fn encode_throttled<E: Encode>(data: &E::Data) -> Vec<u8> {
    let mut w = ThrottledWriter::new(1 << 20);
    let mut enc = E::init(data);
    loop {
        match enc.poll_encode(&mut w, data) {
            PollEncodeStatus::Fini => break,
            PollEncodeStatus::Pending => {}
            PollEncodeStatus::Error(_) => panic!("unable to encode"),
        }
    }
    w.into_written()
}

fn decode_all<D: Decode>(bytes: Vec<u8>) -> (D::Data, usize) {
    let mut r = AsyncSliceReader::new(bytes);
    let mut dec = D::init();
    loop {
        match dec.poll_decode(&mut r) {
            PollDecodeStatus::Fini(d) => return (d, r.bytes_read()),
            PollDecodeStatus::Pending => {}
            PollDecodeStatus::Error(_) => panic!("unable to decode"),
        }
    }
}

fn decode_throttled<D: Decode>(bytes: Vec<u8>) -> D::Data {
    let mut r = ThrottledReader::new(bytes);
    let mut dec = D::init();
    loop {
        match dec.poll_decode(&mut r) {
            PollDecodeStatus::Fini(d) => return d,
            PollDecodeStatus::Pending => {}
            PollDecodeStatus::Error(_) => panic!("unable to decode"),
        }
    }
}

fn test_serialize_exact<E, D>(data: &E::Data, expected_len: usize)
where
    E: Encode,
    D: Decode<Data = E::Data>,
    E::Data: PartialEq,
{
    let bytes = encode_all::<E>(data);
    assert_eq!(bytes.len(), expected_len);
    let throttled = encode_throttled::<E>(data);
    assert_eq!(throttled, bytes);
    let (decoded, consumed) = decode_all::<D>(bytes.clone());
    assert_eq!(consumed, expected_len);
    assert!(decoded == *data);
    let decoded_throttled = decode_throttled::<D>(bytes);
    assert!(decoded_throttled == *data);
}

fn opt_prim_exact<P: diny::format::Prim + PartialEq>(data: &Option<P>, expected_len: usize) {
    test_serialize_exact::<OptEnc<PrimEncode<P>>, OptDec<PrimDecode<P>>>(data, expected_len);
}

#[test]
fn can_serialize_none() {
    opt_prim_exact::<u64>(&None, VAR_IDX_LEN);
}

#[test]
fn can_serialize_option_unit() {
    test_serialize_exact::<OptEnc<diny::format::EncodeUnit>, OptDec<diny::format::DecodeUnit>>(&Some(()), VAR_IDX_LEN);
}

#[test]
fn can_serialize_option_bool() {
    opt_prim_exact::<bool>(&Some(false), VAR_IDX_LEN + 1);
}

#[test]
fn can_serialize_option_u8() {
    opt_prim_exact::<u8>(&Some(0), VAR_IDX_LEN + 1);
}

#[test]
fn can_serialize_option_u16() {
    opt_prim_exact::<u16>(&Some(0), VAR_IDX_LEN + 2);
}

#[test]
fn can_serialize_option_u32() {
    opt_prim_exact::<u32>(&Some(0), VAR_IDX_LEN + 4);
}

#[test]
fn can_serialize_option_u64() {
    opt_prim_exact::<u64>(&Some(0), VAR_IDX_LEN + 8);
}

#[test]
fn can_serialize_option_i8() {
    opt_prim_exact::<i8>(&Some(0), VAR_IDX_LEN + 1);
}

#[test]
fn can_serialize_option_i16() {
    opt_prim_exact::<i16>(&Some(0), VAR_IDX_LEN + 2);
}

#[test]
fn can_serialize_option_i32() {
    opt_prim_exact::<i32>(&Some(0), VAR_IDX_LEN + 4);
}

#[test]
fn can_serialize_option_i64() {
    opt_prim_exact::<i64>(&Some(0), VAR_IDX_LEN + 8);
}

#[test]
fn nested_options_round_trip() {
    type E = OptEnc<OptEnc<PrimEncode<u32>>>;
    type D = OptDec<OptDec<PrimDecode<u32>>>;
    test_serialize_exact::<E, D>(&Some(Some(2u32.pow(26))), 2 * VAR_IDX_LEN + 4);
    test_serialize_exact::<E, D>(&Some(None), 2 * VAR_IDX_LEN);
    test_serialize_exact::<E, D>(&None, VAR_IDX_LEN);
}

#[test]
fn some_u16_has_exact_wire_bytes() {
    let bytes = encode_all::<OptEnc<PrimEncode<u16>>>(&Some(5u16));
    assert_eq!(bytes, vec![1, 0, 0, 0, 5, 0]);
    let (decoded, consumed) = decode_all::<OptDec<PrimDecode<u16>>>(bytes);
    assert_eq!(consumed, 6);
    assert_eq!(decoded, Some(5u16));
}

#[test]
fn unknown_discriminant_is_a_data_error() {
    let bytes = vec![7u8, 0, 0, 0, 5, 0];
    let mut r = AsyncSliceReader::new(bytes);
    let mut dec = <OptDec<PrimDecode<u16>> as Decode>::init();
    loop {
        match dec.poll_decode(&mut r) {
            PollDecodeStatus::Fini(_) => panic!("decoded an unknown discriminant"),
            PollDecodeStatus::Pending => {}
            PollDecodeStatus::Error(e) => {
                assert_eq!(e, diny::io::Error::InvalidData);
                break;
            }
        }
    }
    match dec.poll_decode(&mut r) {
        PollDecodeStatus::Error(e) => assert_eq!(e, diny::io::Error::InvalidInput),
        _ => panic!("polling a failed decoder must fail again"),
    }
}

#[test]
fn truncated_input_is_an_eof_error() {
    let bytes = vec![1u8, 0, 0, 0, 5];
    let mut r = AsyncSliceReader::new(bytes);
    let mut dec = <OptDec<PrimDecode<u16>> as Decode>::init();
    loop {
        match dec.poll_decode(&mut r) {
            PollDecodeStatus::Fini(_) => panic!("decoded truncated input"),
            PollDecodeStatus::Pending => {}
            PollDecodeStatus::Error(e) => {
                assert_eq!(e, diny::io::Error::UnexpectedEof);
                break;
            }
        }
    }
}
