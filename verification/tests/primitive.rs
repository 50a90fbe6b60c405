use diny::codec::{Decode, Encode, PollDecodeStatus, PollEncodeStatus};
use diny::format::{DecodeUnit, EncodeUnit, PrimDecode, PrimEncode};
use diny::util::{AsyncSliceReader, AsyncSliceWriter, ThrottledReader, ThrottledWriter};

fn encode_all<E: Encode>(data: &E::Data) -> Vec<u8> {
    let mut w = AsyncSliceWriter::new(1 << 20);
    let mut enc = E::init(data);
    loop {
        match enc.poll_encode(&mut w, data) {
            PollEncodeStatus::Fini => break,
            PollEncodeStatus::Pending => {}
            PollEncodeStatus::Error(_) => panic!("unable to encode"),
        }
    }
    w.into_written()
}

fn encode_throttled<E: Encode>(data: &E::Data) -> Vec<u8> {
    let mut w = ThrottledWriter::new(1 << 20);
    let mut enc = E::init(data);
    loop {
        match enc.poll_encode(&mut w, data) {
            PollEncodeStatus::Fini => break,
            PollEncodeStatus::Pending => {}
            PollEncodeStatus::Error(_) => panic!("unable to encode"),
        }
    }
    w.into_written()
}

fn decode_all<D: Decode>(bytes: Vec<u8>) -> (D::Data, usize) {
    let mut r = AsyncSliceReader::new(bytes);
    let mut dec = D::init();
    loop {
        match dec.poll_decode(&mut r) {
            PollDecodeStatus::Fini(d) => return (d, r.bytes_read()),
            PollDecodeStatus::Pending => {}
            PollDecodeStatus::Error(_) => panic!("unable to decode"),
        }
    }
}

fn decode_throttled<D: Decode>(bytes: Vec<u8>) -> D::Data {
    let mut r = ThrottledReader::new(bytes);
    let mut dec = D::init();
    loop {
        match dec.poll_decode(&mut r) {
            PollDecodeStatus::Fini(d) => return d,
            PollDecodeStatus::Pending => {}
            PollDecodeStatus::Error(_) => panic!("unable to decode"),
        }
    }
}

fn test_serialize_exact<E, D>(data: &E::Data, expected_len: usize)
where
    E: Encode,
    D: Decode<Data = E::Data>,
    E::Data: PartialEq,
{
    let bytes = encode_all::<E>(data);
    assert_eq!(bytes.len(), expected_len);
    let throttled = encode_throttled::<E>(data);
    assert_eq!(throttled, bytes);
    let (decoded, consumed) = decode_all::<D>(bytes.clone());
    assert_eq!(consumed, expected_len);
    assert!(decoded == *data);
    let decoded_throttled = decode_throttled::<D>(bytes);
    assert!(decoded_throttled == *data);
}

fn prim_exact<P: diny::format::Prim + PartialEq>(data: &P, expected_len: usize) {
    test_serialize_exact::<PrimEncode<P>, PrimDecode<P>>(data, expected_len);
}

#[test]
fn can_serialize_unit() {
    test_serialize_exact::<EncodeUnit, DecodeUnit>(&(), 0);
}

#[test]
fn can_serialize_bool() {
    const LEN: usize = 1;
    prim_exact::<bool>(&true, LEN);
    prim_exact::<bool>(&false, LEN);
}

#[test]
fn can_serialize_u8() {
    const LEN: usize = 1;
    prim_exact::<u8>(&u8::MIN, LEN);
    prim_exact::<u8>(&(u8::MIN + 1), LEN);
    prim_exact::<u8>(&(u8::MAX - 1), LEN);
    prim_exact::<u8>(&u8::MAX, LEN);
}

#[test]
fn can_serialize_u16() {
    const LEN: usize = 2;
    prim_exact::<u16>(&u16::MIN, LEN);
    prim_exact::<u16>(&(u16::MIN + 1), LEN);
    prim_exact::<u16>(&(u16::MAX - 1), LEN);
    prim_exact::<u16>(&u16::MAX, LEN);
}

#[test]
fn can_serialize_u32() {
    const LEN: usize = 4;
    prim_exact::<u32>(&u32::MIN, LEN);
    prim_exact::<u32>(&(u32::MIN + 1), LEN);
    prim_exact::<u32>(&(u32::MAX - 1), LEN);
    prim_exact::<u32>(&u32::MAX, LEN);
}

#[test]
fn can_serialize_u64() {
    const LEN: usize = 8;
    prim_exact::<u64>(&u64::MIN, LEN);
    prim_exact::<u64>(&(u64::MIN + 1), LEN);
    prim_exact::<u64>(&(u64::MAX - 1), LEN);
    prim_exact::<u64>(&u64::MAX, LEN);
}

#[test]
fn can_serialize_u128() {
    const LEN: usize = 16;
    prim_exact::<u128>(&u128::MIN, LEN);
    prim_exact::<u128>(&(u128::MIN + 1), LEN);
    prim_exact::<u128>(&(u128::MAX - 1), LEN);
    prim_exact::<u128>(&u128::MAX, LEN);
}

#[test]
fn can_serialize_i8() {
    const LEN: usize = 1;
    prim_exact::<i8>(&i8::MIN, LEN);
    prim_exact::<i8>(&(i8::MIN + 1), LEN);
    prim_exact::<i8>(&(i8::MAX - 1), LEN);
    prim_exact::<i8>(&i8::MAX, LEN);
    prim_exact::<i8>(&-1, LEN);
    prim_exact::<i8>(&0, LEN);
    prim_exact::<i8>(&1, LEN);
}

#[test]
fn can_serialize_i16() {
    const LEN: usize = 2;
    prim_exact::<i16>(&i16::MIN, LEN);
    prim_exact::<i16>(&(i16::MIN + 1), LEN);
    prim_exact::<i16>(&(i16::MAX - 1), LEN);
    prim_exact::<i16>(&i16::MAX, LEN);
    prim_exact::<i16>(&-1, LEN);
    prim_exact::<i16>(&0, LEN);
    prim_exact::<i16>(&1, LEN);
}

#[test]
fn can_serialize_i32() {
    const LEN: usize = 4;
    prim_exact::<i32>(&i32::MIN, LEN);
    prim_exact::<i32>(&(i32::MIN + 1), LEN);
    prim_exact::<i32>(&(i32::MAX - 1), LEN);
    prim_exact::<i32>(&i32::MAX, LEN);
    prim_exact::<i32>(&-1, LEN);
    prim_exact::<i32>(&0, LEN);
    prim_exact::<i32>(&1, LEN);
}

#[test]
fn can_serialize_i64() {
    const LEN: usize = 8;
    prim_exact::<i64>(&i64::MIN, LEN);
    prim_exact::<i64>(&(i64::MIN + 1), LEN);
    prim_exact::<i64>(&(i64::MAX - 1), LEN);
    prim_exact::<i64>(&i64::MAX, LEN);
    prim_exact::<i64>(&-1, LEN);
    prim_exact::<i64>(&0, LEN);
    prim_exact::<i64>(&1, LEN);
}

#[test]
fn can_serialize_i128() {
    const LEN: usize = 16;
    prim_exact::<i128>(&i128::MIN, LEN);
    prim_exact::<i128>(&(i128::MIN + 1), LEN);
    prim_exact::<i128>(&(i128::MAX - 1), LEN);
    prim_exact::<i128>(&i128::MAX, LEN);
}

#[test]
fn little_endian_layout_is_exact() {
    let bytes = encode_all::<PrimEncode<u16>>(&0x1234u16);
    assert_eq!(bytes, vec![0x34, 0x12]);
    let bytes = encode_all::<PrimEncode<u32>>(&0x12345678u32);
    assert_eq!(bytes, vec![0x78, 0x56, 0x34, 0x12]);
}

#[test]
fn bad_bool_byte_is_a_data_error() {
    let mut r = AsyncSliceReader::new(vec![2u8]);
    let mut dec = <PrimDecode<bool> as Decode>::init();
    loop {
        match dec.poll_decode(&mut r) {
            PollDecodeStatus::Fini(_) => panic!("decoded an invalid bool"),
            PollDecodeStatus::Pending => {}
            PollDecodeStatus::Error(e) => {
                assert_eq!(e, diny::io::Error::InvalidData);
                break;
            }
        }
    }
}

#[test]
fn poll_after_completion_fails() {
    let data = 7u32;
    let mut w = AsyncSliceWriter::new(64);
    let mut enc = <PrimEncode<u32> as Encode>::init(&data);
    loop {
        match enc.poll_encode(&mut w, &data) {
            PollEncodeStatus::Fini => break,
            PollEncodeStatus::Pending => {}
            PollEncodeStatus::Error(_) => panic!("unable to encode"),
        }
    }
    match enc.poll_encode(&mut w, &data) {
        PollEncodeStatus::Error(e) => assert_eq!(e, diny::io::Error::InvalidInput),
        _ => panic!("polling a finished encoder must fail"),
    }
    match enc.poll_encode(&mut w, &data) {
        PollEncodeStatus::Error(e) => assert_eq!(e, diny::io::Error::InvalidInput),
        _ => panic!("polling a failed encoder must fail again"),
    }
    assert_eq!(w.bytes_written(), 4);
}

#[test]
fn can_serialize_char() {
    const LEN: usize = 4;
    prim_exact::<char>(&'a', LEN);
    prim_exact::<char>(&'\u{0}', LEN);
    prim_exact::<char>(&'\u{1F525}', LEN);
    prim_exact::<char>(&char::MAX, LEN);
}

#[test]
fn surrogate_code_point_is_a_data_error() {
    let mut r = AsyncSliceReader::new(vec![0x00, 0xD8, 0x00, 0x00]);
    let mut dec = <PrimDecode<char> as Decode>::init();
    loop {
        match dec.poll_decode(&mut r) {
            PollDecodeStatus::Fini(_) => panic!("decoded a surrogate code point"),
            PollDecodeStatus::Pending => {}
            PollDecodeStatus::Error(e) => {
                assert_eq!(e, diny::io::Error::InvalidData);
                break;
            }
        }
    }
}
