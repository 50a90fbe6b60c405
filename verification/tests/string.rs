use diny::codec::{Decode, Encode, PollDecodeStatus, PollEncodeStatus};
use diny::format::Formatter;
use diny::intrinsic::string::{StringDecode, StringEncode};
use diny::util::{AsyncSliceReader, AsyncSliceWriter, ThrottledReader, ThrottledWriter};

const SEQ_LEN: usize = 8;

type Enc = StringEncode<Formatter>;
type Dec = StringDecode<Formatter>;

fn encode_all<E: Encode>(data: &E::Data) -> Vec<u8> {
    let mut w = AsyncSliceWriter::new(1 << 20);
    let mut enc = E::init(data);
    loop {
        match enc.poll_encode(&mut w, data) {
            PollEncodeStatus::Fini => break,
            PollEncodeStatus::Pending => {}
            PollEncodeStatus::Error(_) => panic!("unable to encode"),
        }
    }
    w.into_written()
}

fn encode_throttled<E: Encode>(data: &E::Data) -> Vec<u8> {
    let mut w = ThrottledWriter::new(1 << 20);
    let mut enc = E::init(data);
    loop {
        match enc.poll_encode(&mut w, data) {
            PollEncodeStatus::Fini => break,
            PollEncodeStatus::Pending => {}
            PollEncodeStatus::Error(_) => panic!("unable to encode"),
        }
    }
    w.into_written()
}

fn decode_all<D: Decode>(bytes: Vec<u8>) -> (D::Data, usize) {
    let mut r = AsyncSliceReader::new(bytes);
    let mut dec = D::init();
    loop {
        match dec.poll_decode(&mut r) {
            PollDecodeStatus::Fini(d) => return (d, r.bytes_read()),
            PollDecodeStatus::Pending => {}
            PollDecodeStatus::Error(_) => panic!("unable to decode"),
        }
    }
}

fn decode_throttled<D: Decode>(bytes: Vec<u8>) -> D::Data {
    let mut r = ThrottledReader::new(bytes);
    let mut dec = D::init();
    loop {
        match dec.poll_decode(&mut r) {
            PollDecodeStatus::Fini(d) => return d,
            PollDecodeStatus::Pending => {}
            PollDecodeStatus::Error(_) => panic!("unable to decode"),
        }
    }
}

fn test_serialize_exact(data: &str, expected_len: usize) {
    let data: String = data.into();
    let bytes = encode_all::<Enc>(&data);
    assert_eq!(bytes.len(), expected_len);
    let throttled = encode_throttled::<Enc>(&data);
    assert_eq!(throttled, bytes);
    let (decoded, consumed) = decode_all::<Dec>(bytes.clone());
    assert_eq!(consumed, expected_len);
    assert_eq!(decoded, data);
    let decoded_throttled = decode_throttled::<Dec>(bytes);
    assert_eq!(decoded_throttled, data);
}

#[test]
fn can_serialize_empty_string() {
    test_serialize_exact("", SEQ_LEN);
}

#[test]
fn can_serialize_single_char_string() {
    test_serialize_exact("a", SEQ_LEN + 1);
}

#[test]
fn can_serialize_multi_char_string() {
    test_serialize_exact("abc", SEQ_LEN + 3);
}

#[test]
fn can_serialize_long_string() {
    test_serialize_exact("abcdefghijklmnopqrstuvwxyz", SEQ_LEN + 26);
}

#[test]
fn can_serialize_unicode_char_string() {
    test_serialize_exact("\u{1F525}", SEQ_LEN + 4);
}

#[test]
fn invalid_utf8_is_a_data_error() {
    let mut bytes = vec![2u8, 0, 0, 0, 0, 0, 0, 0];
    bytes.push(0xFF);
    bytes.push(0xFF);
    let mut r = AsyncSliceReader::new(bytes);
    let mut dec = <Dec as Decode>::init();
    loop {
        match dec.poll_decode(&mut r) {
            PollDecodeStatus::Fini(_) => panic!("decoded invalid text"),
            PollDecodeStatus::Pending => {}
            PollDecodeStatus::Error(e) => {
                assert_eq!(e, diny::io::Error::InvalidData);
                break;
            }
        }
    }
}
