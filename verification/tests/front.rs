use diny::codec::{PollDecodeStatus, PollEncodeStatus};
use diny::deserializer::{deserializer, Deserializer};
use diny::format::{Formatter, PrimDecode, PrimEncode};
use diny::io::PollFlush;
use diny::serializer::{serializer, Serializer};
use diny::util::{AsyncSliceReader, AsyncSliceWriter, ThrottledReader, ThrottledWriter};

#[test]
fn serializer_drives_a_value_to_completion() {
    let mut s = serializer(diny::format::format(), AsyncSliceWriter::new(64));
    match s.serialize::<PrimEncode<u64>>(&5u64, 1000) {
        PollEncodeStatus::Fini => {}
        _ => panic!("unable to serialize"),
    }
    assert_eq!(s.writer.bytes_written(), 8);

    let mut d = deserializer(diny::format::format(), AsyncSliceReader::new(s.writer.into_written()));
    match d.deserialize::<PrimDecode<u64>>(1000) {
        PollDecodeStatus::Fini(v) => assert_eq!(v, 5u64),
        _ => panic!("unable to deserialize"),
    }
}

#[test]
fn serializer_and_deserializer_survive_throttling() {
    let mut s = Serializer::new(Formatter, ThrottledWriter::new(64));
    match s.serialize::<PrimEncode<u32>>(&0xDEAD_BEEFu32, 1000) {
        PollEncodeStatus::Fini => {}
        _ => panic!("unable to serialize"),
    }
    let bytes = s.writer.into_written();
    assert_eq!(bytes.len(), 4);

    let mut d = Deserializer::new(Formatter, ThrottledReader::new(bytes));
    match d.deserialize::<PrimDecode<u32>>(1000) {
        PollDecodeStatus::Fini(v) => assert_eq!(v, 0xDEAD_BEEFu32),
        _ => panic!("unable to deserialize"),
    }
}

#[test]
fn sink_enforces_one_item_in_flight() {
    let s = serializer(diny::format::format(), ThrottledWriter::new(64));
    let mut sink = s.into_sink::<PrimEncode<u64>>();
    assert!(sink.is_ready());
    sink.start_send(1u64).expect("ready sink must accept an item");
    assert!(!sink.is_ready());
    match sink.start_send(2u64) {
        Err(e) => assert_eq!(e, diny::io::Error::InvalidInput),
        Ok(_) => panic!("a pending sink must refuse the next item"),
    }
    let mut polls = 0usize;
    loop {
        match sink.poll_ready() {
            PollEncodeStatus::Fini => break,
            PollEncodeStatus::Pending => {}
            PollEncodeStatus::Error(_) => panic!("sink failed"),
        }
        polls += 1;
        assert!(polls < 100);
    }
    assert!(sink.is_ready());
    let mut polls = 0usize;
    loop {
        match sink.poll_close() {
            PollFlush::Ready => break,
            PollFlush::Pending => {}
            PollFlush::Error(_) => panic!("close failed"),
        }
        polls += 1;
        assert!(polls < 100);
    }
    let inner = sink.try_into_inner().err();
    assert!(inner.is_some(), "a closed sink does not return its writer");
}

#[test]
fn sink_round_trips_through_stream() {
    let s = serializer(diny::format::format(), AsyncSliceWriter::new(64));
    let mut sink = s.into_sink::<PrimEncode<u16>>();
    sink.start_send(0x0605u16).expect("ready sink must accept an item");
    loop {
        match sink.poll_ready() {
            PollEncodeStatus::Fini => break,
            PollEncodeStatus::Pending => {}
            PollEncodeStatus::Error(_) => panic!("sink failed"),
        }
    }
    assert!(sink.is_ready());
    let ser = sink.try_into_inner().ok().expect("a ready sink returns its writer");
    let bytes = ser.writer.into_written();
    assert_eq!(bytes, vec![0x05, 0x06]);

    let d = deserializer(diny::format::format(), AsyncSliceReader::new(bytes));
    let mut stream = d.into_stream::<PrimDecode<u16>>();
    assert!(stream.is_ready());
    let mut polls = 0usize;
    let v = loop {
        match stream.poll_next() {
            PollDecodeStatus::Fini(v) => break v,
            PollDecodeStatus::Pending => {}
            PollDecodeStatus::Error(_) => panic!("stream failed"),
        }
        polls += 1;
        assert!(polls < 100);
    };
    assert_eq!(v, 0x0605u16);
    assert!(stream.is_ready());
    assert!(stream.try_into_inner().is_ok());
}

#[test]
fn stream_failure_is_terminal() {
    let bytes = vec![9u8, 0, 0, 0];
    let d = deserializer(diny::format::format(), AsyncSliceReader::new(bytes));
    type OptDec = diny::intrinsic::option::OptionDecode<Formatter, PrimDecode<u16>>;
    let mut stream = d.into_stream::<OptDec>();
    let mut polls = 0usize;
    loop {
        match stream.poll_next() {
            PollDecodeStatus::Fini(_) => panic!("decoded an unknown discriminant"),
            PollDecodeStatus::Pending => {}
            PollDecodeStatus::Error(e) => {
                assert_eq!(e, diny::io::Error::InvalidData);
                break;
            }
        }
        polls += 1;
        assert!(polls < 100);
    }
    match stream.poll_next() {
        PollDecodeStatus::Error(e) => assert_eq!(e, diny::io::Error::InvalidInput),
        _ => panic!("a failed stream must keep failing"),
    }
    assert!(stream.try_into_inner().is_err());
}
