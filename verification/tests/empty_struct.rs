use diny::codec::{Decode, Encode, PollDecodeStatus, PollEncodeStatus};
use diny::format::Formatter;
use diny::intrinsic::empty::{NewUnitStruct, UnitStructDecode, UnitStructEncode};
use diny::util::{AsyncSliceReader, AsyncSliceWriter};

#[derive(Debug, Copy, Clone, PartialEq)]
pub struct EmptyStruct;

impl EmptyStruct {
    pub fn new() -> Self {
        EmptyStruct
    }
}

impl NewUnitStruct for EmptyStruct {
    fn new_unit_struct() -> Self {
        EmptyStruct::new()
    }
}

type Enc = UnitStructEncode<Formatter, EmptyStruct>;
type Dec = UnitStructDecode<Formatter, EmptyStruct>;

#[test]
fn can_serialize_empty_struct() {
    let data = EmptyStruct::new();
    let mut w = AsyncSliceWriter::new(16);
    let mut enc = <Enc as Encode>::init(&data);
    loop {
        match enc.poll_encode(&mut w, &data) {
            PollEncodeStatus::Fini => break,
            PollEncodeStatus::Pending => {}
            PollEncodeStatus::Error(_) => panic!("unable to encode"),
        }
    }
    assert_eq!(w.bytes_written(), 0);

    let mut r = AsyncSliceReader::new(w.into_written());
    let mut dec = <Dec as Decode>::init();
    loop {
        match dec.poll_decode(&mut r) {
            PollDecodeStatus::Fini(d) => {
                assert_eq!(d, EmptyStruct::new());
                break;
            }
            PollDecodeStatus::Pending => {}
            PollDecodeStatus::Error(_) => panic!("unable to decode"),
        }
    }
    assert_eq!(r.bytes_read(), 0);
}
