use std::marker::PhantomData;

use diny::codec::{Decode, Encode, PollDecodeStatus, PollEncodeStatus};
use diny::format::Formatter;
use diny::intrinsic::empty::{UnitStructDecode, UnitStructEncode};
use diny::util::{AsyncSliceReader, AsyncSliceWriter};

type Enc = UnitStructEncode<Formatter, PhantomData<u64>>;
type Dec = UnitStructDecode<Formatter, PhantomData<u64>>;

#[test]
fn can_serialize_phantom_data() {
    const LEN: usize = 0;
    let data: PhantomData<u64> = PhantomData;
    let mut w = AsyncSliceWriter::new(16);
    let mut enc = <Enc as Encode>::init(&data);
    loop {
        match enc.poll_encode(&mut w, &data) {
            PollEncodeStatus::Fini => break,
            PollEncodeStatus::Pending => {}
            PollEncodeStatus::Error(_) => panic!("unable to encode"),
        }
    }
    assert_eq!(w.bytes_written(), LEN);

    let mut r = AsyncSliceReader::new(w.into_written());
    let mut dec = <Dec as Decode>::init();
    loop {
        match dec.poll_decode(&mut r) {
            PollDecodeStatus::Fini(d) => {
                assert_eq!(d, PhantomData::<u64>);
                break;
            }
            PollDecodeStatus::Pending => {}
            PollDecodeStatus::Error(_) => panic!("unable to decode"),
        }
    }
    assert_eq!(r.bytes_read(), LEN);
}
