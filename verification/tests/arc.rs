use std::sync::Arc;

use diny::codec::{Decode, Encode, PollDecodeStatus, PollEncodeStatus};
use diny::format::{PrimDecode, PrimEncode};
use diny::util::{AsyncSliceReader, AsyncSliceWriter};
use diny::wrapper::{ArcDecode, ArcEncode};

type Enc = ArcEncode<PrimEncode<u64>>;
type Dec = ArcDecode<PrimDecode<u64>>;

#[test]
fn can_serialize_arc() {
    const LEN: usize = 8;
    let data = Arc::new(u64::MIN);
    let mut w = AsyncSliceWriter::new(64);
    let mut enc = <Enc as Encode>::init(&data);
    loop {
        match enc.poll_encode(&mut w, &data) {
            PollEncodeStatus::Fini => break,
            PollEncodeStatus::Pending => {}
            PollEncodeStatus::Error(_) => panic!("unable to encode"),
        }
    }
    assert_eq!(w.bytes_written(), LEN);

    let mut r = AsyncSliceReader::new(w.into_written());
    let mut dec = <Dec as Decode>::init();
    loop {
        match dec.poll_decode(&mut r) {
            PollDecodeStatus::Fini(d) => {
                assert_eq!(*d, u64::MIN);
                break;
            }
            PollDecodeStatus::Pending => {}
            PollDecodeStatus::Error(_) => panic!("unable to decode"),
        }
    }
    assert_eq!(r.bytes_read(), LEN);
}
