use diny::codec::{Decode, Encode, PollDecodeStatus, PollEncodeStatus, StartEncodeStatus};
use diny::format::{PrimDecode, PrimEncode};
use diny::util::{AsyncSliceReader, AsyncSliceWriter};
use diny::wrapper::BorrowCell;

fn drive_cell_encode(cell: &BorrowCell<u64>, w: &mut AsyncSliceWriter) {
    match cell.start_encode_contents::<PrimEncode<u64>, _>(w) {
        StartEncodeStatus::Fini => {}
        StartEncodeStatus::Pending(mut enc) => loop {
            match cell.poll_encode_contents(&mut enc, w) {
                PollEncodeStatus::Fini => break,
                PollEncodeStatus::Pending => {}
                PollEncodeStatus::Error(_) => panic!("unable to encode"),
            }
        },
        StartEncodeStatus::Error(_) => panic!("unable to encode"),
    }
}

#[test]
fn can_serialize_ref_cell() {
    const LEN: usize = 8;
    let cell = BorrowCell::new(u64::MIN);
    let mut w = AsyncSliceWriter::new(64);
    drive_cell_encode(&cell, &mut w);
    assert_eq!(w.bytes_written(), LEN);
    let mut r = AsyncSliceReader::new(w.into_written());
    let mut dec = <PrimDecode<u64> as Decode>::init();
    loop {
        match dec.poll_decode(&mut r) {
            PollDecodeStatus::Fini(d) => {
                assert_eq!(d, u64::MIN);
                break;
            }
            PollDecodeStatus::Pending => {}
            PollDecodeStatus::Error(_) => panic!("unable to decode"),
        }
    }
}

#[test]
fn can_serialize_mut_borrowed_ref_cell_with_error() {
    let mut cell = BorrowCell::new(u64::MIN);
    let borrowed = cell.lend().expect("fresh cell must lend");
    let mut w = AsyncSliceWriter::new(64);
    match cell.start_encode_contents::<PrimEncode<u64>, _>(&mut w) {
        StartEncodeStatus::Error(e) => assert_eq!(e, diny::io::Error::InvalidInput),
        _ => panic!("encoding a lent cell must fail"),
    }
    assert_eq!(w.bytes_written(), 0);
    assert_eq!(borrowed, u64::MIN);
    cell.restore(borrowed);
    assert!(!cell.is_borrowed());
    drive_cell_encode(&cell, &mut w);
    assert_eq!(w.bytes_written(), 8);
}
