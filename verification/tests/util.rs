use diny::io::{AsyncRead, AsyncWrite, PollRead, PollWrite};
use diny::util::{AsyncSliceReader, AsyncSliceWriter, ThrottledWriter};

#[test]
fn can_read_from_vec() {
    const LEN: usize = 10;
    let send = vec![7u8; LEN];
    let mut reader = AsyncSliceReader::new(send.clone());
    assert!(reader.bytes_read() == 0);

    let mut recv = vec![0u8; LEN];
    match reader.poll_read(&mut recv, 0, LEN) {
        PollRead::Ready(n) => assert_eq!(n, LEN),
        _ => panic!("slice reader must be ready"),
    }
    assert!(reader.bytes_read() == LEN);
    assert!(recv == send);
}

#[test]
fn can_write_to_slice() {
    const LEN: usize = 10;
    let mut writer = AsyncSliceWriter::new(LEN);
    assert!(writer.bytes_written() == 0);

    let send = vec![7u8; LEN];
    match writer.poll_write(&send, 0, LEN) {
        PollWrite::Ready(n) => assert_eq!(n, LEN),
        _ => panic!("slice writer must be ready"),
    }
    assert!(writer.bytes_written() == LEN);
    assert!(writer.as_written() == &send);
}

#[test]
fn full_writer_reports_write_zero() {
    let mut writer = AsyncSliceWriter::new(1);
    let send = vec![1u8, 2];
    match writer.poll_write(&send, 0, 2) {
        PollWrite::Ready(n) => assert_eq!(n, 1),
        _ => panic!("slice writer must be ready"),
    }
    match writer.poll_write(&send, 1, 2) {
        PollWrite::Error(e) => assert_eq!(e, diny::io::Error::WriteZero),
        _ => panic!("a full writer must fail"),
    }
}

#[test]
fn throttled_writer_moves_one_byte_per_ready_call() {
    let mut writer = ThrottledWriter::new(16);
    let send = vec![1u8, 2, 3];
    let mut offset = 0usize;
    let mut polls = 0usize;
    while offset < 3 {
        match writer.poll_write(&send, offset, 3) {
            PollWrite::Ready(n) => {
                assert!(n <= 1);
                offset += n;
            }
            PollWrite::Pending => {}
            PollWrite::Error(_) => panic!("throttled writer failed"),
        }
        polls += 1;
        assert!(polls < 100);
    }
    assert!(writer.as_written() == &send);
}
