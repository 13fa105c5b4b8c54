use ffrwd_bmff::source::{Cursor, Output, Source, Tally};
use ffrwd_bmff::{Error, Fault};

#[test]
fn a_file_that_shrank_since_it_was_opened_fails_to_read() {
    let mut src = Source::new(Cursor::new(vec![1, 2, 3, 4, 5, 6])).expect("a source");
    src.inner_mut().truncate(3);
    let err = src.read_at(2, 4).expect_err("a failure");
    match &err {
        Error::Io(io) => assert_eq!(io.kind(), std::io::ErrorKind::UnexpectedEof),
        other => panic!("{other:?}"),
    }
    assert_eq!(err.offset(), None);
    assert!(err.fault().is_none());
    // The bytes that are still there still read.
    assert_eq!(src.read_at(0, 3).expect("bytes"), vec![1, 2, 3]);
}

#[test]
fn every_move_of_the_head_is_counted() {
    let mut src = Source::new(Cursor::new(vec![7; 32])).expect("a source");
    assert_eq!(
        src.tally(),
        Tally {
            bytes_read: 0,
            seeks: 1,
            len: 32
        }
    );
    src.read_at(0, 4).expect("bytes");
    src.read_at(4, 4).expect("bytes");
    assert_eq!(src.tally().seeks, 1, "the head was there already");
    src.read_at(20, 4).expect("bytes");
    assert_eq!(src.tally().seeks, 2);
    src.inner_mut();
    src.read_at(24, 4).expect("bytes");
    assert_eq!(src.tally().seeks, 3, "nobody knows where the head is");
    assert_eq!(src.tally().bytes_read, 16);
    assert!(!src.is_empty());
    assert!(Source::new(Cursor::new(Vec::new())).expect("a source").is_empty());
}

#[test]
fn a_span_that_is_not_all_there_is_a_truncation() {
    let mut src = Source::new(Cursor::new(vec![7; 8])).expect("a source");
    assert_eq!(src.span(2, 6).expect("bytes"), vec![7; 6]);
    let err = src.span(2, 7).expect_err("a truncation");
    assert_eq!(err.to_string(), "the file ends inside a value at byte 2");
    let err = src.read_at(3, usize::MAX).expect_err("a refusal");
    assert_eq!(
        err.to_string(),
        "a value larger than this reader will hold at byte 3"
    );
}

#[test]
fn a_file_in_memory_is_written_over_and_added_to() {
    let mut file = Cursor::new(vec![1, 2, 3, 4, 5]);
    file.write_all(&[9, 9]).expect("a write");
    assert_eq!(file.get_ref(), &vec![9, 9, 3, 4, 5]);
    file.write_all(&[8, 8, 8, 8]).expect("a write");
    assert_eq!(file.get_ref(), &vec![9, 9, 8, 8, 8, 8]);
    file.truncate(1);
    assert!(file.write_all(&[1]).is_err(), "a gap is not made up");
    assert_eq!(file.into_inner(), vec![9]);

    let mut list: Vec<u8> = vec![1];
    Output::write_all(&mut list, &[2, 3]).expect("a write");
    Output::flush(&mut list).expect("a flush");
    assert_eq!(list, vec![1, 2, 3]);
}

#[test]
fn a_fault_is_printed_with_what_it_knows() {
    assert_eq!(Fault::new("a rule").to_string(), "a rule");
    assert_eq!(Fault::default().to_string(), "");
    assert_eq!(
        Error::truncated("a rule").in_box([0x61, 0x20, 0x7f, 0xff]).to_string(),
        "a rule in 'a...'"
    );
    assert_eq!(
        Error::unsupported("a rule").at(u64::MAX).to_string(),
        "a rule at byte 18446744073709551615"
    );
    assert_eq!(Error::format("a rule").at(0).to_string(), "a rule at byte 0");
    let io = Error::from(std::io::Error::other("gone")).in_box(*b"moov");
    assert_eq!(io.to_string(), "gone");
    // The offset and the box can come in either order.
    let one = Error::format("x").at(3).in_box(*b"trun");
    let two = Error::format("x").in_box(*b"trun").at(3);
    assert_eq!(one.fault(), two.fault());
}
