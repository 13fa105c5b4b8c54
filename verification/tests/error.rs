use ffrwd_bmff::{reserved, Error};

#[test]
fn an_error_keeps_the_innermost_offset_and_says_where_it_was() {
    let err = Error::format("a table longer than the box holding it")
        .at(12)
        .in_box(*b"trun")
        .at(99)
        .in_box(*b"moof");
    assert_eq!(err.offset(), Some(12), "the inner offset wins");
    assert_eq!(
        err.to_string(),
        "a table longer than the box holding it in 'trun' at byte 12"
    );
    // An I/O error carries no fault of ours to fill in.
    let io = Error::from(std::io::Error::other("gone")).at(5);
    assert_eq!(io.offset(), None);
}

#[test]
fn a_reservation_larger_than_memory_is_an_error_and_not_an_abort() {
    assert!(reserved::<u64>(usize::MAX / 8, "too much").is_err());
    assert!(reserved::<u8>(4, "fine").expect("a vec").capacity() >= 4);
}
