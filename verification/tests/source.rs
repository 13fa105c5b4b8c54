use ffrwd_bmff::source::{Cursor, Source};
use ffrwd_bmff::{Limits, MAX_READ};

fn source(bytes: &[u8]) -> Source<Cursor> {
    Source::new(Cursor::new(bytes.to_vec())).expect("a source")
}

#[test]
fn a_read_is_clamped_to_the_file_and_counted() {
    let mut src = source(&[1, 2, 3, 4, 5, 6, 7, 8]);
    src.reset_tally();
    assert_eq!(src.read_at(4, 100).expect("bytes"), vec![5, 6, 7, 8]);
    assert_eq!(src.tally().bytes_read, 4);
    assert_eq!(src.tally().seeks, 1, "one move of the head");
    // Reading on from where the head already is costs no seek.
    assert!(src.read_at(8, 4).expect("bytes").is_empty());
    assert_eq!(src.tally().seeks, 1);
    assert!(src.exact_at(4, 5).is_err(), "a short read is a truncation");
}

#[test]
fn a_length_past_the_ceiling_is_refused_rather_than_allocated() {
    let mut src = source(&[0; 16]);
    assert!(src.read_at(0, MAX_READ + 1).is_err());
    assert!(src.span(0, u64::MAX).is_err());
}

#[test]
fn the_ceiling_is_a_default_a_caller_can_move() {
    let limits = Limits {
        max_read: 4,
        ..Limits::default()
    };
    let mut src = Source::with_limits(Cursor::new(vec![7u8; 16]), limits).expect("a source");
    assert_eq!(src.read_at(0, 4).expect("bytes").len(), 4);
    let err = src.read_at(0, 5).expect_err("a refusal");
    assert_eq!(err.offset(), Some(0));
}
