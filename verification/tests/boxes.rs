use ffrwd_bmff::boxes::{
    boxed, children, full_boxed, parse_header, top_level, uuid_boxed, BoxSize, Bytes,
};
use ffrwd_bmff::source::{Cursor, Source};

fn source(bytes: Vec<u8>) -> Source<Cursor> {
    Source::new(Cursor::new(bytes)).expect("a source")
}

#[test]
fn a_box_of_every_size_shape_reads() {
    let mut file = boxed(b"ftyp", b"isom");
    let mut wide = 1u32.to_be_bytes().to_vec();
    wide.extend_from_slice(b"free");
    wide.extend_from_slice(&20u64.to_be_bytes());
    wide.extend_from_slice(&[0; 4]);
    file.extend_from_slice(&wide);
    // A size of zero runs to the end of the file.
    file.extend_from_slice(&[0, 0, 0, 0]);
    file.extend_from_slice(b"mdat");
    file.extend_from_slice(&[9; 16]);
    let mut src = source(file);
    let top = top_level(&mut src).expect("the boxes");
    assert_eq!(top.len(), 3);
    assert_eq!(top[1].body_len(), 4, "a largesize box's body");
    assert_eq!(top[2].end, src.len(), "a size of zero runs to the end");
}

#[test]
fn a_size_of_zero_inside_a_body_runs_to_the_end_of_the_parent() {
    let mut body = boxed(b"mfhd", &[0; 8]);
    body.extend_from_slice(&[0, 0, 0, 0]);
    body.extend_from_slice(b"traf");
    body.extend_from_slice(&[1; 12]);
    let kids = children(&body, 0).expect("the children");
    assert_eq!(kids.len(), 2);
    assert!(kids[1].is(b"traf"));
    assert_eq!(kids[1].body.len(), 12);
}

#[test]
fn a_box_that_runs_past_the_file_is_refused() {
    let mut file = boxed(b"ftyp", b"isom");
    file.extend_from_slice(&1_000_000u32.to_be_bytes());
    file.extend_from_slice(b"moov");
    let mut src = source(file);
    let err = top_level(&mut src).expect_err("a refusal");
    assert_eq!(err.offset(), Some(12), "the error says where");
}

#[test]
fn a_box_smaller_than_its_own_header_is_refused() {
    // A size of 4 with an eight-byte header, and a largesize of 8
    // with a sixteen-byte one.
    assert!(parse_header(&[0, 0, 0, 4, b'f', b'r', b'e', b'e'], 0).is_err());
    let mut wide = 1u32.to_be_bytes().to_vec();
    wide.extend_from_slice(b"free");
    wide.extend_from_slice(&8u64.to_be_bytes());
    assert!(parse_header(&wide, 0).is_err());
    // Fewer bytes than the header needs is "not yet", not an error.
    assert_eq!(parse_header(&[0, 0, 0, 16], 0).expect("no header"), None);
    assert_eq!(parse_header(&wide[..12], 0).expect("no header"), None);
}

#[test]
fn a_box_past_a_quarter_gigabyte_is_read_rather_than_refused() {
    // An mdat of a long film is larger than 1<<28 and is not
    // malformed, so the header layer states the size and leaves the
    // bounding to whoever has to hold the bytes.
    let mut head = (1u32 << 29).to_be_bytes().to_vec();
    head.extend_from_slice(b"mdat");
    let header = parse_header(&head, 0).expect("a header").expect("a header");
    assert_eq!(header.size, BoxSize::Exact(1 << 29));
}

#[test]
fn a_cursor_never_reads_past_what_it_was_given() {
    let mut bytes = Bytes::new(&[0, 0, 0, 2, 9, 9]);
    assert_eq!(bytes.count(1).expect("a count"), 2);
    assert_eq!(bytes.take(2).expect("the entries"), &[9, 9]);
    assert!(bytes.u8().is_err());

    let mut wide = Bytes::new(&[0xff, 0xff, 0xff, 0xff]);
    assert!(wide.count(8).is_err(), "a count the box cannot hold");

    let mut short = Bytes::new(&[1, 2]);
    assert!(short.u32().is_err());
    assert!(short.take(usize::MAX).is_err());
}

#[test]
fn a_cursor_says_where_in_the_file_it_gave_up() {
    let mut bytes = Bytes::at(&[0, 0, 0, 1, 7], 1000);
    assert_eq!(bytes.u32().expect("a word"), 1);
    assert_eq!(bytes.offset(), 1004);
    let err = bytes.u32().expect_err("a truncation");
    assert_eq!(err.offset(), Some(1004));
}

#[test]
fn the_builders_write_what_the_parsers_read() {
    let plain = boxed(b"free", &[1, 2, 3]);
    assert_eq!(plain.len(), 11);
    let full = full_boxed(b"tfdt", 1, 0, &7u64.to_be_bytes());
    let kids = children(&full, 0).expect("a child");
    let mut cursor = Bytes::new(kids[0].body);
    assert_eq!(cursor.full_box().expect("version"), (1, 0));
    assert_eq!(cursor.u64().expect("the time"), 7);
    let uuid = uuid_boxed(&[0xab; 16], b"payload");
    assert_eq!(&uuid[4..8], b"uuid");
    assert_eq!(&uuid[8..24], &[0xab; 16]);
    assert_eq!(&uuid[24..], b"payload");
}
