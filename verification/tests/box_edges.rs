use ffrwd_bmff::boxes::{
    boxed, child, child_of, children, children_bounded, find_in, full_boxed, kids, parse_header,
    read_header, top_level, BoxHeader, BoxSize, BoxSpan, Bytes,
};
use ffrwd_bmff::source::{Cursor, Source};
use ffrwd_bmff::{Error, Limits};

fn source(bytes: Vec<u8>) -> Source<Cursor> {
    Source::new(Cursor::new(bytes)).expect("a source")
}

#[test]
fn the_children_of_boxes_laid_end_to_end_are_those_boxes() {
    let mut body = boxed(b"aaaa", &[1, 2, 3]);
    body.extend_from_slice(&boxed(b"bbbb", &[]));
    body.extend_from_slice(&boxed(b"aaaa", &[4]));
    let list = children(&body, 100).expect("the children");
    let seen: Vec<([u8; 4], Vec<u8>, u64)> = list
        .iter()
        .map(|one| (one.kind, one.body.to_vec(), one.at))
        .collect();
    assert_eq!(
        seen,
        vec![
            (*b"aaaa", vec![1, 2, 3], 108),
            (*b"bbbb", vec![], 119),
            (*b"aaaa", vec![4], 127),
        ]
    );
    assert_eq!(child(&list, b"aaaa"), Some(&[1u8, 2, 3][..]), "the first");
    assert_eq!(child(&list, b"cccc"), None);
    let item = child_of(&list, b"bbbb").expect("a child");
    assert_eq!((item.at, item.body.len()), (119, 0));
    assert!(child_of(&list, b"cccc").is_none());
    assert_eq!(find_in(&body, b"bbbb", 0).expect("a walk"), Some(&[][..]));
    assert_eq!(find_in(&body, b"cccc", 0).expect("a walk"), None);
}

#[test]
fn a_body_with_more_children_than_the_bound_is_refused() {
    let mut body = boxed(b"aaaa", &[]);
    body.extend_from_slice(&boxed(b"bbbb", &[]));
    assert_eq!(children_bounded(&body, 5, 2).expect("two").len(), 2);
    let err = children_bounded(&body, 5, 1).expect_err("a refusal");
    assert_eq!(
        err.to_string(),
        "more child boxes than a box has at byte 5"
    );
    let limits = Limits {
        max_children: 1,
        ..Limits::default()
    };
    assert!(kids(&body, 5, &limits).is_err());
}

#[test]
fn a_child_that_does_not_fit_says_where_and_which() {
    let mut body = boxed(b"free", &[0; 4]);
    body.extend_from_slice(&[0, 0, 0, 99]);
    body.extend_from_slice(b"mdat");
    let err = children(&body, 1000).expect_err("a refusal");
    assert!(matches!(err, Error::Format(_)));
    assert_eq!(
        err.to_string(),
        "a child box that runs past its parent in 'mdat' at byte 1012"
    );
    // A largesize whose own bytes are not there.
    let mut short = vec![0, 0, 0, 1];
    short.extend_from_slice(b"mdat");
    let err = children(&short, 7).expect_err("a refusal");
    assert!(matches!(err, Error::Truncated(_)));
    assert_eq!(
        err.to_string(),
        "a box that ends inside its own size at byte 7"
    );
    // Fewer than eight bytes left over are nobody's box.
    let mut tail = boxed(b"free", &[]);
    tail.extend_from_slice(&[1, 2, 3]);
    assert_eq!(children(&tail, 0).expect("a walk").len(), 1);
}

#[test]
fn a_header_resolves_against_its_parent() {
    let open = BoxHeader {
        kind: *b"mdat",
        header_len: 8,
        size: BoxSize::ToEnd,
    };
    assert_eq!(open.total(10, 60).expect("a size"), 50);
    let err = open.total(61, 60).expect_err("a refusal");
    assert_eq!(
        err.to_string(),
        "a box that begins past its own parent at byte 61"
    );
    assert!(open.is(b"mdat"));
    assert!(!open.is(b"moov"));
    let exact = BoxHeader {
        size: BoxSize::Exact(77),
        ..open
    };
    assert_eq!(exact.total(61, 60).expect("a size"), 77);
}

#[test]
fn a_header_needs_no_more_than_its_own_bytes() {
    let mut bytes = boxed(b"moov", &[0; 9]);
    let alone = parse_header(&bytes[..8], 3).expect("a header");
    bytes.extend_from_slice(&[0xff; 40]);
    assert_eq!(parse_header(&bytes, 3).expect("a header"), alone);
    assert_eq!(
        alone,
        Some(BoxHeader {
            kind: *b"moov",
            header_len: 8,
            size: BoxSize::Exact(17)
        })
    );
}

#[test]
fn the_top_level_boxes_cover_the_file() {
    let mut file = boxed(b"ftyp", b"isom");
    file.extend_from_slice(&boxed(b"mdat", &[1; 30]));
    file.extend_from_slice(&[0; 5]);
    let mut src = source(file);
    let top = top_level(&mut src).expect("the boxes");
    assert_eq!(
        top,
        vec![
            BoxSpan {
                kind: *b"ftyp",
                start: 0,
                body: 8,
                end: 12
            },
            BoxSpan {
                kind: *b"mdat",
                start: 12,
                body: 20,
                end: 50
            },
        ]
    );
    assert_eq!(top[1].body_len(), 30);
}

#[test]
fn a_file_with_more_boxes_than_the_bound_is_refused() {
    let mut file = boxed(b"ftyp", b"isom");
    file.extend_from_slice(&boxed(b"free", &[]));
    let limits = Limits {
        max_top_level: 1,
        ..Limits::default()
    };
    let mut src = Source::with_limits(Cursor::new(file), limits).expect("a source");
    let err = top_level(&mut src).expect_err("a refusal");
    assert_eq!(err.to_string(), "more top-level boxes than a file has");
}

#[test]
fn a_box_of_a_file_is_resolved_against_its_limit() {
    let mut src = source(boxed(b"free", &[7; 12]));
    assert_eq!(read_header(&mut src, 0, 7).expect("no room"), None);
    assert_eq!(read_header(&mut src, 9, 4).expect("no room"), None);
    let err = read_header(&mut src, 0, 19).expect_err("a refusal");
    assert_eq!(
        err.to_string(),
        "a box that runs past the file or its parent in 'free' at byte 0"
    );
    let span = read_header(&mut src, 0, 20).expect("a box").expect("a box");
    assert_eq!((span.start, span.body, span.end), (0, 8, 20));
    // A largesize past the end of any file.
    let mut wide = vec![0, 0, 0, 1];
    wide.extend_from_slice(b"mdat");
    wide.extend_from_slice(&[0xff; 8]);
    let mut file = vec![0, 0, 0, 8];
    file.extend_from_slice(b"free");
    file.extend_from_slice(&wide);
    let mut src = source(file);
    let err = read_header(&mut src, 8, 24).expect_err("a refusal");
    assert_eq!(
        err.to_string(),
        "a box whose size overflows the file at byte 8"
    );
    // A largesize the file does not reach.
    let mut src = source(wide[..12].to_vec());
    let err = read_header(&mut src, 0, 12).expect_err("a refusal");
    assert!(matches!(err, Error::Truncated(_)));
}

#[test]
fn a_cursor_reads_every_width_big_endian() {
    let mut bytes = Bytes::at(&[9, 1, 2, 0xff, 0xff, 0xff, 0xfe, 0, 0, 0, 1, 0, 0, 0, 2, 5, 6], 40);
    assert_eq!(bytes.u8().expect("a byte"), 9);
    assert_eq!(bytes.u16().expect("a half"), 0x0102);
    assert_eq!(bytes.i32().expect("a word"), -2);
    assert_eq!(bytes.u64().expect("a long"), 0x1_0000_0002);
    assert_eq!(bytes.left(), 2);
    assert_eq!(bytes.offset(), 55);
    let err = bytes.skip(3).expect_err("a truncation");
    assert_eq!(
        err.to_string(),
        "the bytes end inside a value at byte 55"
    );
    assert_eq!(bytes.rest(), &[5, 6]);
    assert_eq!(bytes.left(), 0);
    assert_eq!(bytes.rest(), &[] as &[u8]);
    let err = bytes.take(usize::MAX).expect_err("an overflow");
    assert_eq!(err.to_string(), "a length that overflows at byte 57");
}

#[test]
fn a_full_box_gives_up_at_the_part_that_is_missing() {
    let body = full_boxed(b"tfhd", 7, 0xab_cdef, &[]);
    let mut bytes = Bytes::new(&body[8..]);
    assert_eq!(bytes.full_box().expect("an opening"), (7, 0xab_cdef));
    let mut none = Bytes::at(&[], 20);
    assert_eq!(none.full_box().expect_err("nothing").offset(), Some(20));
    let mut some = Bytes::at(&[1, 0, 0], 20);
    assert_eq!(some.full_box().expect_err("a part").offset(), Some(21));
}

#[test]
fn a_count_is_held_to_the_bytes_that_are_left() {
    let mut none = Bytes::at(&[0, 0, 0], 3);
    assert_eq!(
        none.count(4).expect_err("a truncation").to_string(),
        "the bytes end inside a value at byte 3"
    );
    let mut long = Bytes::at(&[0, 0, 0, 3, 1, 2, 3, 4], 3);
    assert_eq!(
        long.count(4).expect_err("a refusal").to_string(),
        "a table longer than the box holding it at byte 3"
    );
    let mut wide = Bytes::at(&[0, 0, 0, 3], 3);
    assert_eq!(
        wide.count(usize::MAX).expect_err("a refusal").to_string(),
        "a table wider than memory at byte 3"
    );
    // An entry is at least a byte.
    let mut thin = Bytes::new(&[0, 0, 0, 2, 1]);
    assert!(thin.count(0).is_err());
    let mut fine = Bytes::new(&[0, 0, 0, 2, 1, 1]);
    assert_eq!(fine.count(0).expect("a count"), 2);
}

#[test]
fn a_search_gives_the_first_of_its_kind() {
    let data = [
        boxed(b"aaaa", b"one"),
        boxed(b"bbbb", b"other"),
        boxed(b"aaaa", b"other"),
    ]
    .concat();
    for at in [0, 900] {
        assert_eq!(find_in(&data, b"aaaa", at).expect("a walk"), Some(&b"one"[..]));
        assert_eq!(find_in(&data, b"bbbb", at).expect("a walk"), Some(&b"other"[..]));
        assert_eq!(find_in(&data, b"cccc", at).expect("a walk"), None);
    }
}

#[test]
fn a_walk_reads_the_headers_and_nothing_else() {
    let file = [
        boxed(b"ftyp", &[1; 5000]),
        boxed(b"mdat", &[2; 9000]),
        boxed(b"free", &[]),
    ]
    .concat();
    let mut src = Source::new(Cursor::new(file)).expect("a source");
    let before = src.tally();
    assert_eq!(top_level(&mut src).expect("the boxes").len(), 3);
    assert!(src.tally().bytes_read - before.bytes_read <= 16 * 3);
    assert!(src.tally().seeks - before.seeks <= 3);
}
