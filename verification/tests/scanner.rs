use ffrwd_bmff::boxes::{boxed, full_boxed};
use ffrwd_bmff::scanner::{Scanner, Segment};
use ffrwd_bmff::{Error, Limits};

fn moof_bytes(sequence: u32, keyframe: bool) -> Vec<u8> {
    let flags: u32 = if keyframe { 0x0200_0000 } else { 0x0101_0000 };
    let mut trun_payload = 1u32.to_be_bytes().to_vec();
    trun_payload.extend_from_slice(&0i32.to_be_bytes()); // data_offset
    trun_payload.extend_from_slice(&flags.to_be_bytes()); // first_sample_flags
    trun_payload.extend_from_slice(&4u32.to_be_bytes()); // sample_size
    let traf = boxed(
        b"traf",
        &[
            full_boxed(b"tfhd", 0, 0x02_0000, &1u32.to_be_bytes()),
            full_boxed(b"trun", 1, 0x01 | 0x04 | 0x200, &trun_payload),
        ]
        .concat(),
    );
    boxed(
        b"moof",
        &[full_boxed(b"mfhd", 0, 0, &sequence.to_be_bytes()), traf].concat(),
    )
}

fn stream() -> Vec<u8> {
    let mut out = boxed(b"ftyp", b"iso5");
    out.extend_from_slice(&boxed(b"moov", &[0; 16]));
    for index in 0..3u32 {
        out.extend_from_slice(&moof_bytes(index + 1, index == 0));
        out.extend_from_slice(&boxed(b"mdat", &[index as u8; 4]));
    }
    out.extend_from_slice(&boxed(b"mfra", &[0; 8]));
    out
}

fn cut(bytes: &[u8], step: usize) -> Vec<Segment> {
    let mut scanner = Scanner::new();
    let mut out = Vec::new();
    for chunk in bytes.chunks(step.max(1)) {
        scanner.push(chunk).expect("a push");
        while let Some(segment) = scanner.poll() {
            out.push(segment);
        }
    }
    scanner.finish().expect("a clean end");
    while let Some(segment) = scanner.poll() {
        out.push(segment);
    }
    out
}

#[test]
fn a_stream_cuts_the_same_way_whatever_size_the_chunks_are() {
    let bytes = stream();
    for step in [1usize, 3, 7, 64, 4096] {
        let segments = cut(&bytes, step);
        assert_eq!(segments.len(), 4, "step {step}");
        match &segments[0] {
            Segment::Init(init) => {
                assert_eq!(init.offset, 0);
                assert_eq!(init.bytes.len(), 12 + 24);
            }
            other => panic!("step {step}: {other:?}"),
        }
        let keyframes: Vec<Option<bool>> = segments[1..]
            .iter()
            .map(|segment| match segment {
                Segment::Fragment(frag) => frag.keyframe,
                other => panic!("{other:?}"),
            })
            .collect();
        assert_eq!(keyframes, [Some(true), Some(false), Some(false)]);
    }
}

#[test]
fn the_trailer_is_kept_aside_and_not_emitted() {
    let bytes = stream();
    let mut scanner = Scanner::new();
    scanner.push(&bytes).expect("a push");
    scanner.finish().expect("a clean end");
    let mut count = 0;
    while scanner.poll().is_some() {
        count += 1;
    }
    assert_eq!(count, 4);
    assert_eq!(&scanner.trailer()[4..8], b"mfra");
}

#[test]
fn an_mdat_of_declared_size_zero_closes_at_the_end_of_the_stream() {
    // §4.2's third size, which a muxer writing into a pipe uses
    // because it does not know the length when it writes the
    // header.
    let mut bytes = boxed(b"ftyp", b"iso5");
    bytes.extend_from_slice(&boxed(b"moov", &[0; 16]));
    bytes.extend_from_slice(&moof_bytes(1, true));
    bytes.extend_from_slice(&[0, 0, 0, 0]);
    bytes.extend_from_slice(b"mdat");
    bytes.extend_from_slice(&[7; 40]);

    let mut scanner = Scanner::new();
    scanner.push(&bytes).expect("a push");
    assert!(
        matches!(scanner.poll(), Some(Segment::Init(_))),
        "the init segment leaves before the open box closes"
    );
    assert!(scanner.poll().is_none(), "the fragment is still open");
    scanner.finish().expect("the open box closes at the end");
    match scanner.poll() {
        Some(Segment::Fragment(frag)) => {
            assert_eq!(frag.sequence, Some(1));
            assert_eq!(&frag.bytes[frag.bytes.len() - 40..], &[7; 40]);
        }
        other => panic!("{other:?}"),
    }
}

#[test]
fn a_box_past_the_buffer_bound_is_named_rather_than_held() {
    let limits = Limits {
        max_buffered_box: 32,
        ..Limits::default()
    };
    let mut scanner = Scanner::with_limits(limits);
    let mut bytes = 1024u32.to_be_bytes().to_vec();
    bytes.extend_from_slice(b"moov");
    let err = scanner.push(&bytes).expect_err("a refusal");
    assert!(matches!(err, Error::Unsupported(_)), "{}", err.to_string());
    assert!(err.to_string().contains("hold in memory"), "{}", err.to_string());
}

#[test]
fn a_stream_that_ends_inside_a_fragment_says_so() {
    let bytes = stream();
    let mut scanner = Scanner::new();
    scanner
        .push(&bytes[..bytes.len() - 20])
        .expect("a partial push");
    let err = scanner.finish().expect_err("a truncation");
    assert!(matches!(err, Error::Truncated(_)), "{}", err.to_string());
}

#[test]
fn a_moof_before_a_moov_is_refused() {
    let mut scanner = Scanner::new();
    let mut bytes = boxed(b"ftyp", b"iso5");
    bytes.extend_from_slice(&moof_bytes(1, true));
    let err = scanner.push(&bytes).expect_err("a refusal");
    assert_eq!(err.offset(), Some(12));
}

#[test]
fn every_truncation_of_a_stream_is_an_error_and_not_a_panic() {
    let bytes = stream();
    for cut in 0..bytes.len() {
        let mut scanner = Scanner::new();
        let _ = scanner.push(&bytes[..cut]);
        while scanner.poll().is_some() {}
        let _ = scanner.finish();
    }
}
