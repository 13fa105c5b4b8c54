use ffrwd_bmff::boxes::{boxed, full_boxed};
use ffrwd_bmff::scanner::{moof_summary, MoofSummary, Scanner, Segment};
use ffrwd_bmff::{Error, Limits};

fn words(list: &[u32]) -> Vec<u8> {
    list.iter().flat_map(|one| one.to_be_bytes()).collect()
}

fn moof(traf: &[Vec<u8>]) -> Vec<u8> {
    let mut body = full_boxed(b"mfhd", 0, 0, &words(&[9]));
    for one in traf {
        body.extend_from_slice(&boxed(b"traf", one));
    }
    boxed(b"moof", &body)
}

fn plain_moof() -> Vec<u8> {
    moof(&[[
        full_boxed(b"tfhd", 0, 0x02_0000, &words(&[1])),
        full_boxed(b"trun", 0, 0x200, &words(&[1, 4])),
    ]
    .concat()])
}

fn start() -> Vec<u8> {
    let mut out = boxed(b"ftyp", b"iso5");
    out.extend_from_slice(&boxed(b"moov", &[0; 16]));
    out
}

fn open_box(kind: &[u8; 4], body: &[u8]) -> Vec<u8> {
    let mut out = vec![0, 0, 0, 0];
    out.extend_from_slice(kind);
    out.extend_from_slice(body);
    out
}

fn bytes_of(segment: &Segment) -> Vec<u8> {
    match segment {
        Segment::Init(init) => init.bytes.clone(),
        Segment::Fragment(fragment) => fragment.bytes.clone(),
    }
}

fn offset_of(segment: &Segment) -> u64 {
    match segment {
        Segment::Init(init) => init.offset,
        Segment::Fragment(fragment) => fragment.offset,
    }
}

#[test]
fn nothing_is_lost_between_the_stream_and_the_segments() {
    let mut stream = start();
    for byte in 0..3u8 {
        stream.extend_from_slice(&plain_moof());
        stream.extend_from_slice(&boxed(b"free", &[byte; 3]));
        stream.extend_from_slice(&boxed(b"mdat", &[byte; 5]));
    }
    stream.extend_from_slice(&boxed(b"mfra", &[7; 9]));
    for step in 1..stream.len() {
        let mut scanner = Scanner::new();
        let mut got = Vec::new();
        for chunk in stream.chunks(step) {
            scanner.push(chunk).expect("a push");
            while let Some(segment) = scanner.poll() {
                assert_eq!(offset_of(&segment), got.len() as u64, "end to end");
                got.extend_from_slice(&bytes_of(&segment));
            }
        }
        scanner.finish().expect("a clean end");
        got.extend_from_slice(scanner.trailer());
        assert_eq!(got, stream, "step {step}");
        assert_eq!(scanner.consumed(), stream.len() as u64);
    }
}

#[test]
fn a_fragment_says_its_sequence_and_its_first_sample() {
    let mut scanner = Scanner::default();
    let mut stream = start();
    stream.extend_from_slice(&plain_moof());
    stream.extend_from_slice(&boxed(b"mdat", &[1; 4]));
    scanner.push(&stream).expect("a push");
    assert!(matches!(scanner.poll(), Some(Segment::Init(_))));
    match scanner.poll() {
        Some(Segment::Fragment(fragment)) => {
            assert_eq!(fragment.sequence, Some(9));
            assert_eq!(fragment.keyframe, None, "only a trex could say");
            assert_eq!(fragment.offset, 36);
        }
        other => panic!("{other:?}"),
    }
    assert!(scanner.poll().is_none());
}

#[test]
fn the_first_samples_flags_follow_their_precedence() {
    let summary = |traf: &[Vec<u8>]| moof_summary(&moof(traf), 0).expect("a summary");
    // The tfhd default, where the run says nothing.
    let default = full_boxed(b"tfhd", 0, 0x20, &words(&[1, 0x0001_0000]));
    let bare = full_boxed(b"trun", 0, 0, &words(&[0]));
    assert_eq!(
        summary(&[[default.clone(), bare.clone()].concat()]),
        MoofSummary {
            sequence: Some(9),
            first_sample_keyframe: Some(false)
        }
    );
    // The first sample's own flags beat it.
    let own = full_boxed(b"trun", 0, 0x701, &words(&[1, 0, 5, 6, 0x0200_0000]));
    assert_eq!(
        summary(&[[default.clone(), own].concat()]).first_sample_keyframe,
        Some(true)
    );
    // And first_sample_flags beat those.
    let first = full_boxed(b"trun", 0, 0x404, &words(&[1, 0x0001_0000, 0x0200_0000]));
    assert_eq!(
        summary(&[[default, first.clone()].concat()]).first_sample_keyframe,
        Some(false)
    );
    // The first track fragment that decides is the one that counts.
    let silent = full_boxed(b"tfhd", 0, 0, &words(&[1]));
    assert_eq!(
        summary(&[[silent.clone(), bare.clone()].concat(), [silent, first].concat()])
            .first_sample_keyframe,
        Some(false)
    );
    // A moof that says nothing.
    assert_eq!(
        moof_summary(&boxed(b"moof", &[]), 0).expect("a summary"),
        MoofSummary {
            sequence: None,
            first_sample_keyframe: None
        }
    );
    assert_eq!(
        moof_summary(&[0, 0, 0], 4).expect_err("a refusal").to_string(),
        "a moof shorter than a box header at byte 4"
    );
}

#[test]
fn a_trailer_of_declared_size_zero_ends_with_the_stream() {
    let mut stream = start();
    stream.extend_from_slice(&plain_moof());
    stream.extend_from_slice(&boxed(b"mdat", &[1; 4]));
    let before = stream.len();
    stream.extend_from_slice(&open_box(b"free", &[3; 20]));
    let mut scanner = Scanner::new();
    scanner.push(&stream).expect("a push");
    scanner.push(&[4; 6]).expect("a push");
    scanner.finish().expect("the open box closes at the end");
    assert_eq!(scanner.trailer().len(), stream.len() + 6 - before);
    let mut count = 0;
    while scanner.poll().is_some() {
        count += 1;
    }
    assert_eq!(count, 2, "it is kept aside");
    scanner.finish().expect("and it is over");
}

#[test]
fn an_open_box_before_any_fragment_is_a_truncation() {
    let mut scanner = Scanner::new();
    scanner.push(&boxed(b"ftyp", b"iso5")).expect("a push");
    scanner.push(&open_box(b"moov", &[0; 4])).expect("a push");
    let err = scanner.finish().expect_err("a truncation");
    assert_eq!(
        err.to_string(),
        "the stream ended inside an open-ended box before any fragment at byte 24"
    );
}

#[test]
fn every_way_a_stream_can_end_early_has_its_own_words() {
    let end = |stream: &[u8]| {
        let mut scanner = Scanner::new();
        scanner.push(stream).expect("a push");
        scanner.finish().expect_err("a truncation").to_string()
    };
    assert_eq!(
        end(&start()),
        "the stream ended before any movie fragment at byte 36"
    );
    assert_eq!(end(&start()[..30]), "the stream ended inside a box at byte 12");
    let mut stream = start();
    stream.extend_from_slice(&plain_moof());
    assert_eq!(
        end(&stream),
        "the stream ended inside a fragment, with no mdat at byte 36"
    );
}

#[test]
fn a_moof_in_the_wrong_place_is_refused() {
    let mut stream = start();
    stream.extend_from_slice(&plain_moof());
    let at = stream.len();
    stream.extend_from_slice(&plain_moof());
    let mut scanner = Scanner::new();
    let err = scanner.push(&stream).expect_err("a refusal");
    assert_eq!(
        err.to_string(),
        format!("a moof before the previous fragment's mdat at byte {at}")
    );

    let mut stream = start();
    stream.extend_from_slice(&plain_moof());
    stream.extend_from_slice(&boxed(b"mdat", &[1; 4]));
    stream.extend_from_slice(&boxed(b"mfra", &[]));
    let at = stream.len();
    stream.extend_from_slice(&plain_moof());
    let mut scanner = Scanner::new();
    let err = scanner.push(&stream).expect_err("a refusal");
    assert_eq!(
        err.to_string(),
        format!("a moof after the stream's trailer began at byte {at}")
    );
}

#[test]
fn what_is_held_of_one_box_is_bounded_however_it_arrives() {
    let limits = Limits {
        max_buffered_box: 100,
        ..Limits::default()
    };
    // An open box grows past the bound a chunk at a time. What is held beside
    // it does not count.
    let mut scanner = Scanner::with_limits(limits);
    scanner.push(&start()).expect("a push");
    scanner.push(&plain_moof()).expect("a push");
    scanner.push(&open_box(b"mdat", &[1; 2])).expect("a push");
    scanner.push(&[1; 60]).expect("seventy bytes of it");
    scanner.push(&[1; 30]).expect("a hundred bytes of it");
    let err = scanner.push(&[1]).expect_err("a refusal");
    assert!(matches!(err, Error::Unsupported(_)));
    // And all at once.
    let mut scanner = Scanner::with_limits(limits);
    let mut stream = start();
    stream.extend_from_slice(&plain_moof());
    stream.extend_from_slice(&open_box(b"mdat", &[1; 93]));
    let again = scanner.push(&stream).expect_err("a refusal");
    assert_eq!(again.to_string(), err.to_string());
    // An open box behind the last fragment is bounded the same way.
    let mut stream = start();
    stream.extend_from_slice(&plain_moof());
    stream.extend_from_slice(&boxed(b"mdat", &[1; 4]));
    stream.extend_from_slice(&open_box(b"mfra", &[1; 92]));
    let mut scanner = Scanner::with_limits(limits);
    scanner.push(&stream).expect("a push");
    assert!(matches!(scanner.push(&[1]), Err(Error::Unsupported(_))));
}

#[test]
fn the_bound_is_on_a_box_and_not_on_a_fragment() {
    let limits = Limits {
        max_buffered_box: 32,
        ..Limits::default()
    };
    let stream = [
        boxed(b"moov", &[]),
        boxed(b"moof", &[]),
        boxed(b"mdat", &[0; 24]),
    ]
    .concat();
    let mut scanner = Scanner::with_limits(limits);
    scanner.push(&stream).expect("no box is past the bound");
    match scanner.poll() {
        Some(Segment::Init(init)) => {
            assert_eq!((init.bytes, init.offset), (boxed(b"moov", &[]), 0));
        }
        other => panic!("{other:?}"),
    }
    match scanner.poll() {
        Some(Segment::Fragment(fragment)) => {
            assert_eq!((fragment.bytes.len(), fragment.offset), (40, 8));
        }
        other => panic!("{other:?}"),
    }
    assert!(scanner.poll().is_none());
    // One byte more in the mdat is.
    let mut scanner = Scanner::with_limits(limits);
    let long = [&stream[..16], &boxed(b"mdat", &[0; 25])[..]].concat();
    assert!(matches!(scanner.push(&long), Err(Error::Unsupported(_))));
    // And an init segment of several boxes is not.
    let mut scanner = Scanner::with_limits(limits);
    scanner
        .push(&[boxed(b"ftyp", &[1; 24]), boxed(b"moov", &[1; 24]), boxed(b"moof", &[])].concat())
        .expect("three boxes within the bound");
    match scanner.poll() {
        Some(Segment::Init(init)) => assert_eq!(init.bytes.len(), 64),
        other => panic!("{other:?}"),
    }
}

#[test]
fn an_open_box_is_cut_the_same_whatever_size_the_chunks_are() {
    for kind in [b"mdat", b"moof", b"mfra"] {
        let mut stream = start();
        if kind != b"moof" {
            stream.extend_from_slice(&plain_moof());
        }
        if kind == b"mfra" {
            stream.extend_from_slice(&boxed(b"mdat", &[1; 4]));
        }
        let inner: Vec<u8> = match kind {
            b"moof" => plain_moof()[8..].to_vec(),
            _ => vec![3; 20],
        };
        stream.extend_from_slice(&open_box(kind, &inner));
        let run = |step: usize| {
            let mut scanner = Scanner::new();
            for chunk in stream.chunks(step) {
                scanner.push(chunk).expect("a push");
            }
            let end = scanner.finish().map_err(|err| err.to_string());
            let mut got = Vec::new();
            while let Some(segment) = scanner.poll() {
                got.push((offset_of(&segment), bytes_of(&segment)));
            }
            (end, got, scanner.trailer().to_vec(), scanner.consumed())
        };
        let whole = run(stream.len());
        for step in 1..stream.len() {
            assert_eq!(run(step), whole, "step {step}");
        }
    }
}

#[test]
fn what_is_consumed_is_the_whole_boxes_so_far() {
    let mut stream = start();
    stream.extend_from_slice(&plain_moof());
    stream.extend_from_slice(&boxed(b"mdat", &[1; 4]));
    stream.extend_from_slice(&boxed(b"mfra", &[7; 9]));
    let mut ends = Vec::new();
    let mut at = 0;
    while at < stream.len() {
        let size = u32::from_be_bytes([
            stream[at],
            stream[at + 1],
            stream[at + 2],
            stream[at + 3],
        ]);
        at += size as usize;
        ends.push(at);
    }
    assert_eq!(at, stream.len());
    let mut scanner = Scanner::new();
    for (index, byte) in stream.iter().enumerate() {
        scanner.push(&[*byte]).expect("a push");
        let want = ends.iter().filter(|end| **end <= index + 1).max();
        assert_eq!(scanner.consumed(), *want.unwrap_or(&0) as u64, "after {index}");
    }
}

#[test]
fn a_clean_end_is_one_init_and_a_fragment_and_can_be_said_twice() {
    let mut stream = start();
    stream.extend_from_slice(&plain_moof());
    stream.extend_from_slice(&boxed(b"mdat", &[1; 4]));
    let mut scanner = Scanner::new();
    scanner.push(&stream).expect("a push");
    scanner.finish().expect("a clean end");
    assert!(matches!(scanner.poll(), Some(Segment::Init(_))));
    assert!(matches!(scanner.poll(), Some(Segment::Fragment(_))));
    assert!(scanner.poll().is_none());
    scanner.finish().expect("a clean end again");
    assert!(scanner.poll().is_none(), "nothing is queued");
    assert_eq!(scanner.consumed(), stream.len() as u64);
    // An init segment alone is not one.
    let mut scanner = Scanner::new();
    scanner.push(&start()).expect("a push");
    assert!(scanner.finish().is_err());
}
