use ffrwd_bmff::boxes::{boxed, top_level};
use ffrwd_bmff::patch::{find, install, read, rewrite, spot, Found, Placed, Selector, Spot};
use ffrwd_bmff::source::{Cursor, Source};
use ffrwd_bmff::{Error, Limits};

const OURS: Selector = Selector::Uuid([0x5a; 16]);

fn plain() -> Vec<u8> {
    let mut file = boxed(b"ftyp", b"isom");
    file.extend_from_slice(&boxed(b"mdat", &[5; 64]));
    file
}

fn source(bytes: Vec<u8>) -> Source<Cursor> {
    Source::new(Cursor::new(bytes)).expect("a source")
}

#[test]
fn a_selector_is_its_header_and_its_prefix() {
    assert_eq!((OURS.kind(), OURS.prefix()), (*b"uuid", 16));
    assert_eq!(
        (Selector::Kind(*b"free").kind(), Selector::Kind(*b"free").prefix()),
        (*b"free", 0)
    );
    let mut want = vec![0, 0, 0, 26];
    want.extend_from_slice(b"uuid");
    want.extend_from_slice(&[0x5a; 16]);
    want.extend_from_slice(&[1, 2]);
    assert_eq!(OURS.boxed(&[1, 2]), want);
    assert_eq!(Selector::Kind(*b"free").boxed(&[9]), boxed(b"free", &[9]));
    assert!(OURS.claims(&[0x5a; 17]));
    assert!(!OURS.claims(&[0x5a; 15]));
    assert!(!OURS.claims(&[0x5b; 16]));
    assert!(Selector::Kind(*b"free").claims(&[]));
}

#[test]
fn what_was_written_reads_back_however_long_it_is() {
    for len in [0usize, 1, 100, 4072, 4073, 9000] {
        let payload: Vec<u8> = (0..len).map(|one| one as u8).collect();
        let before = plain();
        let mut src = source(before.clone());
        let placed = install(&mut src, OURS, &payload).expect("a write");
        assert_eq!(
            placed,
            Placed::Appended {
                at: before.len() as u64
            }
        );
        // The source knows how long the file is now.
        assert_eq!(
            read(&mut src, OURS).expect("a read").expect("a box"),
            payload,
            "{len} bytes"
        );
        let after = src.into_inner().into_inner();
        assert_eq!(&after[..before.len()], &before[..], "nothing moved");
        let mut src = source(after.clone());
        assert_eq!(
            find(&mut src, OURS).expect("a walk"),
            Some(Found {
                start: before.len() as u64,
                body: before.len() as u64 + 24,
                end: after.len() as u64,
                last: true
            })
        );
        // A second write replaces the first.
        assert_eq!(
            install(&mut src, OURS, b"next").expect("a write"),
            Placed::Replaced {
                at: before.len() as u64
            }
        );
        assert_eq!(src.len(), before.len() as u64 + 28);
        assert_eq!(
            read(&mut src, OURS).expect("a read").expect("a box"),
            b"next".to_vec()
        );
    }
}

#[test]
fn a_box_with_no_payload_is_found_at_the_tail_of_a_file_nobody_can_walk() {
    // Three stray bytes: the boxes do not reach the box at the end.
    let mut file = plain();
    file.extend_from_slice(&[9, 9, 9]);
    let at = file.len() as u64;
    file.extend_from_slice(&OURS.boxed(&[]));
    let mut src = source(file);
    assert!(top_level(&mut src).is_err());
    assert_eq!(
        find(&mut src, OURS).expect("a guess").expect("a box").start,
        at
    );
}

#[test]
fn a_largesize_box_is_found_at_the_tail() {
    let mut file = plain();
    let at = file.len() as u64;
    file.extend_from_slice(&[0, 0, 0, 1]);
    file.extend_from_slice(b"free");
    file.extend_from_slice(&19u64.to_be_bytes());
    file.extend_from_slice(&[7, 8, 9]);
    let mut src = source(file);
    let found = find(&mut src, Selector::Kind(*b"free"))
        .expect("a guess")
        .expect("a box");
    assert_eq!((found.start, found.body), (at, at + 16));
    assert_eq!(
        read(&mut src, Selector::Kind(*b"free")).expect("a read"),
        Some(vec![7, 8, 9])
    );
}

#[test]
fn every_spot_has_its_file() {
    let mut src = source(plain());
    assert_eq!(spot(&mut src, OURS).expect("a spot"), Spot::End(84));
    let mut with_mfra = plain();
    with_mfra.extend_from_slice(&boxed(b"mfra", &[1; 12]));
    let mut src = source(with_mfra.clone());
    assert_eq!(spot(&mut src, OURS).expect("a spot"), Spot::BeforeMfra(84));
    let mut last = plain();
    last.extend_from_slice(&OURS.boxed(&[1]));
    let mut src = source(last);
    assert_eq!(spot(&mut src, OURS).expect("a spot"), Spot::Over(84));
    let mut middle = plain();
    middle.extend_from_slice(&OURS.boxed(&[1]));
    middle.extend_from_slice(&boxed(b"free", &[]));
    let mut src = source(middle);
    assert_eq!(spot(&mut src, OURS).expect("a spot"), Spot::Rewrite(84, 109));

    // An mfra past what the reader will hold is left alone.
    let limits = Limits {
        max_read: 4096,
        ..Limits::default()
    };
    let mut big = plain();
    big.extend_from_slice(&boxed(b"mfra", &[1; 5000]));
    let mut src = Source::with_limits(Cursor::new(big.clone()), limits).expect("a source");
    let err = install(&mut src, OURS, &[1]).expect_err("a refusal");
    assert_eq!(
        err.to_string(),
        "an mfra larger than this writer will hold to move it at byte 84"
    );
    assert_eq!(src.into_inner().into_inner(), big, "the file was left alone");
}

#[test]
fn a_rewrite_is_the_file_without_the_old_box_and_then_the_new_one() {
    let old = OURS.boxed(&[1; 40]);
    let new = OURS.boxed(&[2; 3]);
    let front = boxed(b"ftyp", b"isom");
    let back = boxed(b"mdat", &vec![7; 3_000_000]);
    let want = [front.clone(), back.clone(), new.clone()].concat();
    // In the middle, at the end, and not there at all.
    for file in [
        [front.clone(), old.clone(), back.clone()].concat(),
        [front.clone(), back.clone(), old].concat(),
        [front, back].concat(),
    ] {
        let mut src = source(file);
        let mut out: Vec<u8> = vec![0xee];
        rewrite(&mut src, &mut out, OURS, &[2; 3]).expect("a rewrite");
        assert_eq!(out[0], 0xee, "what was there stays");
        assert!(out[1..] == want[..]);
    }
    // A reader that holds less than a chunk cannot copy.
    let limits = Limits {
        max_read: 5000,
        ..Limits::default()
    };
    let mut long = plain();
    long.extend_from_slice(&boxed(b"free", &[0; 6000]));
    let mut src = Source::with_limits(Cursor::new(long), limits).expect("a source");
    let mut out: Vec<u8> = Vec::new();
    let err = rewrite(&mut src, &mut out, OURS, &[]).expect_err("a refusal");
    assert!(matches!(err, Error::Format(_)));
    assert_eq!(err.offset(), Some(0));
    assert!(out.is_empty());
}

#[test]
fn bytes_inside_another_box_are_not_a_box_of_the_file() {
    let free = Selector::Kind(*b"free");
    let mut tail = vec![0, 0, 0, 8];
    tail.extend_from_slice(b"free");
    for inner in [boxed(b"free", &[1]), tail] {
        let file = boxed(b"mdat", &inner);
        let mut src = source(file.clone());
        assert_eq!(find(&mut src, free).expect("a walk"), None);
        assert_eq!(read(&mut src, free).expect("a read"), None);
        assert_eq!(
            spot(&mut src, free).expect("a spot"),
            Spot::End(file.len() as u64)
        );
        let placed = install(&mut src, free, b"ours").expect("a write");
        assert_eq!(placed, Placed::Appended { at: file.len() as u64 });
        let want = [file, boxed(b"free", b"ours")].concat();
        assert_eq!(src.into_inner().into_inner(), want, "nothing else moved");
    }
    // The same of a box of ours inside the last box of the file.
    let file = boxed(b"mdat", &OURS.boxed(&[1, 2, 3]));
    let mut src = source(file.clone());
    assert_eq!(find(&mut src, OURS).expect("a walk"), None);
    install(&mut src, OURS, b"ours").expect("a write");
    assert_eq!(read(&mut src, OURS).expect("a read"), Some(b"ours".to_vec()));
    assert_eq!(src.into_inner().into_inner()[..file.len()], file[..]);
}

#[test]
fn what_a_search_costs_is_the_window_and_the_headers() {
    let mut file = plain();
    file.extend_from_slice(&boxed(b"free", &vec![3; 100_000]));
    file.extend_from_slice(&OURS.boxed(&[7; 5000]));
    let mut src = source(file.clone());
    let before = src.tally().bytes_read;
    assert!(find(&mut src, OURS).expect("a walk").is_some());
    // Four boxes, and the prefix of the one that is ours.
    assert!(src.tally().bytes_read - before <= 4096 + 32 * 4);
    file.extend_from_slice(&OURS.boxed(&[7; 5]));
    let mut src = source(file);
    let before = src.tally().bytes_read;
    assert!(find(&mut src, OURS).expect("a guess").expect("a box").last);
    assert!(src.tally().bytes_read - before <= 4096 + 16 * 5);
}

#[test]
fn one_box_of_ours_is_left_after_a_write() {
    let mut ours_last = plain();
    ours_last.extend_from_slice(&OURS.boxed(&[1; 9]));
    let mut mfra_last = plain();
    mfra_last.extend_from_slice(&boxed(b"mfra", &[2; 12]));
    let mut theirs_last = plain();
    theirs_last.extend_from_slice(&Selector::Uuid([0x11; 16]).boxed(&[3]));
    for file in [plain(), ours_last, mfra_last, theirs_last, Vec::new()] {
        let mut src = source(file);
        install(&mut src, OURS, b"payload").expect("a write");
        let after = src.into_inner().into_inner();
        let mut src = source(after.clone());
        assert_eq!(
            read(&mut src, OURS).expect("a read"),
            Some(b"payload".to_vec())
        );
        let top = top_level(&mut src).expect("the boxes");
        let ours = top
            .iter()
            .filter(|one| one.is(b"uuid") && OURS.claims(&after[one.body as usize..]))
            .count();
        assert_eq!(ours, 1);
    }
}

#[test]
fn a_file_that_shrank_is_not_copied() {
    for cut in [0u64, 1, 12, 60, 83] {
        for selector in [OURS, Selector::Kind(*b"free")] {
            let mut src = source(plain());
            src.inner_mut().truncate(cut);
            let mut out: Vec<u8> = Vec::new();
            let err = rewrite(&mut src, &mut out, selector, &[1]).expect_err("a failure");
            assert!(matches!(err, Error::Io(_)), "cut at {cut}: {err:?}");
        }
    }
}

#[test]
fn the_last_box_of_a_full_file_can_be_replaced() {
    let limits = Limits {
        max_top_level: 3,
        ..Limits::default()
    };
    let mut full = plain();
    full.extend_from_slice(&OURS.boxed(&[1; 9]));
    let mut src = Source::with_limits(Cursor::new(full), limits).expect("a source");
    let placed = install(&mut src, OURS, b"again").expect("a write");
    assert_eq!(placed, Placed::Replaced { at: 84 });
    assert_eq!(read(&mut src, OURS).expect("a read"), Some(b"again".to_vec()));
    assert_eq!(top_level(&mut src).expect("the boxes").len(), 3);
    // One more box than that is more than a walk will pass.
    let mut other = plain();
    other.extend_from_slice(&boxed(b"free", &[]));
    let mut src = Source::with_limits(Cursor::new(other), limits).expect("a source");
    install(&mut src, OURS, b"again").expect("a write");
    assert!(top_level(&mut src).is_err());
}
