use ffrwd_bmff::boxes::{boxed, top_level, uuid_boxed};
use ffrwd_bmff::patch::{find, install, read, rewrite, spot, Placed, Selector, Spot};
use ffrwd_bmff::source::{Cursor, Source};
use ffrwd_bmff::Error;

const UUID: [u8; 16] = [
    0x8f, 0x2c, 0x4b, 0x1d, 0x7a, 0x64, 0x41, 0xe9, 0xb3, 0x05, 0x26, 0x7c, 0x0a, 0x5d, 0x31,
    0x88,
];

fn selector() -> Selector {
    Selector::Uuid(UUID)
}

fn plain() -> Vec<u8> {
    let mut file = boxed(b"ftyp", b"isom");
    file.extend_from_slice(&boxed(b"mdat", &[5; 64]));
    file.extend_from_slice(&boxed(b"moov", &[0; 32]));
    file
}

fn payload(byte: u8) -> Vec<u8> {
    vec![b'F', b'F', b'I', b'X', 1, byte]
}

fn source(bytes: Vec<u8>) -> Source<Cursor> {
    Source::new(Cursor::new(bytes)).expect("a source")
}

/// Writes a box into a file, through a source of its own.
fn write_into(file: &mut Cursor, selector: Selector, payload: &[u8]) -> Result<Placed, Error> {
    let mut src = Source::new(file.clone()).expect("a source");
    let placed = install(&mut src, selector, payload);
    *file = src.into_inner();
    placed
}

#[test]
fn a_box_is_appended_and_then_written_over() {
    let before = plain();
    let mut file = Cursor::new(before.clone());
    let placed = write_into(&mut file, selector(), &payload(0)).expect("a write");
    assert_eq!(
        placed,
        Placed::Appended {
            at: before.len() as u64
        }
    );
    assert_eq!(
        &file.get_ref()[..before.len()],
        &before[..],
        "nothing moved"
    );

    // A second write lands on top of the first, so the file does
    // not grow a box a read.
    let grown = file.get_ref().len();
    let placed = write_into(&mut file, selector(), &payload(1)).expect("a write");
    assert_eq!(
        placed,
        Placed::Replaced {
            at: before.len() as u64
        }
    );
    assert_eq!(file.get_ref().len(), grown);
    let mut src = source(file.into_inner());
    assert_eq!(
        read(&mut src, selector()).expect("a read").expect("a box"),
        payload(1)
    );
    assert!(src.tally().bytes_read < 8192, "the tail guess found it");
}

#[test]
fn a_fragmented_file_keeps_its_mfra_last() {
    let mut before = boxed(b"ftyp", b"isom");
    before.extend_from_slice(&boxed(b"moof", &[0; 16]));
    before.extend_from_slice(&boxed(b"mdat", &[5; 64]));
    let at = before.len() as u64;
    let mfra = boxed(b"mfra", &[1, 2, 3, 4]);
    before.extend_from_slice(&mfra);

    let mut file = Cursor::new(before.clone());
    let placed = write_into(&mut file, selector(), &payload(2)).expect("a write");
    assert_eq!(
        placed,
        Placed::BeforeMfra {
            at,
            moved: mfra.len() as u64
        }
    );
    let after = file.into_inner();
    assert_eq!(
        &after[after.len() - mfra.len()..],
        &mfra[..],
        "mfra is last"
    );
    let mut src = source(after);
    assert_eq!(
        read(&mut src, selector()).expect("a read").expect("a box"),
        payload(2)
    );
}

#[test]
fn a_box_in_the_middle_is_refused_until_a_rewrite_is_asked_for() {
    let mut before = boxed(b"ftyp", b"isom");
    let at = before.len() as u64;
    before.extend_from_slice(&selector().boxed(&payload(3)));
    let end = before.len() as u64;
    before.extend_from_slice(&boxed(b"mdat", &[5; 64]));
    before.extend_from_slice(&boxed(b"moov", &[0; 32]));

    let mut src = source(before.clone());
    assert_eq!(
        spot(&mut src, selector()).expect("a spot"),
        Spot::Rewrite(at, end)
    );

    let mut file = Cursor::new(before.clone());
    let err = write_into(&mut file, selector(), &payload(4)).expect_err("a refusal");
    assert_eq!(err.offset(), Some(at));
    assert_eq!(file.into_inner(), before, "the file was left alone");

    let mut src = source(before);
    let mut out: Vec<u8> = Vec::new();
    rewrite(&mut src, &mut out, selector(), &payload(4)).expect("a rewrite");
    let mut src = source(out);
    assert_eq!(
        read(&mut src, selector()).expect("a read").expect("a box"),
        payload(4)
    );
    // And there is only one of them left.
    let top = top_level(&mut src).expect("the boxes");
    assert_eq!(top.iter().filter(|header| header.is(b"uuid")).count(), 1);
}

#[test]
fn a_plain_four_character_box_works_the_same_way() {
    let selector = Selector::Kind(*b"free");
    let before = plain();
    let mut file = Cursor::new(before.clone());
    write_into(&mut file, selector, b"anything").expect("a write");
    let mut src = source(file.into_inner());
    assert_eq!(
        read(&mut src, selector).expect("a read").expect("a box"),
        b"anything".to_vec()
    );
}

#[test]
fn a_uuid_box_of_someone_else_is_not_ours() {
    let mut file = plain();
    file.extend_from_slice(&uuid_boxed(&[0x11; 16], b"theirs"));
    let mut src = source(file);
    assert_eq!(find(&mut src, selector()).expect("a walk"), None);
}

#[test]
fn every_truncation_of_a_patched_file_is_an_error_and_not_a_panic() {
    let mut file = plain();
    file.extend_from_slice(&selector().boxed(&payload(9)));
    for cut in 0..file.len() {
        let mut src = source(file[..cut].to_vec());
        let _ = find(&mut src, selector());
        let _ = read(&mut src, selector());
        let _ = spot(&mut src, selector());
    }
}
