use ffrwd_bmff::boxes::{boxed, children, full_boxed};
use ffrwd_bmff::tables::{
    ctts, offsets32, offsets64, pairs, samples_of_stbl, stsc, stsz, stz2, sync_numbers, Sizes,
};
use ffrwd_bmff::track::{number, Handler, Pick, Sample, SampleEntry, Track};
use ffrwd_bmff::{Error, Limits};

fn words(list: &[u32]) -> Vec<u8> {
    list.iter().flat_map(|one| one.to_be_bytes()).collect()
}

fn table(kind: &[u8; 4], list: &[u32]) -> Vec<u8> {
    full_boxed(kind, 0, 0, &words(list))
}

fn samples(stbl: &[Vec<u8>]) -> Result<Vec<Sample>, Error> {
    samples_within(stbl, &Limits::default())
}

fn samples_within(stbl: &[Vec<u8>], limits: &Limits) -> Result<Vec<Sample>, Error> {
    let body = stbl.concat();
    samples_of_stbl(&children(&body, 0).expect("the tables"), limits)
}

fn sizes(list: &[u32]) -> Vec<u8> {
    let mut all = vec![0, list.len() as u32];
    all.extend_from_slice(list);
    table(b"stsz", &all)
}

#[test]
fn six_tables_add_up_to_the_samples() {
    let read = samples(&[
        sizes(&[10, 20, 30, 40, 50]),
        // Two samples in the first chunk, one in each after it.
        table(b"stsc", &[2, 1, 2, 1, 2, 1, 1]),
        table(b"stco", &[4, 1000, 2000, 3000, 4000]),
        // Three samples of 100 ticks, then one of 7; the last has none.
        table(b"stts", &[2, 3, 100, 1, 7]),
        table(b"ctts", &[2, 1, 50, 2, -20i32 as u32]),
        table(b"stss", &[2, 1, 4]),
    ])
    .expect("the samples");
    let want = |index, offset, size, dts, pts, duration, keyframe| Sample {
        index,
        offset,
        size,
        dts,
        pts,
        duration,
        keyframe,
    };
    assert_eq!(
        read,
        vec![
            want(0, 1000, 10, 0, 50, 100, true),
            want(1, 1010, 20, 100, 80, 100, false),
            want(2, 2000, 30, 200, 180, 100, false),
            want(3, 3000, 40, 300, 300, 7, true),
            want(4, 4000, 50, 307, 307, 0, false),
        ]
    );
    // The decode time after the last is what the deltas add up to.
    let track = Track::from_parts(Handler::Video, 1, SampleEntry::default(), read);
    assert_eq!(track.next_dts(), 307);
}

#[test]
fn a_track_with_no_sync_table_may_start_anywhere() {
    let read = samples(&[
        table(b"stsz", &[8, 3]),
        table(b"stsc", &[1, 1, 3, 1]),
        full_boxed(b"co64", 0, 0, &words(&[1, 1, 0])),
    ])
    .expect("the samples");
    assert!(read.iter().all(|one| one.keyframe));
    assert_eq!(
        read.iter().map(|one| one.offset).collect::<Vec<_>>(),
        [0x1_0000_0000, 0x1_0000_0008, 0x1_0000_0010]
    );
    assert!(read.iter().all(|one| one.dts == 0 && one.duration == 0));
}

#[test]
fn numbers_counted_from_one_take_a_zero_as_a_one() {
    let read = samples(&[
        sizes(&[1, 1]),
        table(b"stsc", &[1, 0, 2, 1]),
        table(b"stco", &[1, 70]),
        table(b"stss", &[2, 0, 9]),
    ])
    .expect("the samples");
    assert_eq!(
        read.iter().map(|one| one.keyframe).collect::<Vec<_>>(),
        [true, false]
    );
    assert_eq!(read[1].offset, 71);
}

#[test]
fn no_size_table_is_no_samples() {
    assert!(samples(&[]).expect("nothing").is_empty());
    assert!(samples(&[sizes(&[])]).expect("nothing").is_empty());
}

#[test]
fn tables_that_do_not_agree_are_refused_by_name() {
    let fail = |stbl: &[Vec<u8>]| samples(stbl).expect_err("a refusal").to_string();
    let one = sizes(&[4]);
    let map = table(b"stsc", &[1, 1, 1, 1]);
    let chunk = table(b"stco", &[1, 9]);
    assert_eq!(
        fail(&[one.clone()]),
        "a track with samples but no chunk offsets"
    );
    assert_eq!(
        fail(&[one.clone(), chunk.clone()]),
        "a track with samples but no stsc"
    );
    assert_eq!(
        fail(&[sizes(&[4, 4]), chunk, map.clone()]),
        "the chunk table describes fewer samples than the size table"
    );
    let far = full_boxed(b"co64", 0, 0, &words(&[1, u32::MAX, u32::MAX - 2]));
    assert_eq!(fail(&[one, far, map]), "a chunk that runs past the file");
    let limits = Limits {
        max_samples: 1,
        ..Limits::default()
    };
    assert_eq!(
        samples_within(&[sizes(&[1, 2])], &limits)
            .expect_err("a refusal")
            .to_string(),
        "more samples than this reader will hold"
    );
    assert_eq!(
        samples_within(&[table(b"stsz", &[5, 2])], &limits)
            .expect_err("a refusal")
            .to_string(),
        "more samples than this reader will hold"
    );
}

#[test]
fn packed_sizes_read_in_every_width() {
    let read = |field: u8, count: u32, packed: &[u8]| {
        let mut payload = vec![0, 0, 0, field];
        payload.extend_from_slice(&count.to_be_bytes());
        payload.extend_from_slice(packed);
        stz2(&full_boxed(b"stz2", 0, 0, &payload)[8..], 0)
    };
    let list = |sizes: Sizes| match sizes {
        Sizes::Table(list) => list,
        other => panic!("{other:?}"),
    };
    assert_eq!(list(read(4, 3, &[0x12, 0x3f]).expect("nibbles")), [1, 2, 3]);
    assert_eq!(list(read(8, 2, &[7, 250]).expect("bytes")), [7, 250]);
    assert_eq!(list(read(16, 1, &[1, 2]).expect("halves")), [0x0102]);
    assert_eq!(
        read(5, 0, &[]).expect_err("a refusal").to_string(),
        "an stz2 field width that is not 4, 8 or 16 in 'stz2'"
    );
    assert_eq!(
        read(16, 2, &[1, 2, 3]).expect_err("a truncation").to_string(),
        "the bytes end inside a value at byte 12"
    );
    // The same sizes, by way of the samples.
    let mut payload = vec![0, 0, 0, 4];
    payload.extend_from_slice(&words(&[2]));
    payload.push(0x35);
    let read = samples(&[
        full_boxed(b"stz2", 0, 0, &payload),
        table(b"stsc", &[1, 1, 2, 1]),
        table(b"stco", &[1, 100]),
    ])
    .expect("the samples");
    assert_eq!(
        read.iter().map(|one| (one.offset, one.size)).collect::<Vec<_>>(),
        [(100, 3), (103, 5)]
    );
}

#[test]
fn each_table_reads_its_rows() {
    let body = |list: &[u32]| table(b"xxxx", list)[8..].to_vec();
    assert_eq!(offsets32(&body(&[2, 5, 6]), 0).expect("offsets"), [5, 6]);
    assert_eq!(
        offsets64(&body(&[1, 1, 2]), 0).expect("offsets"),
        [0x1_0000_0002]
    );
    assert_eq!(stsc(&body(&[1, 1, 2, 3]), 0).expect("a map"), [(1, 2, 3)]);
    assert_eq!(pairs(&body(&[1, 4, 5]), 0).expect("times"), [(4, 5)]);
    assert_eq!(
        ctts(&body(&[1, 4, u32::MAX]), 0).expect("offsets"),
        [(4, -1)]
    );
    assert_eq!(sync_numbers(&body(&[2, 1, 8]), 0).expect("numbers"), [1, 8]);
    // A table is refused when its box does not hold the rows it claims.
    for list in [&[2u32, 1][..], &[u32::MAX][..]] {
        assert!(offsets32(&body(list), 0).is_err());
        assert!(offsets64(&body(list), 0).is_err());
        assert!(stsc(&body(list), 0).is_err());
        assert!(pairs(&body(list), 0).is_err());
        assert!(ctts(&body(list), 0).is_err());
        assert!(sync_numbers(&body(list), 0).is_err());
    }
    assert!(stsz(&body(&[0, 9]), 0, &Limits::default()).is_err());
    match stsz(&body(&[6, 9]), 0, &Limits::default()).expect("sizes") {
        Sizes::Uniform { size, count } => assert_eq!((size, count), (6, 9)),
        other => panic!("{other:?}"),
    }
}

#[test]
fn samples_are_numbered_in_order() {
    let mut list = vec![Sample::default(); 3];
    number(&mut list);
    assert_eq!(
        list.iter().map(|one| one.index).collect::<Vec<_>>(),
        [0, 1, 2]
    );
    assert!(Pick::First.wants(&Track::from_parts(
        Handler::Other(*b"text"),
        1,
        SampleEntry::default(),
        list
    )));
}

#[test]
fn the_version_of_a_composition_table_does_not_matter() {
    let rows = words(&[1, 3, -9i32 as u32]);
    let zero = full_boxed(b"ctts", 0, 0, &rows);
    let one = full_boxed(b"ctts", 1, 0, &rows);
    assert_eq!(
        ctts(&zero[8..], 0).expect("the offsets"),
        ctts(&one[8..], 0).expect("the offsets")
    );
    assert_eq!(ctts(&one[8..], 0).expect("the offsets"), vec![(3, -9)]);
}

#[test]
fn what_is_wrong_before_a_table_is_said_before_its_room_is_asked_for() {
    let limits = Limits {
        max_samples: 4,
        ..Limits::default()
    };
    let full = |kind: &[u8; 4], list: &[u32]| {
        let words: Vec<u8> = list.iter().flat_map(|one| one.to_be_bytes()).collect();
        full_boxed(kind, 0, 0, &words)
    };
    let fail = |tables: &[Vec<u8>], limits: &Limits| {
        let stbl = tables.concat();
        let list = children(&stbl, 0).expect("the tables");
        samples_of_stbl(&list, limits).expect_err("a refusal").to_string()
    };
    // More samples than the reader will hold, one size for all or one each.
    let past = "more samples than this reader will hold";
    assert_eq!(fail(&[full(b"stsz", &[7, 5])], &limits), past);
    assert_eq!(fail(&[full(b"stsz", &[0, 5, 1, 1, 1, 1, 1])], &limits), past);
    // Samples, and no chunks; chunks, and no map.
    let sizes = full(b"stsz", &[7, 2]);
    assert_eq!(
        fail(&[sizes.clone()], &limits),
        "a track with samples but no chunk offsets"
    );
    assert_eq!(
        fail(&[sizes.clone(), full(b"stco", &[1, 9])], &limits),
        "a track with samples but no stsc"
    );
    // A table that its box does not hold.
    assert_eq!(
        fail(&[sizes, full(b"stco", &[9, 9])], &limits),
        "a table longer than the box holding it at byte 32"
    );
}
