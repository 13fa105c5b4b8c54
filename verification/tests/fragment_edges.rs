use ffrwd_bmff::boxes::{boxed, full_boxed};
use ffrwd_bmff::fragment::{
    read_tfdt, read_tfhd, read_trun, sample_bytes, samples_of_moof, Entry, Tfhd, NON_SYNC,
};
use ffrwd_bmff::track::{Handler, Sample, SampleEntry, Track, TrexDefaults};
use ffrwd_bmff::{Error, Limits};

fn words(list: &[u32]) -> Vec<u8> {
    list.iter().flat_map(|one| one.to_be_bytes()).collect()
}

fn silent() -> Tfhd {
    Tfhd {
        track_id: 1,
        base_data_offset: None,
        base_is_moof: false,
        default_duration: None,
        default_size: None,
        default_flags: None,
    }
}

#[test]
fn a_tfhd_reads_every_field_its_flags_name() {
    let mut payload = words(&[7, 0, 5000, 2, 10, 20, 30]);
    let body = full_boxed(b"tfhd", 0, 0x02_003b, &payload);
    assert_eq!(
        read_tfhd(&body[8..], 0).expect("a tfhd"),
        Tfhd {
            track_id: 7,
            base_data_offset: Some(5000),
            base_is_moof: true,
            default_duration: Some(10),
            default_size: Some(20),
            default_flags: Some(30),
        }
    );
    // Cut anywhere, the field that is not there is where it gave up.
    for (cut, at) in [(3, 1), (5, 4), (12, 8), (17, 16), (21, 20), (26, 24), (31, 28)] {
        let err = read_tfhd(&body[8..8 + cut], 100).expect_err("a truncation");
        assert_eq!(err.offset(), Some(100 + at), "cut at {cut}");
    }
    payload.truncate(4);
    let bare = full_boxed(b"tfhd", 0, 0, &payload);
    assert_eq!(
        read_tfhd(&bare[8..], 0).expect("a tfhd"),
        Tfhd {
            track_id: 7,
            ..silent()
        }
    );
}

#[test]
fn the_base_of_a_track_fragment_has_three_cases() {
    let bare = silent();
    assert_eq!(bare.base(100, true, 900), 100);
    assert_eq!(bare.base(100, false, 900), 900);
    let moof = Tfhd {
        base_is_moof: true,
        ..bare
    };
    assert_eq!(moof.base(100, false, 900), 100);
    let told = Tfhd {
        base_data_offset: Some(5),
        ..moof
    };
    assert_eq!(told.base(100, true, 900), 5);
}

#[test]
fn a_tfdt_reads_in_either_width() {
    let wide = full_boxed(b"tfdt", 1, 0, &(1u64 << 40).to_be_bytes());
    assert_eq!(read_tfdt(&wide[8..], 0).expect("a time"), 1 << 40);
    let narrow = full_boxed(b"tfdt", 0, 0, &words(&[u32::MAX]));
    assert_eq!(read_tfdt(&narrow[8..], 0).expect("a time"), 4294967295);
    assert_eq!(
        read_tfdt(&wide[8..16], 50).expect_err("a truncation").offset(),
        Some(54)
    );
}

#[test]
fn a_run_falls_back_from_its_rows_to_the_tfhd_to_the_trex() {
    let trex = TrexDefaults {
        duration: 1,
        size: 2,
        flags: 3,
    };
    let tfhd = Tfhd {
        default_size: Some(20),
        ..silent()
    };
    let bare = full_boxed(b"trun", 0, 0, &words(&[2, 0]));
    let (offset, entries) =
        read_trun(&bare[8..], 0, &tfhd, &trex, &Limits::default()).expect("a run");
    assert_eq!(offset, None);
    assert_eq!(
        entries,
        vec![
            Entry {
                duration: 1,
                size: 20,
                flags: 3,
                composition_offset: 0
            };
            2
        ]
    );
    // first_sample_flags are the first sample's and nobody else's.
    let first = full_boxed(b"trun", 0, 0x105, &words(&[2, -8i32 as u32, 77, 5, 6]));
    let (offset, entries) =
        read_trun(&first[8..], 0, &tfhd, &trex, &Limits::default()).expect("a run");
    assert_eq!(offset, Some(-8));
    assert_eq!(
        entries.iter().map(|one| (one.duration, one.flags)).collect::<Vec<_>>(),
        [(5, 77), (6, 3)]
    );
    let limits = Limits {
        max_samples: 1,
        ..Limits::default()
    };
    assert_eq!(
        read_trun(&bare[8..], 9, &tfhd, &trex, &limits)
            .expect_err("a refusal")
            .to_string(),
        "more samples than this reader will hold in 'trun' at byte 9"
    );
    // A run of nothing needs no room.
    let none = full_boxed(b"trun", 0, 0xf00, &words(&[0]));
    let (_, entries) = read_trun(&none[8..], 0, &tfhd, &trex, &limits).expect("a run");
    assert!(entries.is_empty());
}

fn samples(moof: &[u8], start: u64, decode: &mut i64) -> Result<Vec<Sample>, Error> {
    samples_of_moof(
        moof,
        start,
        start + 8,
        None,
        &TrexDefaults::default(),
        decode,
        &Limits::default(),
    )
}

#[test]
fn the_clock_carries_on_from_run_to_run_and_moof_to_moof() {
    let traf = |tfdt: Option<u32>| {
        let mut body = full_boxed(b"tfhd", 0, 0x02_0000, &words(&[1]));
        if let Some(time) = tfdt {
            body.extend_from_slice(&full_boxed(b"tfdt", 0, 0, &words(&[time])));
        }
        body.extend_from_slice(&full_boxed(
            b"trun",
            0,
            0xf01,
            &words(&[2, 16, 10, 5, 0, 1, 20, 6, NON_SYNC, -4i32 as u32]),
        ));
        boxed(b"traf", &body)
    };
    let mut decode = 7;
    let read = samples(&traf(None), 1000, &mut decode).expect("the samples");
    let seen: Vec<(u64, u32, i64, i64, i64, bool)> = read
        .iter()
        .map(|one| (one.offset, one.size, one.dts, one.pts, one.duration, one.keyframe))
        .collect();
    assert_eq!(
        seen,
        vec![(1016, 5, 7, 8, 10, true), (1021, 6, 17, 13, 20, false)]
    );
    assert_eq!(decode, 37);
    let read = samples(&traf(Some(500)), 0, &mut decode).expect("the samples");
    assert_eq!(read[0].dts, 500);
    assert_eq!(decode, 530);
    // A moof that is refused leaves the clock where it was.
    assert!(samples(&boxed(b"traf", &[]), 0, &mut decode).is_err());
    assert_eq!(decode, 530);
}

#[test]
fn a_run_that_leaves_the_file_is_refused() {
    let traf = |offset: i32, base: u64, size: u32| {
        let mut tfhd = words(&[1]);
        tfhd.extend_from_slice(&base.to_be_bytes());
        boxed(
            b"traf",
            &[
                full_boxed(b"tfhd", 0, 0x01, &tfhd),
                full_boxed(b"trun", 0, 0x201, &words(&[1, offset as u32, size])),
            ]
            .concat(),
        )
    };
    let mut decode = 0;
    let fail = |traf: &[u8]| {
        samples(traf, 0, &mut 0)
            .expect_err("a refusal")
            .to_string()
    };
    assert_eq!(
        fail(&traf(-5, 4, 1)),
        "a trun whose data offset leaves the file at byte 48"
    );
    assert_eq!(
        fail(&traf(5, u64::MAX - 4, 1)),
        "a trun whose data offset leaves the file at byte 48"
    );
    assert_eq!(
        fail(&traf(0, u64::MAX - 4, 5)),
        "a sample that runs past the file at byte 48"
    );
    assert!(samples(&traf(0, u64::MAX - 4, 4), 0, &mut decode).is_ok());
    assert_eq!(
        fail(&boxed(b"traf", &[])),
        "a traf with no tfhd at byte 16"
    );
}

#[test]
fn a_fragment_has_to_open_with_a_whole_moof() {
    let track = Track::from_parts(Handler::Video, 30, SampleEntry::default(), Vec::new());
    let fail = |bytes: &[u8]| {
        track
            .fragment_samples_at(bytes, 10)
            .expect_err("a refusal")
            .to_string()
    };
    assert_eq!(
        fail(&[0; 4]),
        "a fragment shorter than a box header at byte 10"
    );
    assert_eq!(
        fail(&boxed(b"moof", &[0; 8])[..12]),
        "a moof that overruns its fragment at byte 10"
    );
    assert_eq!(
        fail(&boxed(b"mdat", &[])),
        "a fragment that does not open with a moof in 'mdat' at byte 10"
    );
    // A moof of declared size zero is the whole of it.
    let mut open = vec![0, 0, 0, 0];
    open.extend_from_slice(b"moof");
    assert!(track.fragment_samples(&open).expect("a read").is_empty());
}

#[test]
fn a_samples_bytes_are_inside_its_fragment_or_refused() {
    let fragment = [1u8, 2, 3, 4, 5, 6];
    let sample = |offset, size| Sample {
        offset,
        size,
        ..Sample::default()
    };
    assert_eq!(
        sample_bytes(&fragment, 100, &sample(102, 3)).expect("the bytes"),
        &[3, 4, 5]
    );
    assert_eq!(
        sample_bytes(&fragment, 100, &sample(106, 0)).expect("no bytes"),
        &[] as &[u8]
    );
    assert_eq!(
        sample_bytes(&fragment, 100, &sample(99, 1))
            .expect_err("a refusal")
            .to_string(),
        "a sample placed before the fragment that carries it at byte 99"
    );
    assert_eq!(
        sample_bytes(&fragment, 100, &sample(104, 3))
            .expect_err("a refusal")
            .to_string(),
        "a sample that overruns its fragment at byte 104"
    );
    assert_eq!(
        sample_bytes(&fragment, 0, &sample(u64::MAX, 3))
            .expect_err("a refusal")
            .to_string(),
        "a sample wider than memory at byte 18446744073709551615"
    );
}

#[test]
fn the_version_of_a_run_does_not_matter() {
    let rows = words(&[2, 8, -3i32 as u32, 9, 4]);
    let zero = full_boxed(b"trun", 0, 0xa00, &rows);
    let one = full_boxed(b"trun", 1, 0xa00, &rows);
    let read = |body: &[u8]| {
        read_trun(
            body,
            0,
            &silent(),
            &TrexDefaults::default(),
            &Limits::default(),
        )
        .expect("a run")
    };
    assert_eq!(read(&zero[8..]), read(&one[8..]));
    assert_eq!(read(&one[8..]).1[0].composition_offset, -3);
}

#[test]
fn a_track_fragment_of_another_track_moves_only_the_place() {
    let traf = |id: u32| {
        boxed(
            b"traf",
            &[
                full_boxed(b"tfhd", 0, 0, &words(&[id])),
                full_boxed(b"trun", 0, 0x300, &words(&[1, 50, 6])),
            ]
            .concat(),
        )
    };
    let moof = [traf(1), traf(2)].concat();
    let mut decode = 3;
    let read = samples_of_moof(
        &moof,
        100,
        108,
        Some(2),
        &TrexDefaults::default(),
        &mut decode,
        &Limits::default(),
    )
    .expect("the samples");
    assert_eq!(read.len(), 1);
    assert_eq!((read[0].offset, read[0].dts), (106, 3));
    assert_eq!(decode, 53);
}

#[test]
fn a_fragment_reads_the_same_wherever_it_is() {
    let traf = |id: u32| {
        boxed(
            b"traf",
            &[
                full_boxed(b"tfhd", 0, 0x02_0000, &words(&[id])),
                full_boxed(b"trun", 0, 0x301, &words(&[2, 60, 5, 6, 7, 8])),
            ]
            .concat(),
        )
    };
    let moof = [traf(1), traf(2)].concat();
    let mut decode = 0;
    let here = samples(&moof, 0, &mut decode).expect("the samples");
    let mut moved = 0;
    let there = samples(&moof, 7000, &mut moved).expect("the samples");
    assert_eq!(decode, moved);
    let want: Vec<Sample> = here
        .iter()
        .map(|one| Sample {
            offset: one.offset + 7000,
            ..*one
        })
        .collect();
    assert_eq!(there, want);
    // Their bytes are the same, or not there, in both places.
    let fragment: Vec<u8> = (0..74).collect();
    for (one, two) in here.iter().zip(&there) {
        let near = sample_bytes(&fragment, 0, one);
        let far = sample_bytes(&fragment, 7000, two);
        assert_eq!(near.is_ok(), far.is_ok());
        assert_eq!(near.ok(), far.ok());
    }
    assert_eq!(sample_bytes(&fragment, 7000, &there[0]).expect("bytes"), &fragment[60..66]);
}
