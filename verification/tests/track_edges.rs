use ffrwd_bmff::boxes::{boxed, full_boxed};
use ffrwd_bmff::source::{Cursor, Source};
use ffrwd_bmff::track::{
    apply_edit, edit_of, handler_of, mdhd_timescale, read, sample_entry, tkhd_track_id, Audio,
    Edit, Handler, Pick, Sample, SampleEntry, Track, TrexDefaults,
};
use ffrwd_bmff::{Error, Limits};

fn words(list: &[u32]) -> Vec<u8> {
    list.iter().flat_map(|one| one.to_be_bytes()).collect()
}

fn full(kind: &[u8; 4], list: &[u32]) -> Vec<u8> {
    full_boxed(kind, 0, 0, &words(list))
}

fn stsd() -> Vec<u8> {
    let mut payload = words(&[1]);
    payload.extend_from_slice(&boxed(b"text", &[]));
    full_boxed(b"stsd", 0, 0, &payload)
}

fn hdlr(kind: &[u8; 4]) -> Vec<u8> {
    let mut payload = words(&[0]);
    payload.extend_from_slice(kind);
    full_boxed(b"hdlr", 0, 0, &payload)
}

fn mdia(handler: &[u8; 4], tables: &[Vec<u8>]) -> Vec<u8> {
    let mut stbl = stsd();
    stbl.extend_from_slice(&tables.concat());
    boxed(
        b"mdia",
        &[
            full(b"mdhd", &[0, 0, 600, 0]),
            hdlr(handler),
            boxed(b"minf", &boxed(b"stbl", &stbl)),
        ]
        .concat(),
    )
}

fn trak(id: u32, handler: &[u8; 4], extra: &[Vec<u8>]) -> Vec<u8> {
    let mut body = full(b"tkhd", &[0, 0, id]);
    body.extend_from_slice(&extra.concat());
    body.extend_from_slice(&mdia(handler, &[]));
    boxed(b"trak", &body)
}

#[test]
fn a_moov_describes_its_tracks() {
    let elst = full(b"elst", &[2, 500, u32::MAX, 0, 0, 30, 0]);
    let moov = [
        full(b"mvhd", &[0, 0, 1000]),
        trak(3, b"vide", &[boxed(b"edts", &elst)]),
        // A track with no media is passed over.
        boxed(b"trak", &full(b"tkhd", &[0, 0, 4])),
        trak(5, b"soun", &[]),
        boxed(
            b"mvex",
            &[full(b"trex", &[9, 1, 1, 1, 1]), full(b"trex", &[5, 1, 20, 30, 40])].concat(),
        ),
    ]
    .concat();
    let list = Track::all(&moov).expect("the tracks");
    assert_eq!(list.len(), 2);
    assert_eq!(
        (list[0].track_id, list[0].handler, list[0].timescale),
        (3, Handler::Video, 600)
    );
    assert_eq!(list[0].movie_timescale, 1000);
    // Half a second of nothing, then from the thirtieth tick.
    assert_eq!(
        list[0].edit,
        Edit {
            empty: 300,
            media_time: Some(30)
        }
    );
    assert_eq!(list[0].defaults, TrexDefaults::default());
    assert_eq!(list[0].entry.kind, *b"text");
    assert_eq!((list[1].track_id, list[1].handler), (5, Handler::Audio));
    assert_eq!(
        list[1].defaults,
        TrexDefaults {
            duration: 20,
            size: 30,
            flags: 40
        }
    );
    assert_eq!(list[1].edit, Edit::default());
}

#[test]
fn a_track_that_lacks_something_says_what() {
    let fail = |body: &[u8]| {
        Track::all(&boxed(b"trak", body))
            .expect_err("a refusal")
            .to_string()
    };
    let mdhd = full(b"mdhd", &[0, 0, 600, 0]);
    assert_eq!(fail(&boxed(b"mdia", &[])), "a track with no mdhd");
    assert_eq!(fail(&boxed(b"mdia", &mdhd)), "a track with no minf");
    let minf = |inner: &[u8]| boxed(b"mdia", &[mdhd.clone(), boxed(b"minf", inner)].concat());
    assert_eq!(fail(&minf(&[])), "a track with no stbl");
    assert_eq!(fail(&minf(&boxed(b"stbl", &[]))), "a track with no stsd");
    assert_eq!(
        fail(&boxed(b"mdia", &full(b"mdhd", &[0, 0, 0, 0]))),
        "a track whose timescale is zero in 'mdhd'"
    );
    // No tkhd and no hdlr still make a track.
    let list = Track::all(&boxed(b"trak", &minf(&boxed(b"stbl", &stsd())))).expect("a track");
    assert_eq!(list[0].track_id, 1);
    assert_eq!(list[0].handler, Handler::Other([0; 4]));
    assert_eq!(list[0].movie_timescale, 1000);
}

#[test]
fn an_init_segment_is_for_one_track() {
    let fail = |init: &[u8]| Track::from_init(init).expect_err("a refusal");
    assert_eq!(
        fail(&boxed(b"ftyp", &[])).to_string(),
        "the init segment carries no moov"
    );
    assert_eq!(
        fail(&boxed(b"moov", &[])).to_string(),
        "the moov carries no trak"
    );
    let two = [trak(1, b"vide", &[]), trak(2, b"vide", &[])].concat();
    assert!(matches!(fail(&boxed(b"moov", &two)), Error::Unsupported(_)));
    let one = Track::from_init(&boxed(b"moov", &trak(7, b"vide", &[]))).expect("a track");
    assert_eq!(one.track_id, 7);
    assert!(one.samples.is_empty());
    let limits = Limits {
        max_children: 1,
        ..Limits::default()
    };
    assert!(Track::from_init_bounded(&boxed(b"moov", &trak(7, b"vide", &[])), &limits).is_err());
}

fn file() -> Vec<u8> {
    let tables = [
        full(b"stsz", &[0, 2, 5, 6]),
        full(b"stsc", &[1, 1, 2, 1]),
        full(b"stco", &[1, 8]),
        full(b"stts", &[1, 2, 10]),
    ];
    let moov = [
        boxed(
            b"trak",
            &[full(b"tkhd", &[0, 0, 2]), mdia(b"vide", &tables)].concat(),
        ),
        trak(3, b"soun", &[]),
    ]
    .concat();
    let traf = [
        full_boxed(b"tfhd", 0, 0x02_0008, &words(&[2, 25])),
        full_boxed(b"trun", 0, 0x205, &words(&[2, 64, 0, 4, 4])),
    ]
    .concat();
    let mut out = boxed(b"mdat", &[1; 11]);
    out.extend_from_slice(&boxed(b"moov", &moov));
    out.extend_from_slice(&boxed(b"moof", &boxed(b"traf", &traf)));
    out
}

#[test]
fn a_file_read_adds_the_fragments_to_the_tables() {
    let bytes = file();
    let moof = {
        let mut src = Source::new(Cursor::new(bytes.clone())).expect("a source");
        ffrwd_bmff::boxes::top_level(&mut src).expect("the boxes")[2].start
    };
    let mut src = Source::new(Cursor::new(bytes)).expect("a source");
    let track = read(&mut src, Pick::Video).expect("a track");
    let seen: Vec<(u32, u64, u32, i64, i64)> = track
        .samples
        .iter()
        .map(|one| (one.index, one.offset, one.size, one.dts, one.duration))
        .collect();
    assert_eq!(
        seen,
        vec![
            (0, 8, 5, 0, 10),
            (1, 13, 6, 10, 10),
            // No tfdt, so the clock carries on from the tables.
            (2, moof + 64, 4, 20, 25),
            (3, moof + 68, 4, 45, 25),
        ]
    );
    assert_eq!(track.next_dts(), 70);
    assert!(read(&mut src, Pick::Audio).expect("a track").samples.is_empty());
    assert_eq!(read(&mut src, Pick::Id(3)).expect("a track").track_id, 3);
    assert_eq!(read(&mut src, Pick::First).expect("a track").track_id, 2);
    assert_eq!(
        read(&mut src, Pick::Id(9)).expect_err("a refusal").to_string(),
        "the file holds no track of the kind this read was after"
    );
    let mut none = Source::new(Cursor::new(boxed(b"free", &[]))).expect("a source");
    assert_eq!(
        read(&mut none, Pick::First).expect_err("a refusal").to_string(),
        "the file has no moov box"
    );
    let limits = Limits {
        max_samples: 3,
        ..Limits::default()
    };
    let mut few = Source::with_limits(Cursor::new(file()), limits).expect("a source");
    assert_eq!(
        read(&mut few, Pick::Video).expect_err("a refusal").to_string(),
        "more samples than this reader will hold"
    );
}

#[test]
fn a_wide_edit_list_reads_like_a_narrow_one() {
    // Version 1: 64-bit durations and media times.
    let mut elst = vec![1, 0, 0, 0];
    elst.extend_from_slice(&2u32.to_be_bytes());
    elst.extend_from_slice(&250u64.to_be_bytes());
    elst.extend_from_slice(&(-1i64).to_be_bytes());
    elst.extend_from_slice(&[0, 1, 0, 0]);
    elst.extend_from_slice(&7u64.to_be_bytes());
    elst.extend_from_slice(&9i64.to_be_bytes());
    elst.extend_from_slice(&[0, 1, 0, 0]);
    assert_eq!(
        edit_of(&elst, 0, 1000, 90000).expect("an edit"),
        Edit {
            empty: 22500,
            media_time: Some(9)
        }
    );
    assert!(edit_of(&elst[..20], 0, 1000, 90000).is_err());
    assert!(edit_of(&[], 0, 1000, 90000).is_err());
    // Only empty edits: everything is later, and nothing is the zero.
    let only = edit_of(&full(b"elst", &[1, 500, u32::MAX, 0])[8..], 0, 1000, 1000).expect("an edit");
    assert_eq!(
        only,
        Edit {
            empty: 500,
            media_time: None
        }
    );
}

#[test]
fn an_edit_list_moves_every_time_alike() {
    let samples = vec![
        Sample {
            pts: 40,
            dts: 0,
            ..Sample::default()
        },
        Sample {
            pts: 20,
            dts: 20,
            duration: 5,
            ..Sample::default()
        },
    ];
    let mut track = Track::from_parts(Handler::Video, 90, SampleEntry::default(), samples);
    track.edit = Edit {
        empty: 100,
        media_time: Some(21),
    };
    apply_edit(&mut track);
    assert_eq!(track.start_shift, 60);
    assert_eq!((track.samples[0].pts, track.samples[0].dts), (100, 60));
    assert_eq!((track.samples[1].pts, track.samples[1].dts), (80, 80));
    assert_eq!(track.samples[1].duration, 5);
    // No sample is kept: the media time itself is the zero.
    let mut empty = Track::from_parts(Handler::Video, 90, SampleEntry::default(), Vec::new());
    empty.edit.media_time = Some(7);
    apply_edit(&mut empty);
    assert_eq!(empty.start_shift, -7);
    // No edit list at all moves nothing.
    let mut plain = Track::from_parts(
        Handler::Video,
        90,
        SampleEntry::default(),
        vec![Sample {
            pts: -3,
            dts: -9,
            ..Sample::default()
        }],
    );
    apply_edit(&mut plain);
    assert_eq!((plain.samples[0].pts, plain.samples[0].dts), (-3, -9));
}

#[test]
fn headers_of_either_version_read() {
    let mut wide = vec![1u8, 0, 0, 0];
    wide.extend_from_slice(&[0; 16]);
    wide.extend_from_slice(&words(&[48000]));
    assert_eq!(mdhd_timescale(&wide, 0).expect("a timescale"), 48000);
    assert_eq!(tkhd_track_id(&wide, 0).expect("an id"), 48000);
    assert_eq!(
        mdhd_timescale(&wide[..18], 0).expect_err("a truncation").offset(),
        Some(4)
    );
    assert_eq!(
        mdhd_timescale(&wide[..22], 0).expect_err("a truncation").offset(),
        Some(20)
    );
    assert_eq!(handler_of(&hdlr(b"text")[8..], 0).expect("a handler").code(), *b"text");
    assert_eq!(Handler::of(*b"vide"), Handler::Video);
    assert_eq!(Handler::of(*b"soun").code(), *b"soun");
    assert!(handler_of(&[0; 11], 0).is_err());
}

#[test]
fn an_audio_entry_hands_back_its_descriptors() {
    let mut entry = vec![0u8; 28];
    entry[17] = 2; // channels
    entry[24] = 0xac; // 44100, 16.16
    entry[25] = 0x44;
    entry.extend_from_slice(&full_boxed(b"esds", 0, 0, &[3, 1, 9]));
    let mut body = words(&[1]);
    body.extend_from_slice(&boxed(b"mp4a", &entry));
    let read = sample_entry(&full_boxed(b"stsd", 0, 0, &body)[8..], 0, &Limits::default())
        .expect("an entry");
    assert_eq!(
        read.audio,
        Some(Audio {
            sample_rate: 44100,
            channels: 2
        })
    );
    assert_eq!(read.config, vec![3, 1, 9], "without version and flags");
    assert_eq!(read.visual, None);
    assert_eq!(SampleEntry::config_box(b"mp4a"), Some(b"esds"));
    assert_eq!(SampleEntry::config_box(b"avc3"), Some(b"avcC"));
    assert_eq!(SampleEntry::config_box(b"hev1"), Some(b"hvcC"));
    assert_eq!(SampleEntry::config_box(b"text"), None);
}

#[test]
fn a_sample_description_that_is_short_is_refused() {
    let fail = |payload: &[u8]| {
        sample_entry(&full_boxed(b"stsd", 0, 0, payload)[8..], 0, &Limits::default())
            .expect_err("a refusal")
            .to_string()
    };
    assert_eq!(fail(&words(&[0])), "an stsd with no sample entry in 'stsd'");
    let mut short = words(&[1]);
    short.extend_from_slice(&boxed(b"avc1", &[0; 40]));
    assert_eq!(
        fail(&short),
        "a sample entry shorter than its own fields in 'avc1'"
    );
    // No record at all is an empty one.
    let mut bare = words(&[1]);
    bare.extend_from_slice(&boxed(b"hvc1", &[0; 78]));
    let read = sample_entry(&full_boxed(b"stsd", 0, 0, &bare)[8..], 0, &Limits::default())
        .expect("an entry");
    assert!(read.config.is_empty());
}

#[test]
fn an_error_inside_a_track_says_where_it_is_in_the_file() {
    let short = [0, 0, 0, 4, b'm', b'd', b'h', b'd'];
    let moov = boxed(b"trak", &boxed(b"mdia", &short));
    let err = Track::all_bounded(&moov, 1000, &Limits::default()).expect_err("a refusal");
    assert!(matches!(err, Error::Format(_)));
    assert_eq!(err.offset(), Some(1016));
    assert_eq!(err.fault().expect("a fault").kind, Some(*b"mdhd"));

    // A table cut short: the headers of the trak and the mdia, the mdhd, the
    // headers of the minf and the stbl, the stsd, and the header, the flags
    // and the common size of the stsz are in front of its count.
    let mdhd = full(b"mdhd", &[0, 0, 600, 0]);
    let stbl = boxed(
        b"stbl",
        &[stsd(), full_boxed(b"stsz", 0, 0, &words(&[0, 3, 1]))].concat(),
    );
    let moov = boxed(
        b"trak",
        &boxed(b"mdia", &[mdhd.clone(), boxed(b"minf", &stbl)].concat()),
    );
    let err = Track::all_bounded(&moov, 1000, &Limits::default()).expect_err("a refusal");
    let at = 1000 + 8 + 8 + mdhd.len() + 8 + 8 + stsd().len() + 8 + 4 + 4;
    assert_eq!(err.offset(), Some(at as u64));

    // The moov of an init segment is where it is in the segment.
    let init = [boxed(b"ftyp", b"isom"), boxed(b"moov", &boxed(b"trak", &boxed(b"mdia", &short)))]
        .concat();
    let err = Track::from_init(&init).expect_err("a refusal");
    assert_eq!(err.offset(), Some(12 + 8 + 16));
    // And so is the moov of a file.
    let mut src = Source::new(Cursor::new(init)).expect("a source");
    let err = read(&mut src, Pick::First).expect_err("a refusal");
    assert_eq!(err.offset(), Some(36));
}

#[test]
fn no_samples_bytes_are_read() {
    let moov = [
        full(b"mvhd", &[0, 0, 1000]),
        trak(1, b"vide", &[]),
        boxed(b"mvex", &full(b"trex", &[1, 1, 0, 0, 0])),
    ]
    .concat();
    let moof = boxed(
        b"traf",
        &[
            full_boxed(b"tfhd", 0, 0x02_0000, &words(&[1])),
            full_boxed(b"trun", 0, 0x300, &words(&[1, 5, 50_000])),
        ]
        .concat(),
    );
    let file = [
        boxed(b"ftyp", b"isom"),
        boxed(b"moov", &moov),
        boxed(b"moof", &moof),
        boxed(b"mdat", &vec![9; 50_000]),
        boxed(b"moof", &moof),
        boxed(b"mdat", &vec![9; 50_000]),
    ]
    .concat();
    let mut src = Source::new(Cursor::new(file)).expect("a source");
    let track = read(&mut src, Pick::First).expect("a track");
    assert_eq!(track.samples.len(), 2);
    assert_eq!(
        track.samples.iter().map(|one| one.index).collect::<Vec<_>>(),
        [0, 1]
    );
    let bound = 16 * 6 + moov.len() + 2 * moof.len();
    assert!(src.tally().bytes_read <= bound as u64);
}

#[test]
fn the_next_decode_time_is_the_sum_of_the_deltas() {
    let tables = [
        full(b"stts", &[2, 2, 10, 3, 7]),
        full(b"stsc", &[1, 1, 5, 1]),
        full(b"stsz", &[4, 5]),
        full(b"stco", &[1, 100]),
    ];
    let moov = boxed(b"trak", &mdia(b"vide", &tables));
    let list = Track::all(&moov).expect("the tracks");
    assert_eq!(list[0].samples.len(), 5);
    assert_eq!(list[0].next_dts(), 2 * 10 + 3 * 7);
    let bare = Track::all(&boxed(b"trak", &mdia(b"vide", &[]))).expect("the tracks");
    assert_eq!(bare[0].next_dts(), 0);
}
