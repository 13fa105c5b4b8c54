use ffrwd_bmff::boxes::{boxed, full_boxed};
use ffrwd_bmff::mux::DEFAULT_MOVIE_TIMESCALE;
use ffrwd_bmff::tables::ctts;
use ffrwd_bmff::track::{
    apply_edit, edit_of, mdhd_timescale, mvhd_timescale, sample_entry, Edit, Handler, Sample,
    SampleEntry, Track, TrexDefaults, Visual, VISUAL_SAMPLE_ENTRY_LEN,
};
use ffrwd_bmff::Limits;

fn elst_v0(entries: &[(u32, i32)]) -> Vec<u8> {
    let mut out = vec![0u8, 0, 0, 0];
    out.extend_from_slice(&(entries.len() as u32).to_be_bytes());
    for (duration, media_time) in entries {
        out.extend_from_slice(&duration.to_be_bytes());
        out.extend_from_slice(&media_time.to_be_bytes());
        out.extend_from_slice(&[0, 1, 0, 0]);
    }
    out
}

#[test]
fn the_edit_list_rule_is_the_one_ffprobe_follows() {
    // One edit whose media time is two frames of a 15360 timescale:
    // ffmpeg's own B-frame output, which starts at zero.
    let one = edit_of(&elst_v0(&[(30720, 1024)]), 0, 1000, 15360).expect("an edit");
    assert_eq!(
        one,
        Edit {
            empty: 0,
            media_time: Some(1024)
        }
    );
    // An empty edit of a second in front of it: `-output_ts_offset`.
    let two = edit_of(&elst_v0(&[(1000, -1), (30720, 1024)]), 0, 1000, 15360).expect("an edit");
    assert_eq!(
        two,
        Edit {
            empty: 15360,
            media_time: Some(1024)
        }
    );
    // No edit list at all leaves composition times alone, which is
    // what a fragmented file with an empty moov has.
    assert_eq!(
        edit_of(&elst_v0(&[]), 0, 1000, 15360).expect("an edit"),
        Edit::default()
    );
}

#[test]
fn the_zero_snaps_to_the_first_sample_the_edit_keeps() {
    // Composition times a tick short of the nominal frame duration,
    // which is what raw H.264 remuxed into MP4 has, and a media
    // time that therefore lands between two samples.
    let mut track = track_with(&[0i64, 40000, 79999, 119999, 159999]);
    track.edit = Edit {
        empty: 0,
        media_time: Some(96000),
    };
    apply_edit(&mut track);
    assert_eq!(
        track.start_shift, -119999,
        "ffmpeg keeps the first sample at or past the media time"
    );
    assert_eq!(
        track.samples[0].pts, -119999,
        "and ffprobe prints -0.099999"
    );
    assert_eq!(track.samples[3].pts, 0, "the sample it kept is the zero");
}

fn track_with(times: &[i64]) -> Track {
    Track::from_parts(
        Handler::Video,
        1_200_000,
        SampleEntry::default(),
        times
            .iter()
            .map(|pts| Sample {
                pts: *pts,
                dts: *pts,
                ..Sample::default()
            })
            .collect(),
    )
}

#[test]
fn a_track_from_parts_numbers_its_own_samples_and_says_nothing_it_was_not_told() {
    let track = Track::from_parts(
        Handler::Video,
        48_000,
        SampleEntry {
            kind: *b"avc1",
            config: vec![1, 2, 3],
            ..SampleEntry::default()
        },
        vec![
            Sample {
                index: 77,
                offset: 900,
                size: 10,
                dts: 0,
                pts: 0,
                duration: 480,
                keyframe: true,
            },
            Sample {
                index: 77,
                offset: 910,
                size: 12,
                dts: 480,
                pts: 480,
                duration: 480,
                keyframe: false,
            },
        ],
    );
    // The caller does not have to number the samples.
    assert_eq!(
        track
            .samples
            .iter()
            .map(|one| one.index)
            .collect::<Vec<_>>(),
        [0, 1]
    );
    // And everything the caller did not say is the "nothing was
    // said" value, not a guess.
    assert_eq!(track.track_id, 1);
    assert_eq!(track.movie_timescale, DEFAULT_MOVIE_TIMESCALE);
    assert_eq!(track.edit, Edit::default());
    assert_eq!(track.defaults, TrexDefaults::default());
    assert_eq!(track.start_shift, 0);
    assert!(track.is_video());
    // The decode time after the last sample is derived, not stored.
    assert_eq!(track.next_dts(), 960);
    assert_eq!(
        Track::from_parts(Handler::Audio, 48_000, SampleEntry::default(), Vec::new())
            .next_dts(),
        0
    );
    // A timescale of zero is taken as one rather than divided by.
    let zero = Track::from_parts(Handler::Video, 0, SampleEntry::default(), Vec::new());
    assert_eq!(zero.timescale, 1);
    assert_eq!(zero.ms(2), 2000);
    // The two builders are the only other things a foreign reader
    // needs to say.
    let set = track.clone().with_track_id(7).with_start_shift(-15);
    assert_eq!((set.track_id, set.start_shift), (7, -15));
    assert_eq!(set.samples, track.samples, "and nothing else moved");
}

#[test]
fn a_fragment_read_against_a_track_from_parts_matches_nothing_and_says_so() {
    // `fragment_samples` matches a `traf` against this track's
    // `track_id`, which from parts is 1 unless the caller said
    // otherwise. A foreign reader will not be handing this ISO
    // fragments, and the answer is an empty list rather than a
    // refusal.
    let track = Track::from_parts(Handler::Video, 90_000, SampleEntry::default(), Vec::new());
    let mut traf = full_boxed(b"tfhd", 0, 0x02_0000, &9u32.to_be_bytes());
    traf.extend_from_slice(&full_boxed(b"trun", 0, 0x200, &{
        let mut payload = 1u32.to_be_bytes().to_vec();
        payload.extend_from_slice(&4u32.to_be_bytes());
        payload
    }));
    let moof = boxed(
        b"moof",
        &[
            full_boxed(b"mfhd", 0, 0, &1u32.to_be_bytes()),
            boxed(b"traf", &traf),
        ]
        .concat(),
    );
    assert!(track.fragment_samples(&moof).expect("a read").is_empty());
    // Named as track 9, the same fragment reads.
    let named = track.with_track_id(9);
    assert_eq!(named.fragment_samples(&moof).expect("a read").len(), 1);
}

#[test]
fn a_timescale_of_zero_is_refused_in_a_track_and_replaced_in_a_movie() {
    let mut mdhd = vec![0u8; 12];
    mdhd.extend_from_slice(&0u32.to_be_bytes());
    assert!(mdhd_timescale(&mdhd, 0).is_err());
    let mut mvhd = vec![0u8; 12];
    mvhd.extend_from_slice(&0u32.to_be_bytes());
    assert_eq!(mvhd_timescale(&mvhd, 0).expect("a default"), 1000);
}

#[test]
fn track_a_version_zero_composition_offset_is_read_as_signed() {
    // ffmpeg writes a negative offset into a version 0 ctts as the
    // two's complement bits, which read unsigned is two billion.
    let mut body = vec![0u8, 0, 0, 0];
    body.extend_from_slice(&1u32.to_be_bytes());
    body.extend_from_slice(&1u32.to_be_bytes());
    body.extend_from_slice(&(-512i32).to_be_bytes());
    assert_eq!(ctts(&body, 0).expect("the offsets"), vec![(1, -512)]);
}

#[test]
fn a_sample_entry_hands_back_its_configuration_record_whole() {
    let avcc = boxed(b"avcC", &[1, 0x64, 0, 0x1f, 0xff]);
    let mut entry = vec![0u8; VISUAL_SAMPLE_ENTRY_LEN - 8];
    entry[24] = 0x01; // width 320
    entry[25] = 0x40;
    entry[26] = 0x00; // height 180
    entry[27] = 0xb4;
    entry.extend_from_slice(&avcc);
    let stsd = {
        let mut body = 1u32.to_be_bytes().to_vec();
        body.extend_from_slice(&boxed(b"avc1", &entry));
        full_boxed(b"stsd", 0, 0, &body)
    };
    let inner = &stsd[8..];
    let read = sample_entry(inner, 0, &Limits::default()).expect("an entry");
    assert_eq!(read.kind, *b"avc1");
    assert_eq!(read.config, &[1, 0x64, 0, 0x1f, 0xff]);
    assert_eq!(
        read.visual,
        Some(Visual {
            width: 320,
            height: 180
        })
    );
}

#[test]
fn a_sample_entry_this_crate_does_not_know_still_names_itself() {
    let entry = boxed(b"vp09", &[0u8; 78]);
    let mut body = 1u32.to_be_bytes().to_vec();
    body.extend_from_slice(&entry);
    let read = sample_entry(&full_boxed(b"stsd", 0, 0, &body)[8..], 0, &Limits::default())
        .expect("an entry");
    assert_eq!(read.kind, *b"vp09");
    assert!(read.config.is_empty());
}
