use ffrwd_bmff::boxes::boxed;
use ffrwd_bmff::fragment::sample_bytes;
use ffrwd_bmff::mux::{descriptor, esds, Audio, Fragment, Mode, Muxer, Packet, Video};
use ffrwd_bmff::scanner::{moof_summary, Scanner, Segment};
use ffrwd_bmff::track::{Edit, Handler, Track, TrexDefaults, Visual};
use ffrwd_bmff::Error;

fn video() -> Video {
    Video {
        kind: *b"hvc1",
        width: 320,
        height: 180,
        config: vec![1, 2, 3],
    }
}

fn muxer(num: i32, den: i32) -> Muxer {
    Muxer::video(video(), num, den).expect("a muxer")
}

fn packet(pts: i64, dts: Option<i64>, duration: Option<i64>, data: &[u8]) -> Packet<'_> {
    Packet {
        pts,
        dts,
        duration,
        keyframe: true,
        data,
    }
}

fn refused(mux: &mut Muxer, packet: Packet<'_>) -> String {
    mux.push(packet).expect_err("a refusal").to_string()
}

#[test]
fn a_muxer_is_refused_by_name() {
    let fail = |video: Video, num, den| {
        Muxer::video(video, num, den)
            .expect_err("a refusal")
            .to_string()
    };
    assert_eq!(
        fail(
            Video {
                kind: *b"mp4a",
                ..video()
            },
            1,
            30
        ),
        "a video sample entry this crate has no carriage for in 'mp4a'"
    );
    assert_eq!(
        fail(
            Video {
                config: Vec::new(),
                ..video()
            },
            1,
            30
        ),
        "a video track with no decoder configuration record to put in its sample entry"
    );
    for (num, den) in [(0, 30), (1, 0), (-1, 30), (1, -30)] {
        assert_eq!(fail(video(), num, den), "a time base that is not positive");
    }
    let err = Muxer::audio(
        Audio {
            sample_rate: 48000,
            channels: 0,
            config: vec![1],
        },
        1,
        48000,
    )
    .expect_err("a refusal");
    assert_eq!(err.to_string(), "an audio track that declares no channels");
    assert!(matches!(err, Error::Format(_)));
}

#[test]
fn what_a_muxer_is_told_comes_back_out_of_its_init_segment() {
    let mux = muxer(1, 90000)
        .with_track_id(9)
        .with_movie_timescale(600)
        .with_mode(Mode::PerCut);
    assert_eq!(mux.timescale(), 90000);
    assert_eq!(mux.config(), &[1, 2, 3]);
    let track = Track::from_init(&mux.init_segment()).expect("a track");
    assert_eq!(track.track_id, 9);
    assert_eq!(track.handler, Handler::Video);
    assert_eq!(track.timescale, 90000);
    assert_eq!(track.movie_timescale, 600);
    assert_eq!(track.entry.kind, *b"hvc1");
    assert_eq!(track.entry.config, vec![1, 2, 3]);
    assert_eq!(
        track.entry.visual,
        Some(Visual {
            width: 320,
            height: 180
        })
    );
    assert_eq!(track.defaults, TrexDefaults::default());
    assert_eq!(track.edit, Edit::default());
    assert!(track.samples.is_empty());
    assert_eq!(track.start_shift, 0);
    // Zeroes are taken as ones.
    let mux = muxer(1, 30).with_track_id(0).with_movie_timescale(0);
    let track = Track::from_init(&mux.init_segment()).expect("a track");
    assert_eq!((track.track_id, track.movie_timescale), (1, 1));
    // A side past sixteen bits keeps its lower half.
    let wide = Muxer::video(
        Video {
            width: 0x1_0005,
            ..video()
        },
        1,
        30,
    )
    .expect("a muxer");
    let track = Track::from_init(&wide.init_segment()).expect("a track");
    assert_eq!(track.entry.visual.expect("a picture").width, 5);
}

#[test]
fn the_brands_name_the_entry() {
    let init = muxer(1, 30).init_segment();
    let ftyp = boxed(b"ftyp", b"iso5\0\0\x02\0iso5isomhvc1mp41");
    assert_eq!(&init[..ftyp.len()], &ftyp[..]);
}

#[test]
fn an_audio_rate_past_sixteen_bits_is_left_to_the_record() {
    let mux = Muxer::audio(
        Audio {
            sample_rate: 96000,
            channels: 70000,
            config: vec![0x10, 0x20],
        },
        1,
        96000,
    )
    .expect("a muxer");
    let track = Track::from_init(&mux.init_segment()).expect("a track");
    let sound = track.entry.audio.expect("the sound");
    assert_eq!((sound.sample_rate, sound.channels), (0, 65535));
    assert_eq!(track.entry.config, esds(&[0x10, 0x20]));
    assert_eq!(track.entry.visual, None);
}

#[test]
fn an_esds_is_three_descriptors_deep() {
    assert_eq!(
        esds(&[0x12, 0x10]),
        vec![
            0x03, 25, 0, 0, 0, 0x04, 17, 0x40, 0x15, 0, 0, 0, 0, 0, 0, 0, 0, 0, 0, 0, 0x05, 2,
            0x12, 0x10, 0x06, 1, 0x02,
        ]
    );
    assert_eq!(descriptor(7, &[]), vec![7, 0]);
    assert_eq!(descriptor(7, &[1; 127])[..2], [7, 127]);
    assert_eq!(descriptor(7, &[1; 128])[..3], [7, 0x81, 0]);
    assert_eq!(descriptor(7, &vec![1; 16384])[..4], [7, 0x81, 0x80, 0]);
}

#[test]
fn a_packet_comes_out_of_its_fragment_as_it_went_in() {
    let mut mux = muxer(1001, 30000);
    let track = Track::from_init(&mux.init_segment()).expect("a track");
    let mut at = 0;
    for (index, dts) in [-2i64, -1, 0, 1].into_iter().enumerate() {
        let data = vec![index as u8; 3 + index];
        let fragment = mux
            .push(Packet {
                pts: dts + 5,
                dts: Some(dts),
                duration: Some(1),
                keyframe: index == 0,
                data: &data,
            })
            .expect("push")
            .remove(0);
        assert_eq!(fragment.sequence, index as u32 + 1);
        assert_eq!(fragment.base_decode_time, (dts + 2) as u64 * 1001);
        assert_eq!(fragment.pts, dts + 5);
        let read = track
            .fragment_samples_at(&fragment.bytes, at)
            .expect("a fragment");
        assert_eq!(read.len(), 1);
        assert_eq!(read[0].dts, (dts + 2) * 1001, "shifted up to zero");
        assert_eq!(read[0].pts, (dts + 2) * 1001 + 5 * 1001);
        assert_eq!(read[0].duration, 1001);
        assert_eq!(read[0].keyframe, index == 0);
        assert_eq!(
            sample_bytes(&fragment.bytes, at, &read[0]).expect("the bytes"),
            &data[..]
        );
        // And the scanner says of it what the muxer did.
        let summary = moof_summary(&fragment.bytes[..104], at).expect("a summary");
        assert_eq!(summary.sequence, Some(fragment.sequence));
        assert_eq!(summary.first_sample_keyframe, Some(fragment.keyframe));
        at += fragment.bytes.len() as u64;
    }
}

#[test]
fn the_scanner_cuts_what_the_muxer_wrote() {
    let mut mux = muxer(1, 30);
    let init = mux.init_segment();
    let mut stream = init.clone();
    let mut wrote: Vec<Fragment> = Vec::new();
    for pts in 0..3 {
        wrote.extend(
            mux.push(packet(pts, Some(pts), Some(1), &[pts as u8; 9]))
                .expect("push"),
        );
    }
    for fragment in &wrote {
        stream.extend_from_slice(&fragment.bytes);
    }
    let mut scanner = Scanner::new();
    scanner.push(&stream).expect("a push");
    scanner.finish().expect("a clean end");
    match scanner.poll() {
        Some(Segment::Init(cut)) => assert_eq!(cut.bytes, init),
        other => panic!("{other:?}"),
    }
    for fragment in &wrote {
        match scanner.poll() {
            Some(Segment::Fragment(cut)) => {
                assert_eq!(cut.bytes, fragment.bytes);
                assert_eq!(cut.sequence, Some(fragment.sequence));
                assert_eq!(cut.keyframe, Some(fragment.keyframe));
            }
            other => panic!("{other:?}"),
        }
    }
    assert!(scanner.poll().is_none());
}

#[test]
fn times_that_do_not_fit_their_fields_are_refused() {
    let data = [1u8];
    assert_eq!(
        refused(
            &mut muxer(1, 30),
            packet(1 << 32, Some(0), Some(1), &data)
        ),
        "a presentation offset that overflows its field"
    );
    assert_eq!(
        refused(
            &mut muxer(1, 30),
            packet(0, Some(0), Some(1 << 33), &data)
        ),
        "a duration that overflows its field"
    );
    let mut mux = muxer(1, 30);
    mux.push(packet(0, Some(0), Some(1), &data)).expect("push");
    assert_eq!(
        refused(&mut mux, packet(0, Some(-1), Some(1), &data)),
        "a decode time below the stream's start"
    );
    let mut mux = muxer(1, 30);
    mux.push(packet(5, Some(5), None, &data)).expect("push");
    assert_eq!(
        refused(&mut mux, packet(4, Some(4), None, &data)),
        "a decode time that steps backwards"
    );
    let mut mux = muxer(1, 30);
    mux.push(packet(0, Some(0), None, &data)).expect("push");
    assert_eq!(
        refused(&mut mux, packet(1, None, None, &data)),
        "a packet with no decode time after one settled"
    );
}

#[test]
fn a_duration_that_is_not_positive_is_none() {
    let mut mux = muxer(1, 30);
    assert!(mux
        .push(packet(0, Some(0), Some(0), &[1]))
        .expect("push")
        .is_empty());
    assert_eq!(
        mux.push(packet(3, Some(3), Some(-4), &[2])).expect("push").len(),
        1
    );
    // The last sample keeps the last duration known.
    let track = Track::from_init(&mux.init_segment()).expect("a track");
    let tail = mux.finish().expect("finish");
    assert_eq!(tail.len(), 1);
    let read = track.fragment_samples(&tail[0].bytes).expect("a fragment");
    assert_eq!((read[0].dts, read[0].duration), (3, 3));
}

#[test]
fn a_stream_that_never_settles_a_decode_time_is_in_presentation_order() {
    let mut mux = muxer(1, 30);
    for pts in [4i64, 6, 9] {
        assert!(mux.push(packet(pts, None, None, &[1])).expect("push").is_empty());
    }
    let all = mux.finish().expect("finish");
    assert_eq!(
        all.iter().map(|one| one.base_decode_time).collect::<Vec<_>>(),
        [4, 6, 9]
    );
    assert!(mux.finish().expect("finish").is_empty(), "nothing is left");
}

#[test]
fn a_cut_and_a_finish_close_over_everything() {
    let mut mux = muxer(1, 30).with_mode(Mode::PerCut);
    assert!(mux.cut().expect("a cut").is_none());
    for pts in 0..5 {
        assert!(mux
            .push(packet(pts, Some(pts), None, &[pts as u8]))
            .expect("push")
            .is_empty());
    }
    let first = mux.cut().expect("a cut").expect("a fragment");
    assert_eq!((first.samples, first.sequence), (4, 1));
    assert!(mux.cut().expect("a cut").is_none());
    let rest = mux.finish().expect("finish");
    assert_eq!(rest.len(), 1);
    assert_eq!((rest[0].samples, rest[0].sequence), (1, 2));
    assert_eq!(rest[0].base_decode_time, 4);
    assert_eq!(Mode::default(), Mode::PerSample);
}

/// What is behind the `moof` and the `mdat` header of a fragment.
fn payload(fragment: &Fragment) -> Vec<u8> {
    let moof = u32::from_be_bytes([
        fragment.bytes[0],
        fragment.bytes[1],
        fragment.bytes[2],
        fragment.bytes[3],
    ]);
    fragment.bytes[moof as usize + 8..].to_vec()
}

#[test]
fn a_run_writes_every_packet_once_and_in_order() {
    let given: Vec<Vec<u8>> = (1..12u8).map(|one| vec![one; one as usize]).collect();
    for mode in [Mode::PerSample, Mode::PerCut] {
        let mut mux = muxer(1, 30).with_mode(mode);
        let mut out: Vec<Fragment> = Vec::new();
        for (index, data) in given.iter().enumerate() {
            let dts = index as i64;
            // The first two wait for a decode time, and every third brings
            // its own duration.
            let known = if index < 2 { None } else { Some(dts) };
            let own = if index % 3 == 0 { Some(1) } else { None };
            out.extend(mux.push(packet(dts, known, own, data)).expect("push"));
            if index % 4 == 3 {
                out.extend(mux.cut().expect("a cut"));
            }
        }
        out.extend(mux.finish().expect("finish"));
        let numbers: Vec<u32> = out.iter().map(|one| one.sequence).collect();
        assert_eq!(numbers, (1..=out.len() as u32).collect::<Vec<_>>());
        assert_eq!(out.iter().map(|one| one.samples).sum::<usize>(), given.len());
        assert_eq!(
            out.iter().flat_map(payload).collect::<Vec<u8>>(),
            given.concat()
        );
        assert!(mux.finish().expect("finish").is_empty());
        assert!(mux.cut().expect("a cut").is_none());
    }
}

#[test]
fn a_push_settles_the_packet_before_and_its_own() {
    let mut mux = muxer(2, 60);
    let track = Track::from_init(&mux.init_segment()).expect("a track");
    let mut leaves = |pts, dts, own, data: &[u8]| {
        let out = mux.push(packet(pts, Some(dts), own, data)).expect("push");
        out.iter()
            .map(|one| {
                let read = track.fragment_samples(&one.bytes).expect("a fragment");
                assert_eq!((one.samples, one.keyframe, read.len()), (1, true, 1));
                (one.sequence, one.pts, one.base_decode_time, read[0].duration)
            })
            .collect::<Vec<_>>()
    };
    assert_eq!(leaves(5, 3, None, &[1]), []);
    assert_eq!(leaves(7, 6, None, &[2]), [(1, 5, 6, 6)]);
    assert_eq!(leaves(8, 7, Some(4), &[3]), [(2, 7, 12, 2), (3, 8, 14, 8)]);
    assert_eq!(leaves(12, 11, Some(1), &[4]), [(4, 12, 22, 2)]);
    assert_eq!(leaves(20, 12, None, &[5]), []);
}
