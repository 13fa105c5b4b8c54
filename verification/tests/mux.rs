use ffrwd_bmff::boxes::children;
use ffrwd_bmff::fragment::sample_bytes;
use ffrwd_bmff::mux::{descriptor, Audio, Mode, Muxer, Packet, Video};
use ffrwd_bmff::track::Track;

/// A plausible `avcC` payload. Nothing here reads it.
const AVCC: &[u8] = &[
    1, 66, 0xc0, 30, 0xff, 0xe1, 0, 2, 0x67, 66, 1, 0, 2, 0x68, 0xee,
];

/// The 5-byte AudioSpecificConfig ffmpeg writes for 48 kHz mono
/// AAC-LC.
const ASC: &[u8] = &[0x11, 0x88, 0x56, 0xe5, 0x00];

fn muxer() -> Muxer {
    Muxer::video(
        Video {
            kind: *b"avc1",
            width: 320,
            height: 180,
            config: AVCC.to_vec(),
        },
        1,
        30,
    )
    .expect("a muxer")
}

fn audio_muxer() -> Muxer {
    Muxer::audio(
        Audio {
            sample_rate: 48000,
            channels: 1,
            config: ASC.to_vec(),
        },
        1,
        48000,
    )
    .expect("a muxer")
}

fn sample(pts: i64) -> Vec<u8> {
    vec![0, 0, 0, 2, 0x65, pts as u8]
}

#[test]
fn each_push_settles_the_sample_before_it() {
    let mut mux = muxer();
    let mut fragments = Vec::new();
    for pts in 0..4i64 {
        let keyframe = pts % 3 == 0;
        let data = sample(pts);
        let emitted = mux
            .push(Packet {
                pts,
                dts: Some(pts),
                duration: None,
                keyframe,
                data: &data,
            })
            .expect("push");
        // The first push has nothing settled; each later one
        // settles exactly the packet before it.
        assert_eq!(emitted.len(), usize::from(pts > 0));
        fragments.extend(emitted);
    }
    fragments.extend(mux.finish().expect("finish"));
    assert!(mux.finish().expect("finish").is_empty());

    assert_eq!(fragments.len(), 4, "one fragment per sample");
    for (index, fragment) in fragments.iter().enumerate() {
        assert_eq!(fragment.sequence, index as u32 + 1);
        assert_eq!(fragment.pts, index as i64);
        assert_eq!(fragment.samples, 1);
    }
    let syncs: Vec<bool> = fragments.iter().map(|one| one.keyframe).collect();
    assert_eq!(syncs, [true, false, false, true]);
}

#[test]
fn a_packet_with_its_own_duration_leaves_on_its_own_push() {
    let mut mux = muxer();
    for pts in 0..3i64 {
        let data = sample(pts);
        let emitted = mux
            .push(Packet {
                pts,
                dts: Some(pts),
                duration: Some(1),
                keyframe: pts == 0,
                data: &data,
            })
            .expect("push");
        assert_eq!(emitted.len(), 1, "pts {pts}: no lookahead was needed");
        assert_eq!(emitted[0].pts, pts);
    }
    assert!(mux.finish().expect("finish").is_empty(), "nothing held");
}

#[test]
fn the_final_sample_keeps_its_real_duration() {
    let mut mux = muxer();
    let mut fragments = Vec::new();
    for pts in [0i64, 2] {
        let data = sample(pts);
        fragments.extend(
            mux.push(Packet {
                pts,
                dts: Some(pts),
                duration: None,
                keyframe: pts == 0,
                data: &data,
            })
            .expect("push"),
        );
    }
    let data = sample(4);
    fragments.extend(
        mux.push(Packet {
            pts: 4,
            dts: Some(4),
            duration: Some(5),
            keyframe: false,
            data: &data,
        })
        .expect("push"),
    );
    assert_eq!(
        fragments.iter().map(|one| one.pts).collect::<Vec<_>>(),
        [0, 2, 4],
        "the packet that carried its own duration needed no flush"
    );
    let durations: Vec<u32> = fragments
        .iter()
        .map(|one| trun_entry(&one.bytes, 0).0)
        .collect();
    assert_eq!(durations, [2, 2, 5]);
    assert!(mux.finish().expect("finish").is_empty());
}

#[test]
fn an_unsettled_decode_prefix_is_held_then_synthesized_backwards() {
    let mut mux = muxer();
    for (pts, dts) in [(2i64, None), (0, None), (1, Some(0i64))] {
        let data = sample(pts);
        let held = mux
            .push(Packet {
                pts,
                dts,
                duration: None,
                keyframe: pts == 2,
                data: &data,
            })
            .expect("push");
        assert!(
            held.is_empty(),
            "nothing may leave before the step is known"
        );
    }
    let data = sample(3);
    let emitted = mux
        .push(Packet {
            pts: 3,
            dts: Some(1),
            duration: None,
            keyframe: false,
            data: &data,
        })
        .expect("push");
    assert_eq!(
        emitted.iter().map(|one| one.pts).collect::<Vec<_>>(),
        [2, 0, 1]
    );
    // Synthesized: dts -2 behind the settled 0, so the shift lifts
    // the first fragment's base decode time to zero exactly.
    assert_eq!(emitted[0].base_decode_time, 0);
    assert_eq!(emitted[1].base_decode_time, 1);
    // The reorder still crosses as a presentation offset.
    assert_eq!(trun_entry(&emitted[0].bytes, 0).3, 4);
    let tail = mux.finish().expect("finish");
    assert_eq!(tail.iter().map(|one| one.pts).collect::<Vec<_>>(), [3]);
}

#[test]
fn a_cut_mode_muxer_puts_every_settled_sample_in_one_fragment() {
    let mut mux = muxer().with_mode(Mode::PerCut);
    for pts in 0..4i64 {
        let data = sample(pts);
        let emitted = mux
            .push(Packet {
                pts,
                dts: Some(pts),
                duration: Some(1),
                keyframe: pts == 0,
                data: &data,
            })
            .expect("push");
        assert!(emitted.is_empty(), "nothing leaves until a cut");
    }
    let fragment = mux.cut().expect("a cut").expect("a fragment");
    assert_eq!(fragment.samples, 4);
    assert_eq!(fragment.sequence, 1);
    assert_eq!(trun_sample_count(&fragment.bytes), 4);
    assert!(mux.cut().expect("a cut").is_none(), "nothing left open");
    // And the reader reads the four samples back out of the one
    // fragment, which is the shape ffmpeg writes.
    let track = Track::from_init(&mux.init_segment()).expect("an init segment");
    let read = track
        .fragment_samples(&fragment.bytes)
        .expect("the samples");
    assert_eq!(read.len(), 4);
    assert_eq!(
        read.iter().map(|one| one.dts).collect::<Vec<_>>(),
        [0, 1, 2, 3]
    );
}

#[test]
fn an_empty_packet_is_refused() {
    let mut mux = muxer();
    let err = mux
        .push(Packet {
            pts: 0,
            dts: Some(0),
            duration: None,
            keyframe: true,
            data: &[],
        })
        .expect_err("a refusal");
    assert!(err.to_string().contains("no bytes"), "{}", err.to_string());
}

#[test]
fn a_track_with_no_configuration_record_has_no_sample_entry_to_build() {
    let err = Muxer::audio(
        Audio {
            sample_rate: 48000,
            channels: 2,
            config: Vec::new(),
        },
        1,
        48000,
    )
    .expect_err("a refusal");
    assert!(err.to_string().contains("AudioSpecificConfig"), "{}", err.to_string());
    let err = Muxer::video(
        Video {
            kind: *b"vp09",
            width: 16,
            height: 16,
            config: vec![1],
        },
        1,
        30,
    )
    .expect_err("a refusal");
    assert!(err.to_string().contains("vp09"), "{}", err.to_string());
}

#[test]
fn every_video_entry_this_crate_writes_reads_back_as_itself() {
    // The three the read side knows, written from an opaque record
    // and read back with the record intact.
    for (kind, config_box) in [
        (*b"avc1", *b"avcC"),
        (*b"hvc1", *b"hvcC"),
        (*b"av01", *b"av1C"),
    ] {
        let mux = Muxer::video(
            Video {
                kind,
                width: 320,
                height: 180,
                config: vec![1, 2, 3, 4],
            },
            1,
            30,
        )
        .expect("a muxer");
        let init = mux.init_segment();
        let track = Track::from_init(&init).expect("an init segment");
        assert_eq!(track.entry.kind, kind);
        assert_eq!(track.entry.config, vec![1, 2, 3, 4]);
        assert_eq!(track.timescale, 30);
        assert!(init.windows(4).any(|four| four == config_box));
    }
}

#[test]
fn the_audio_entry_carries_the_config_inside_its_esds() {
    let mux = audio_muxer();
    let init = mux.init_segment();
    let track = Track::from_init(&init).expect("an init segment");
    assert_eq!(track.entry.kind, *b"mp4a");
    assert!(track.is_audio());
    assert_eq!(
        track.entry.audio.expect("the sound").sample_rate,
        48000,
        "the 16.16 rate's whole part"
    );
    // The descriptor chain ends with the config verbatim, behind
    // its tag and length byte.
    let config = track
        .entry
        .config
        .windows(ASC.len())
        .position(|window| window == ASC)
        .expect("the config is in the esds");
    assert_eq!(
        &track.entry.config[config - 2..config],
        &[0x05, ASC.len() as u8]
    );
    assert!(init.windows(4).any(|four| four == b"soun"));
    assert!(init.windows(4).any(|four| four == b"smhd"));
    assert!(!init.windows(4).any(|four| four == b"vmhd"));
}

#[test]
fn a_long_config_codes_its_descriptor_length_across_bytes() {
    let long = vec![0x11u8; 200];
    let coded = descriptor(0x05, &long);
    assert_eq!(coded[0], 0x05);
    assert_eq!(&coded[1..3], &[0x81, 0x48]);
    assert_eq!(&coded[3..], &long[..]);
}

#[test]
fn the_written_fragment_is_the_one_the_reader_reads() {
    let mut mux = muxer();
    let mut fragments = Vec::new();
    for pts in 0..3i64 {
        let data = sample(pts);
        fragments.extend(
            mux.push(Packet {
                pts,
                dts: Some(pts),
                duration: Some(1),
                keyframe: pts == 0,
                data: &data,
            })
            .expect("push"),
        );
    }
    let track = Track::from_init(&mux.init_segment()).expect("an init segment");
    for (index, fragment) in fragments.iter().enumerate() {
        let read = track.fragment_samples(&fragment.bytes).expect("a fragment");
        assert_eq!(read.len(), 1);
        assert_eq!(read[0].dts, index as i64);
        assert_eq!(read[0].keyframe, index == 0);
        let bytes = sample_bytes(&fragment.bytes, 0, &read[0])
            .expect("the sample bytes");
        assert_eq!(bytes, &sample(index as i64)[..]);
    }
}

#[test]
fn the_init_segment_is_two_top_level_boxes_and_nothing_else() {
    let init = muxer().init_segment();
    let top = children(&init, 0).expect("the boxes");
    assert_eq!(top.len(), 2);
    assert!(top[0].is(b"ftyp"));
    assert!(top[1].is(b"moov"));
    assert!(
        !init.windows(4).any(|four| four == b"elst"),
        "this writer writes no edit list"
    );
}

/// The trun's sample count, out of a fragment this module wrote.
fn trun_sample_count(bytes: &[u8]) -> u32 {
    let at = past_tag(bytes, b"trun") + 4;
    u32::from_be_bytes(bytes[at..at + 4].try_into().expect("count"))
}

/// One trun entry: duration, size, flags, cts.
fn trun_entry(bytes: &[u8], index: usize) -> (u32, u32, u32, i32) {
    let at = past_tag(bytes, b"trun") + 12 + index * 16;
    let field = |offset: usize| {
        u32::from_be_bytes(
            bytes[at + 4 * offset..at + 4 * offset + 4]
                .try_into()
                .expect("field"),
        )
    };
    (field(0), field(1), field(2), field(3) as i32)
}

fn past_tag(bytes: &[u8], kind: &[u8; 4]) -> usize {
    bytes
        .windows(4)
        .position(|window| window == kind)
        .map(|at| at + 4)
        .expect("box present")
}
