use ffrwd_bmff::boxes;
use ffrwd_bmff::fragment;
use ffrwd_bmff::fragment::sample_bytes;
use ffrwd_bmff::mux::{Mode, Muxer, Packet, Video};
use ffrwd_bmff::patch::{self, Selector};
use ffrwd_bmff::scanner;
use ffrwd_bmff::scanner::{Scanner, Segment};
use ffrwd_bmff::source::{Cursor, Source};
use ffrwd_bmff::track::{self, Pick, Track};

/// Every parser entry point of the crate, over whatever bytes it is given.
fn every_parser(data: &[u8]) {
    let _ = boxes::parse_header(data, 0);
    let _ = boxes::children(data, 0);
    let _ = boxes::find_in(data, b"moov", 0);
    let _ = scanner::moof_summary(data, 0);
    let _ = fragment::read_tfhd(data, 0);
    let _ = fragment::read_tfdt(data, 0);
    let _ = Track::all(data);
    let init = Track::from_init(data);

    let mut scanner = Scanner::new();
    let _ = scanner.push(data);
    while scanner.poll().is_some() {}
    let _ = scanner.finish();

    let mut src = Source::new(Cursor::new(data.to_vec())).expect("a source");
    let _ = boxes::top_level(&mut src);
    let _ = patch::find(&mut src, Selector::Kind(*b"moov"));
    let _ = patch::read(&mut src, Selector::Uuid([0x5a; 16]));
    let _ = patch::spot(&mut src, Selector::Uuid([0x5a; 16]));
    for pick in [Pick::Video, Pick::Audio, Pick::First] {
        if let Ok(found) = track::read(&mut src, pick) {
            for sample in found.samples.iter().take(64) {
                let _ = src.span(sample.offset, u64::from(sample.size));
            }
        }
    }
    if let Ok(track) = init {
        let _ = track.fragment_samples(data);
        let _ = track.fragment_samples_at(data, 12345);
    }
}

/// A fragmented file of one reordering track: four groups of five frames,
/// a group to a fragment.
fn bytes() -> Vec<u8> {
    let mut mux = Muxer::video(
        Video {
            kind: *b"avc1",
            width: 320,
            height: 180,
            config: vec![1, 66, 0xc0, 30, 0xff, 0xe1, 0, 2, 0x67, 66, 1, 0, 2, 0x68, 0xee],
        },
        1,
        30,
    )
    .expect("a muxer")
    .with_mode(Mode::PerCut);
    let mut out = mux.init_segment();
    for group in 0..4i64 {
        for frame in 0..5i64 {
            let dts = group * 5 + frame - 1;
            let data = vec![frame as u8; 7 + frame as usize];
            mux.push(Packet {
                pts: dts + 1 + frame % 2,
                dts: Some(dts),
                duration: Some(1),
                keyframe: frame == 0,
                data: &data,
            })
            .expect("push");
        }
        let fragment = mux.cut().expect("a cut").expect("a fragment");
        out.extend_from_slice(&fragment.bytes);
    }
    out
}

#[test]
fn every_truncation_of_the_reference_is_refused_rather_than_survived() {
    let whole = bytes();
    for cut in 0..whole.len() {
        every_parser(&whole[..cut]);
    }
}

#[test]
fn random_damage_to_the_reference_is_refused_rather_than_survived() {
    let whole = bytes();
    let mut seed = 0x9e37_79b9_7f4a_7c15u64;
    let mut next = move || {
        seed = seed
            .wrapping_mul(6364136223846793005)
            .wrapping_add(1442695040888963407);
        seed >> 11
    };
    for _ in 0..3000 {
        let mut damaged = whole.clone();
        // Flips land in the first few kilobytes as often as anywhere,
        // because that is where the structure is.
        for _ in 0..1 + next() % 8 {
            let at = if next() % 2 == 0 {
                (next() as usize) % damaged.len().min(4096)
            } else {
                (next() as usize) % damaged.len()
            };
            damaged[at] ^= 1 << (next() % 8);
        }
        every_parser(&damaged);
    }
}

#[test]
fn a_file_of_nothing_much_is_refused_rather_than_survived() {
    for data in [
        Vec::new(),
        vec![0u8; 8],
        vec![0xffu8; 64],
        b"ftyp".to_vec(),
        // A box claiming the whole of a 64-bit address space.
        [1u8, 0, 0, 0]
            .iter()
            .chain(b"moov")
            .chain(&[0xffu8; 8])
            .copied()
            .collect(),
        // A box of declared size zero at the top level, which runs to
        // the end of whatever it is in.
        [0u8, 0, 0, 0].iter().chain(b"mdat").copied().collect(),
    ] {
        every_parser(&data);
    }
}

#[test]
fn the_file_reader_and_the_scanner_read_the_same_samples() {
    let whole = bytes();
    let mut src = Source::new(Cursor::new(whole.clone())).expect("a source");
    let file = track::read(&mut src, Pick::Video).expect("a track");
    assert_eq!(file.start_shift, 0, "an empty moov carries no elst");

    let mut scanner = Scanner::new();
    scanner.push(&whole).expect("a push");
    scanner.finish().expect("a clean end");
    let init = match scanner.poll() {
        Some(Segment::Init(init)) => init,
        other => panic!("{other:?}"),
    };
    let track = Track::from_init(&init.bytes).expect("the init segment reads");
    let mut index = 0;
    while let Some(segment) = scanner.poll() {
        let fragment = match segment {
            Segment::Fragment(fragment) => fragment,
            other => panic!("{other:?}"),
        };
        for sample in track
            .fragment_samples_at(&fragment.bytes, fragment.offset)
            .expect("a fragment reads")
        {
            let want = &file.samples[index];
            assert_eq!(
                (sample.dts, sample.pts, sample.keyframe, sample.offset, sample.size),
                (want.dts, want.pts, want.keyframe, want.offset, want.size),
                "sample {index}"
            );
            let data = sample_bytes(&fragment.bytes, fragment.offset, &sample).expect("the bytes");
            assert_eq!(
                data,
                src.span(want.offset, u64::from(want.size)).expect("the sample bytes"),
                "sample {index} bytes"
            );
            index += 1;
        }
    }
    assert_eq!(index, file.samples.len());
    assert_eq!(index, 20);
}
