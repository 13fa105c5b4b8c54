use ffrwd_bmff::boxes::{boxed, full_boxed};
use ffrwd_bmff::fragment::{read_tfhd, read_trun, samples_of_moof};
use ffrwd_bmff::track::{Edit, Handler, SampleEntry, Track, TrexDefaults};
use ffrwd_bmff::Limits;

/// A `trun` of one sample per size given, with per-sample size and
/// flags and nothing else.
fn trun(data_offset: Option<i32>, sizes: &[u32]) -> Vec<u8> {
    let mut flags = 0x200u32;
    if data_offset.is_some() {
        flags |= 0x01;
    }
    let mut payload = (sizes.len() as u32).to_be_bytes().to_vec();
    if let Some(offset) = data_offset {
        payload.extend_from_slice(&offset.to_be_bytes());
    }
    for size in sizes {
        payload.extend_from_slice(&size.to_be_bytes());
    }
    full_boxed(b"trun", 0, flags, &payload)
}

fn tfhd(track_id: u32, flags: u32, extra: &[u8]) -> Vec<u8> {
    let mut payload = track_id.to_be_bytes().to_vec();
    payload.extend_from_slice(extra);
    full_boxed(b"tfhd", 0, flags, &payload)
}

fn moof(trafs: &[Vec<u8>]) -> Vec<u8> {
    let mut body = full_boxed(b"mfhd", 0, 0, &1u32.to_be_bytes());
    for traf in trafs {
        body.extend_from_slice(traf);
    }
    boxed(b"moof", &body)
}

fn offsets(moof_bytes: &[u8], want: u32) -> Vec<u64> {
    let head = 8usize;
    let mut decode = 0i64;
    samples_of_moof(
        &moof_bytes[head..],
        0,
        head as u64,
        Some(want),
        &TrexDefaults::default(),
        &mut decode,
        &Limits::default(),
    )
    .expect("the samples")
    .iter()
    .map(|sample| sample.offset)
    .collect()
}

#[test]
fn an_explicit_base_data_offset_is_where_the_data_is() {
    let traf = boxed(
        b"traf",
        &[
            tfhd(1, 0x01, &5000u64.to_be_bytes()),
            trun(Some(0), &[10, 20]),
        ]
        .concat(),
    );
    assert_eq!(offsets(&moof(&[traf]), 1), vec![5000, 5010]);
}

#[test]
fn default_base_is_moof_puts_every_track_fragment_at_the_moof() {
    // Two track fragments, both flagged default-base-is-moof: both
    // start from the moof and each states its own data offset.
    let one = boxed(
        b"traf",
        &[tfhd(1, 0x02_0000, &[]), trun(Some(200), &[10, 10])].concat(),
    );
    let two = boxed(
        b"traf",
        &[tfhd(2, 0x02_0000, &[]), trun(Some(300), &[7])].concat(),
    );
    let bytes = moof(&[one, two]);
    assert_eq!(offsets(&bytes, 1), vec![200, 210]);
    assert_eq!(offsets(&bytes, 2), vec![300]);
}

#[test]
fn a_later_track_fragment_with_no_flags_carries_on_from_the_one_before() {
    // Neither flag set. The first track fragment starts at the moof
    // and runs 30 bytes; the second must start where that ended,
    // not back at the moof.
    let one = boxed(b"traf", &[tfhd(1, 0, &[]), trun(None, &[10, 20])].concat());
    let two = boxed(b"traf", &[tfhd(2, 0, &[]), trun(None, &[5, 5])].concat());
    let bytes = moof(&[one, two]);
    assert_eq!(offsets(&bytes, 1), vec![0, 10]);
    assert_eq!(offsets(&bytes, 2), vec![30, 35]);
}

#[test]
fn a_run_with_no_offset_carries_on_from_the_run_before_it() {
    // §8.8.8: the second trun has no data_offset, so its data
    // starts where the first run's ended rather than back at the
    // base.
    let traf = boxed(
        b"traf",
        &[
            tfhd(1, 0x02_0000, &[]),
            trun(Some(100), &[10, 10]),
            trun(None, &[4]),
        ]
        .concat(),
    );
    assert_eq!(offsets(&moof(&[traf]), 1), vec![100, 110, 120]);
}

#[test]
fn fragment_a_version_zero_composition_offset_is_read_as_signed() {
    // flags: data-offset, sample-size, sample-composition-offset.
    let mut payload = 1u32.to_be_bytes().to_vec();
    payload.extend_from_slice(&0i32.to_be_bytes());
    payload.extend_from_slice(&8u32.to_be_bytes());
    payload.extend_from_slice(&(-1024i32).to_be_bytes());
    let body = full_boxed(b"trun", 0, 0x01 | 0x200 | 0x800, &payload);
    let (_, entries) = read_trun(
        &body[8..],
        0,
        &read_tfhd(&tfhd(1, 0, &[])[8..], 0).expect("a tfhd"),
        &TrexDefaults::default(),
        &Limits::default(),
    )
    .expect("the entries");
    assert_eq!(entries[0].composition_offset, -1024);
}

#[test]
fn a_trun_claiming_more_entries_than_it_holds_is_refused() {
    let mut payload = 1_000_000u32.to_be_bytes().to_vec();
    payload.extend_from_slice(&[0; 8]);
    let body = full_boxed(b"trun", 0, 0x200 | 0x100, &payload);
    let err = read_trun(
        &body[8..],
        77,
        &read_tfhd(&tfhd(1, 0, &[])[8..], 0).expect("a tfhd"),
        &TrexDefaults::default(),
        &Limits::default(),
    )
    .expect_err("a refusal");
    assert_eq!(err.offset(), Some(77));
}

#[test]
fn a_fragment_that_does_not_open_with_a_moof_is_refused() {
    let track = Track {
        track_id: 1,
        handler: Handler::Video,
        timescale: 30,
        movie_timescale: 1000,
        entry: SampleEntry::default(),
        defaults: TrexDefaults::default(),
        edit: Edit::default(),
        samples: Vec::new(),
        start_shift: 0,
    };
    let err = track
        .fragment_samples(&boxed(b"free", &[]))
        .expect_err("a refusal");
    assert!(err.to_string().contains("moof"), "{}", err.to_string());
}
