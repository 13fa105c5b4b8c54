//! A track, its sample tables, and its edit list.
//!
//! What a `moov` says about one track (§8.3.1): which handler it is
//! (§8.4.3), what unit its times are counted in (§8.4.2), what its samples
//! are coded as and what out-of-band header they need (§8.5.2), what
//! defaults its fragments fall back to (§8.8.3), and, where the track is not
//! fragmented, where every sample is and when it is shown (§8.6, §8.7).
//!
//! # The edit list
//!
//! ffprobe prints a packet's `pts_time` after the `elst` (§8.6.6) has moved
//! it, so this does the same thing, in one rule:
//!
//! > A sample's composition time is `dts + ctts`, with `dts` running from
//! > zero through the `stts` deltas. The file's zero is the composition time
//! > of the first sample, in decode order, whose composition time is at or
//! > after the `media_time` of the first edit that is not empty.
//! > Presentation time is a sample's composition time minus that zero, plus
//! > the durations of the empty edits (`media_time` -1) in front of it,
//! > rescaled from the movie timescale to the media one. A file with no
//! > `elst` keeps its composition times as they are.
//!
//! The snap in the middle of that is the part worth saying twice. ffmpeg
//! does not subtract `media_time`; it drops the samples before it and makes
//! the first one it keeps zero. For every file where `media_time` lands
//! exactly on a sample, which is every ordinary encode, the two are the same
//! number. They part company when it does not: raw H.264 remuxed into MP4
//! gets a `media_time` of two frames at a nominal rate while the samples
//! themselves are a tick shorter, and the difference there is 20
//! milliseconds, which is most of a frame. A sample before the zero keeps
//! its negative presentation time here rather than being dropped, which is
//! also what ffprobe prints for it.
//!
//! What is left out: an edit list of several non-empty entries, which ffmpeg
//! implements by cutting and repeating samples. Nothing a muxer writes has
//! one, and guessing at it would be worse than saying so, so the first
//! non-empty entry decides and the rest are ignored.
//!
//! **This crate's own writer writes no `elst` at all** ([`crate::mux`]), so
//! a file it wrote is read back here with `start_shift` of zero and its
//! composition times exactly as stored.
//!
//! The box nesting walked here is a fixed path, so there is no recursion to
//! bound: `moov` and each `moof` are read once, whole, and their children
//! are walked flat.

use vstd::prelude::*;
use vstd::slice::{slice_subrange, slice_to_vec};

use crate::be::{
    as_signed32, as_signed64, be16, be32, be64, get32, get64, kind_at, signed32, signed64,
};
use crate::boxes::{
    all_fit, child, child_of, children, children_spec, first_of, found, full_box_lacking, joined,
    kids, kids_of, lacking, top_level, top_level_spec, BoxSpan, Bytes, Child, Kid,
};
use crate::codes::{
    same, AV01, AV1_C, AVC1, AVC3, AVC_C, EDTS, ELST, ESDS, HDLR, HEV1, HVC1, HVC_C, MDHD,
    MDIA, MINF, MOOF, MOOV, MP4A, MVEX, MVHD, SOUN, STBL, STSD, TKHD, TRAK, TREX, VIDE,
};
use crate::error::{seen, settled, Error, Result};
use crate::fragment::{
    fragment_no_room, fragment_spec, moof_no_room, moof_spec, no_room, samples_of_fragment,
    samples_of_moof,
};
use crate::limits::{Limits, MAX_CHILDREN};
use crate::mux::DEFAULT_MOVIE_TIMESCALE;
use crate::source::{cheap, span_spec, Input, Source};
use crate::tables::{
    counts, deltas, entry_count, entry_count_spec,
    law_the_next_decode_time_is_the_sum_of_the_deltas, samples_of_stbl, stbl_no_room, stbl_spec,
    times_spec,
};
use crate::time::{clamp64, minus, ms, ms_spec, plus, rescale};

verus! {

/// Where a sample entry's child boxes start: past the eight bytes of box
/// header, the eight of `SampleEntry` (§8.5.2), and the seventy of
/// `VisualSampleEntry` (§12.1.3).
pub const VISUAL_SAMPLE_ENTRY_LEN: usize = 86;

/// Where an `AudioSampleEntry`'s child boxes start, counted the same way
/// (§12.2.3).
pub const AUDIO_SAMPLE_ENTRY_LEN: usize = 36;

/// What a track carries, by its `hdlr` (§8.4.3).
#[derive(Clone, Copy, Debug, PartialEq, Eq)]
pub enum Handler {
    /// `vide`.
    Video,
    /// `soun`.
    Audio,
    /// Anything else, kept as it was written.
    Other([u8; 4]),
}

impl Handler {
    pub open spec fn of_spec(kind: [u8; 4]) -> Handler {
        if kind == VIDE {
            Handler::Video
        } else if kind == SOUN {
            Handler::Audio
        } else {
            Handler::Other(kind)
        }
    }

    pub open spec fn code_spec(self) -> [u8; 4] {
        match self {
            Handler::Video => VIDE,
            Handler::Audio => SOUN,
            Handler::Other(kind) => kind,
        }
    }

    #[verifier::when_used_as_spec(of_spec)]
    pub fn of(kind: [u8; 4]) -> (handler: Self)
        ensures
            handler == Handler::of_spec(kind),
    {
        if same(&kind, &VIDE) {
            Handler::Video
        } else if same(&kind, &SOUN) {
            Handler::Audio
        } else {
            Handler::Other(kind)
        }
    }

    #[verifier::when_used_as_spec(code_spec)]
    pub fn code(self) -> (code: [u8; 4])
        ensures
            code == self.code_spec(),
    {
        match self {
            Handler::Video => VIDE,
            Handler::Audio => SOUN,
            Handler::Other(kind) => kind,
        }
    }
}

/// The picture a visual sample entry declares (§12.1.3).
#[derive(Clone, Copy, Debug, PartialEq, Eq, Structural)]
pub struct Visual {
    pub width: u32,
    pub height: u32,
}

impl Default for Visual {
    fn default() -> (visual: Self)
        ensures
            visual == (Visual { width: 0, height: 0 }),
    {
        Visual { width: 0, height: 0 }
    }
}

/// The sound an audio sample entry declares (§12.2.3). The sample rate is
/// the 16.16 field's whole part, which is all a rate under 65536 needs; the
/// real one is in the decoder configuration either way.
#[derive(Clone, Copy, Debug, PartialEq, Eq, Structural)]
pub struct Audio {
    pub sample_rate: u32,
    pub channels: u32,
}

impl Default for Audio {
    fn default() -> (audio: Self)
        ensures
            audio == (Audio { sample_rate: 0, channels: 0 }),
    {
        Audio { sample_rate: 0, channels: 0 }
    }
}

/// One coded sample: where its bytes are, when it is decoded and shown, and
/// whether a reader may start at it.
#[derive(Clone, Copy, Debug, PartialEq, Eq, Structural)]
pub struct Sample {
    /// Its place in decode order, from zero.
    pub index: u32,
    /// Where its bytes begin. In a file read that is a file offset; in a
    /// fragment read it is an offset in the stream the fragment came from,
    /// which for a standalone fragment is an offset within it.
    pub offset: u64,
    /// How many bytes they are.
    pub size: u32,
    /// Decode time in the track's own ticks, with any edit list shift
    /// already applied.
    pub dts: i64,
    /// Presentation time in the track's own ticks, with the edit list
    /// already applied: the number ffprobe divides by the time base to print
    /// `pts_time`.
    pub pts: i64,
    /// How long it is shown, in the track's own ticks. Zero where the file
    /// did not say.
    pub duration: i64,
    /// Whether the sample is a random access point.
    pub keyframe: bool,
}

impl Default for Sample {
    fn default() -> (sample: Self)
        ensures
            sample == (Sample {
                index: 0,
                offset: 0,
                size: 0,
                dts: 0,
                pts: 0,
                duration: 0,
                keyframe: false,
            }),
    {
        Sample { index: 0, offset: 0, size: 0, dts: 0, pts: 0, duration: 0, keyframe: false }
    }
}

/// What a track's `elst` amounts to, before the samples are known (§8.6.6).
#[derive(Clone, Copy, Debug, PartialEq, Eq)]
pub struct Edit {
    /// The empty edits in front, in media ticks: how much later everything
    /// is shown.
    pub empty: i64,
    /// The `media_time` of the first edit that shows something, or `None`
    /// when there is no edit list to apply.
    pub media_time: Option<i64>,
}

impl Edit {
    /// The edit of a track with no edit list.
    pub open spec fn absent() -> Edit {
        Edit { empty: 0, media_time: None }
    }
}

impl Default for Edit {
    fn default() -> (edit: Self)
        ensures
            edit == Edit::absent(),
    {
        Edit { empty: 0, media_time: None }
    }
}

/// The defaults a `trex` sets for every fragment of a track (§8.8.3).
#[derive(Clone, Copy, Debug, PartialEq, Eq, Structural)]
pub struct TrexDefaults {
    pub duration: u32,
    pub size: u32,
    pub flags: u32,
}

impl TrexDefaults {
    /// The defaults of a track with no `trex`.
    pub open spec fn absent() -> TrexDefaults {
        TrexDefaults { duration: 0, size: 0, flags: 0 }
    }
}

impl Default for TrexDefaults {
    fn default() -> (defaults: Self)
        ensures
            defaults == TrexDefaults::absent(),
    {
        TrexDefaults { duration: 0, size: 0, flags: 0 }
    }
}

/// The first sample entry of a track's `stsd` (§8.5.2), and the decoder
/// configuration record inside it.
///
/// The record is **opaque**: `avcC` (ISO/IEC 14496-15 §5.3.3), `hvcC`
/// (§8.3.3 of the same), `av1C` (the AV1 codec ISO media file format
/// binding), or the payload of an `esds` (ISO/IEC 14496-14 §5.6), all of
/// them carried from the file to the caller as bytes.
#[derive(Clone, Debug, PartialEq, Eq)]
pub struct SampleEntry {
    /// The entry's own four characters: `avc1`, `hvc1`, `av01`, `mp4a`, and
    /// so on.
    pub kind: [u8; 4],
    /// The decoder configuration record, as the file carried it. Empty when
    /// the entry has none this crate recognises the place of.
    pub config: Vec<u8>,
    /// The picture, for a visual entry.
    pub visual: Option<Visual>,
    /// The sound, for an audio entry.
    pub audio: Option<Audio>,
}

/// A sample entry by what it holds.
pub struct Coding {
    pub kind: [u8; 4],
    pub config: Seq<u8>,
    pub visual: Option<Visual>,
    pub audio: Option<Audio>,
}

impl View for SampleEntry {
    type V = Coding;

    open spec fn view(&self) -> Coding {
        Coding {
            kind: self.kind,
            config: self.config@,
            visual: self.visual,
            audio: self.audio,
        }
    }
}

impl Default for SampleEntry {
    fn default() -> (entry: Self)
        ensures
            entry@ == (Coding {
                kind: [0, 0, 0, 0],
                config: Seq::empty(),
                visual: None,
                audio: None,
            }),
    {
        SampleEntry { kind: [0, 0, 0, 0], config: Vec::new(), visual: None, audio: None }
    }
}

/// One track of a movie (§8.3.1).
#[derive(Clone, Debug, PartialEq, Eq)]
pub struct Track {
    /// `tkhd`'s `track_ID` (§8.3.2).
    pub track_id: u32,
    /// What the track carries (§8.4.3).
    pub handler: Handler,
    /// Ticks a second, the denominator ffprobe calls the time base (§8.4.2).
    pub timescale: u32,
    /// The movie timescale the file declared (§8.2.2), which is what an edit
    /// list's durations are counted in.
    pub movie_timescale: u32,
    /// The first sample entry, and the decoder configuration in it.
    pub entry: SampleEntry,
    /// The fragment defaults (§8.8.3).
    pub defaults: TrexDefaults,
    /// What the edit list amounts to (§8.6.6).
    pub edit: Edit,
    /// Every sample, in decode order. Empty for an init segment, whose
    /// sample tables are all zero by construction.
    pub samples: Vec<Sample>,
    /// How far the edit list moved every time: `pts` as returned is the
    /// stored composition time plus this.
    pub start_shift: i64,
}

/// A track by what it holds.
pub struct Reel {
    pub track_id: u32,
    pub handler: Handler,
    pub timescale: u32,
    pub movie_timescale: u32,
    pub entry: Coding,
    pub defaults: TrexDefaults,
    pub edit: Edit,
    pub samples: Seq<Sample>,
    pub start_shift: i64,
}

impl View for Track {
    type V = Reel;

    open spec fn view(&self) -> Reel {
        Reel {
            track_id: self.track_id,
            handler: self.handler,
            timescale: self.timescale,
            movie_timescale: self.movie_timescale,
            entry: self.entry@,
            defaults: self.defaults,
            edit: self.edit,
            samples: self.samples@,
            start_shift: self.start_shift,
        }
    }
}

/// The samples of a list, numbered from zero in decode order.
pub open spec fn numbered(samples: Seq<Sample>) -> Seq<Sample> {
    Seq::new(
        samples.len(),
        |i: int| Sample { index: (i % 0x1_0000_0000) as u32, ..samples[i] },
    )
}

/// Numbers samples from zero, in place.
pub fn number(samples: &mut Vec<Sample>)
    ensures
        final(samples)@ == numbered(old(samples)@),
{
    let mut index: usize = 0;
    while index < samples.len()
        invariant
            index <= samples@.len(),
            samples@.len() == old(samples)@.len(),
            forall|i: int|
                0 <= i < index ==> #[trigger] samples@[i] == numbered(old(samples)@)[i],
            forall|i: int| index <= i < samples@.len() ==> samples@[i] == old(samples)@[i],
        decreases samples@.len() - index,
    {
        let sample: Sample = samples[index];
        let number: u32 = (index as u64 % 0x1_0000_0000) as u32;
        samples.set(index, Sample { index: number, ..sample });
        index = index + 1;
    }
    assert(samples@ =~= numbered(old(samples)@));
}

impl SampleEntry {
    pub open spec fn config_box_spec(kind: [u8; 4]) -> Option<[u8; 4]> {
        if kind == AVC1 || kind == AVC3 {
            Some(AVC_C)
        } else if kind == HVC1 || kind == HEV1 {
            Some(HVC_C)
        } else if kind == AV01 {
            Some(AV1_C)
        } else if kind == MP4A {
            Some(ESDS)
        } else {
            None
        }
    }

    /// Which child box of the entry holds the configuration record for a
    /// given entry type, when this crate knows.
    pub fn config_box(kind: &[u8; 4]) -> (config: Option<&'static [u8; 4]>)
        ensures
            match config {
                Some(config) => SampleEntry::config_box_spec(*kind) == Some(*config),
                None => SampleEntry::config_box_spec(*kind) is None,
            },
    {
        if same(kind, &AVC1) || same(kind, &AVC3) {
            Some(&AVC_C)
        } else if same(kind, &HVC1) || same(kind, &HEV1) {
            Some(&HVC_C)
        } else if same(kind, &AV01) {
            Some(&AV1_C)
        } else if same(kind, &MP4A) {
            Some(&ESDS)
        } else {
            None
        }
    }
}

// ------------------------------------------------------------------ //
// The moov.
// ------------------------------------------------------------------ //
pub open spec fn handler_spec(hdlr: Seq<u8>, at: u64) -> Result<Handler> {
    if hdlr.len() < 4 {
        Err(full_box_lacking(at, 0, hdlr.len()))
    } else if hdlr.len() < 8 {
        Err(lacking(at, 4, 4))
    } else if hdlr.len() < 12 {
        Err(lacking(at, 8, 4))
    } else {
        Ok(Handler::of(kind_at(hdlr, 8)))
    }
}

/// What a `hdlr` says its track carries (§8.4.3).
pub fn handler_of(hdlr: &[u8], at: u64) -> (handler: Result<Handler>)
    requires
        at + hdlr.len() <= u64::MAX,
    ensures
        handler == handler_spec(hdlr@, at),
{
    let mut bytes = Bytes::at(hdlr, at);
    bytes.full_box()?;
    bytes.skip(4)?;
    let code = bytes.take(4)?;
    assert([code@[0], code@[1], code@[2], code@[3]] =~= kind_at(hdlr@, 8));
    Ok(Handler::of([code[0], code[1], code[2], code[3]]))
}

/// Where the field behind the creation and modification times of a header
/// is: they are eight bytes each in a version 1 box and four in any other.
pub open spec fn past_times(version: u8) -> nat {
    if version == 1 {
        20
    } else {
        12
    }
}

/// The 32-bit field behind the times of a header.
pub open spec fn after_times_spec(body: Seq<u8>, at: u64) -> Result<u32> {
    let past = past_times(body[0]);
    if body.len() < 4 {
        Err(full_box_lacking(at, 0, body.len()))
    } else if body.len() < past {
        Err(lacking(at, 4, (past - 4) as nat))
    } else if body.len() < past + 4 {
        Err(lacking(at, past, 4))
    } else {
        Ok(be32(body, past as int))
    }
}

/// The 32-bit field behind the times of a header.
fn after_times(body: &[u8], at: u64) -> (field: Result<u32>)
    requires
        at + body.len() <= u64::MAX,
    ensures
        field == after_times_spec(body@, at),
{
    let mut bytes = Bytes::at(body, at);
    let (version, _) = bytes.full_box()?;
    bytes.skip(
        if version == 1 {
            16
        } else {
            8
        },
    )?;
    bytes.u32()
}

pub open spec fn mvhd_spec(body: Seq<u8>, at: u64) -> Result<u32> {
    match after_times_spec(body, at) {
        Err(err) => Err(err),
        Ok(declared) => Ok(
            if declared == 0 {
                1000
            } else {
                declared
            },
        ),
    }
}

/// The movie timescale (§8.2.2). A zero is the file saying nothing, so the
/// usual default stands in.
pub fn mvhd_timescale(body: &[u8], at: u64) -> (timescale: Result<u32>)
    requires
        at + body.len() <= u64::MAX,
    ensures
        timescale == mvhd_spec(body@, at),
{
    let declared: u32 = after_times(body, at)?;
    if declared == 0 {
        Ok(1000)
    } else {
        Ok(declared)
    }
}

pub open spec fn mdhd_spec(body: Seq<u8>, at: u64) -> Result<u32> {
    match after_times_spec(body, at) {
        Err(err) => Err(err),
        Ok(timescale) => if timescale == 0 {
            Err(Error::format("a track whose timescale is zero").in_box(MDHD))
        } else {
            Ok(timescale)
        },
    }
}

/// The media timescale (§8.4.2). A zero here is refused: it is the divisor
/// of every time the track has, and a reader that quietly substitutes one is
/// a reader whose timestamps mean nothing.
pub fn mdhd_timescale(body: &[u8], at: u64) -> (timescale: Result<u32>)
    requires
        at + body.len() <= u64::MAX,
    ensures
        timescale == mdhd_spec(body@, at),
{
    let timescale: u32 = after_times(body, at)?;
    if timescale == 0 {
        return Err(Error::format("a track whose timescale is zero").in_box(MDHD));
    }
    Ok(timescale)
}

/// `tkhd`'s `track_ID` (§8.3.2).
pub fn tkhd_track_id(body: &[u8], at: u64) -> (id: Result<u32>)
    requires
        at + body.len() <= u64::MAX,
    ensures
        id == after_times_spec(body@, at),
{
    after_times(body, at)
}

/// One entry of an `elst`: how long it lasts and what it shows.
pub open spec fn edit_entry(elst: Seq<u8>, i: int) -> (i64, i64) {
    if elst[0] == 1 {
        (signed64(be64(elst, 8 + i * 20)), signed64(be64(elst, 16 + i * 20)))
    } else {
        (be32(elst, 8 + i * 12) as i64, signed32(be32(elst, 12 + i * 12)) as i64)
    }
}

/// What the entries of an `elst` from `i` on amount to, behind empty edits
/// of so many ticks: each empty one adds its length, and the first that
/// shows something decides.
pub open spec fn edits_from(
    elst: Seq<u8>,
    i: nat,
    count: nat,
    empty: i64,
    movie_timescale: u32,
    media_timescale: u32,
) -> Edit
    decreases count - i,
{
    if i >= count {
        Edit { empty, media_time: None }
    } else {
        let (duration, media_time) = edit_entry(elst, i as int);
        if media_time >= 0 {
            Edit { empty, media_time: Some(media_time) }
        } else {
            edits_from(
                elst,
                i + 1,
                count,
                clamp64(
                    empty + rescale(duration, movie_timescale as u64, media_timescale as u64),
                ),
                movie_timescale,
                media_timescale,
            )
        }
    }
}

pub open spec fn edit_spec(
    elst: Seq<u8>,
    at: u64,
    movie_timescale: u32,
    media_timescale: u32,
) -> Result<Edit> {
    match entry_count_spec(
        elst,
        at,
        if elst[0] == 1 {
            20
        } else {
            12
        },
    ) {
        Err(err) => Err(err),
        Ok(count) => Ok(
            edits_from(elst, 0, count as nat, 0, movie_timescale, media_timescale),
        ),
    }
}

/// The edit list, as far as the rule at the top of this file uses it
/// (§8.6.6).
pub fn edit_of(
    elst: &[u8],
    at: u64,
    movie_timescale: u32,
    media_timescale: u32,
) -> (edit: Result<Edit>)
    requires
        at + elst.len() <= u64::MAX,
    ensures
        edit == edit_spec(elst@, at, movie_timescale, media_timescale),
{
    let len: usize = elst.len();
    let version: u8 = if len > 0 {
        elst[0]
    } else {
        0
    };
    let entry_size: usize = if version == 1 {
        20
    } else {
        12
    };
    let count: usize = entry_count(elst, at, entry_size)?;
    let mut empty: i64 = 0;
    let mut index: usize = 0;
    while index < count
        invariant
            index <= count,
            len == elst@.len(),
            8 <= len,
            version == elst@[0],
            8 + count * (if version == 1 {
                20int
            } else {
                12
            }) <= len,
            edits_from(
                elst@,
                index as nat,
                count as nat,
                empty,
                movie_timescale,
                media_timescale,
            ) == edits_from(elst@, 0, count as nat, 0, movie_timescale, media_timescale),
            edit_spec(elst@, at, movie_timescale, media_timescale) == Ok::<_, Error>(
                edits_from(elst@, 0, count as nat, 0, movie_timescale, media_timescale),
            ),
        decreases count - index,
    {
        let (duration, media_time): (i64, i64) = if version == 1 {
            (
                as_signed64(get64(elst, 8 + index * 20)),
                as_signed64(get64(elst, 16 + index * 20)),
            )
        } else {
            (
                get32(elst, 8 + index * 12) as i64,
                as_signed32(get32(elst, 12 + index * 12)) as i64,
            )
        };
        if media_time >= 0 {
            // The first edit that shows something decides where zero is.
            return Ok(Edit { empty, media_time: Some(media_time) });
        }
        // An empty edit: the file shows nothing for this long, so everything
        // after it is that much later.

        empty = plus(empty, rescale(duration, movie_timescale as u64, media_timescale as u64));
        index = index + 1;
    }
    Ok(Edit { empty, media_time: None })
}

pub open spec fn visual_spec(entry: Seq<u8>, at: u64) -> Result<Visual> {
    if entry.len() < 24 {
        Err(lacking(at, 0, 24))
    } else if entry.len() < 26 {
        Err(lacking(at, 24, 2))
    } else if entry.len() < 28 {
        Err(lacking(at, 26, 2))
    } else {
        Ok(Visual { width: be16(entry, 24) as u32, height: be16(entry, 26) as u32 })
    }
}

/// `VisualSampleEntry`'s declared frame size (§12.1.3).
pub fn visual_fields(entry: &[u8], at: u64) -> (visual: Result<Visual>)
    requires
        at + entry.len() <= u64::MAX,
    ensures
        visual == visual_spec(entry@, at),
{
    let mut bytes = Bytes::at(entry, at);
    // SampleEntry: six reserved bytes and a data_reference_index, then
    // sixteen of pre_defined and reserved.
    bytes.skip(24)?;
    let width: u32 = bytes.u16()? as u32;
    let height: u32 = bytes.u16()? as u32;
    Ok(Visual { width, height })
}

pub open spec fn audio_spec(entry: Seq<u8>, at: u64) -> Result<Audio> {
    if entry.len() < 16 {
        Err(lacking(at, 0, 16))
    } else if entry.len() < 18 {
        Err(lacking(at, 16, 2))
    } else if entry.len() < 24 {
        Err(lacking(at, 18, 6))
    } else if entry.len() < 26 {
        Err(lacking(at, 24, 2))
    } else {
        Ok(Audio { sample_rate: be16(entry, 24) as u32, channels: be16(entry, 16) as u32 })
    }
}

/// `AudioSampleEntry`'s channel count and sample rate (§12.2.3).
pub fn audio_fields(entry: &[u8], at: u64) -> (audio: Result<Audio>)
    requires
        at + entry.len() <= u64::MAX,
    ensures
        audio == audio_spec(entry@, at),
{
    let mut bytes = Bytes::at(entry, at);
    bytes.skip(16)?;
    let channels: u32 = bytes.u16()? as u32;
    bytes.skip(6)?;
    // A 16.16 fixed-point rate: the whole part is the one a caller wants,
    // and a rate past 65535 is zero here and right in the decoder
    // configuration.
    let sample_rate: u32 = bytes.u16()? as u32;
    Ok(Audio { sample_rate, channels })
}

/// The configuration record among a sample entry's children: the body of its
/// box, less the version and flags of an `esds`.
pub open spec fn config_spec(list: Seq<Kid>, wanted: [u8; 4]) -> Seq<u8> {
    match found(list, wanted) {
        None => Seq::empty(),
        Some(body) => if wanted != ESDS {
            body
        } else if body.len() < 4 {
            Seq::empty()
        } else {
            body.skip(4)
        },
    }
}

/// What one sample entry says, its body being without its header.
pub open spec fn coding_spec(entry: Kid, limits: Limits) -> Result<Coding> {
    match SampleEntry::config_box_spec(entry.kind) {
        None => Ok(
            Coding { kind: entry.kind, config: Seq::empty(), visual: None, audio: None },
        ),
        Some(wanted) => {
            let fields = if wanted == ESDS {
                match audio_spec(entry.body, entry.at) {
                    Err(err) => Err(err),
                    Ok(audio) => Ok((AUDIO_SAMPLE_ENTRY_LEN, None::<Visual>, Some(audio))),
                }
            } else {
                match visual_spec(entry.body, entry.at) {
                    Err(err) => Err(err),
                    Ok(visual) => Ok((VISUAL_SAMPLE_ENTRY_LEN, Some(visual), None::<Audio>)),
                }
            };
            match fields {
                Err(err) => Err(err),
                Ok((fixed, visual, audio)) => if entry.body.len() < fixed - 8 {
                    Err(
                        Error::truncated("a sample entry shorter than its own fields").in_box(
                            entry.kind,
                        ),
                    )
                } else {
                    match children_spec(
                        entry.body.skip(fixed - 8),
                        (entry.at + fixed - 8) as u64,
                        limits.max_children,
                    ) {
                        Err(err) => Err(err),
                        Ok(list) => Ok(
                            Coding {
                                kind: entry.kind,
                                config: config_spec(list, wanted),
                                visual,
                                audio,
                            },
                        ),
                    }
                },
            }
        },
    }
}

/// The first sample entry of an `stsd`.
pub open spec fn sample_entry_spec(stsd: Seq<u8>, at: u64, limits: Limits) -> Result<Coding> {
    match entry_count_spec(stsd, at, 8) {
        Err(err) => Err(err),
        Ok(count) => if count == 0 {
            Err(Error::format("an stsd with no sample entry").in_box(STSD))
        } else {
            match children_spec(stsd.skip(8), (at + 8) as u64, limits.max_children) {
                Err(err) => Err(err),
                Ok(list) => if list.len() == 0 {
                    Err(Error::format("an stsd with no sample entry").in_box(STSD))
                } else {
                    coding_spec(list[0], limits)
                },
            }
        },
    }
}

/// A sample entry that was read, by what it holds.
pub open spec fn entry_seen(entry: Result<SampleEntry>) -> Result<Coding> {
    match entry {
        Ok(entry) => Ok(entry@),
        Err(err) => Err(err),
    }
}

/// The first sample entry of an `stsd`, and the configuration record inside
/// it (§8.5.2).
pub fn sample_entry(stsd: &[u8], at: u64, limits: &Limits) -> (out: Result<SampleEntry>)
    requires
        at + stsd.len() <= u64::MAX,
    ensures
        settled(out),
        entry_seen(out) == sample_entry_spec(stsd@, at, *limits),
{
    let count: usize = entry_count(stsd, at, 8)?;
    if count == 0 {
        return Err(Error::format("an stsd with no sample entry").in_box(STSD));
    }
    let rest = slice_subrange(stsd, 8, stsd.len());
    assert(rest@ =~= stsd@.skip(8));
    let entries = kids(rest, at + 8, limits)?;
    if entries.len() == 0 {
        return Err(Error::format("an stsd with no sample entry").in_box(STSD));
    }
    let entry = entries[0];
    assert(kids_of(entries@)[0] == entry@);
    let kind = entry.kind;
    let wanted = match SampleEntry::config_box(&kind) {
        Some(wanted) => wanted,
        // An entry this crate does not know the shape of still names itself;
        // the caller decides whether it can use it.
        None => {
            return Ok(SampleEntry { kind, config: Vec::new(), visual: None, audio: None });
        },
    };
    let (fixed, visual, audio): (usize, Option<Visual>, Option<Audio>) = if same(wanted, &ESDS) {
        let sound = audio_fields(entry.body, entry.at)?;
        (AUDIO_SAMPLE_ENTRY_LEN, None, Some(sound))
    } else {
        let picture = visual_fields(entry.body, entry.at)?;
        (VISUAL_SAMPLE_ENTRY_LEN, Some(picture), None)
    };
    // The entry's own header is already off the body, so the fixed fields
    // that remain are eight fewer than the shape's own length.
    if entry.body.len() < fixed - 8 {
        return Err(Error::truncated("a sample entry shorter than its own fields").in_box(kind));
    }
    let inner = slice_subrange(entry.body, fixed - 8, entry.body.len());
    assert(inner@ =~= entry.body@.skip(fixed - 8));
    let list = kids(inner, entry.at + (fixed - 8) as u64, limits)?;
    let config: Vec<u8> = match child(list.as_slice(), wanted) {
        None => Vec::new(),
        Some(body) => if !same(wanted, &ESDS) {
            slice_to_vec(body)
        } else if body.len() < 4 {
            Vec::new()
        } else {
            // An `esds` is a FullBox, and what a caller wants out of it is
            // the descriptor chain, not the version and flags.
            let chain = slice_subrange(body, 4, body.len());
            assert(chain@ =~= body@.skip(4));
            slice_to_vec(chain)
        },
    };
    assert(config@ =~= config_spec(kids_of(list@), *wanted));
    Ok(SampleEntry { kind, config, visual, audio })
}

/// The defaults a `trex` sets, or none when it is about another track.
pub open spec fn trex_spec(body: Seq<u8>, at: u64, track_id: u32) -> Result<Option<TrexDefaults>> {
    if body.len() < 4 {
        Err(full_box_lacking(at, 0, body.len()))
    } else if body.len() < 8 {
        Err(lacking(at, 4, 4))
    } else if be32(body, 4) != track_id {
        Ok(None)
    } else if body.len() < 12 {
        Err(lacking(at, 8, 4))
    } else if body.len() < 16 {
        Err(lacking(at, 12, 4))
    } else if body.len() < 20 {
        Err(lacking(at, 16, 4))
    } else if body.len() < 24 {
        Err(lacking(at, 20, 4))
    } else {
        Ok(
            Some(
                TrexDefaults {
                    duration: be32(body, 12),
                    size: be32(body, 16),
                    flags: be32(body, 20),
                },
            ),
        )
    }
}

/// The defaults of a track among the children of an `mvex`.
pub open spec fn trex_among(list: Seq<Kid>, track_id: u32) -> Result<TrexDefaults>
    decreases list.len(),
{
    if list.len() == 0 {
        Ok(TrexDefaults::absent())
    } else if list[0].kind != TREX {
        trex_among(list.drop_first(), track_id)
    } else {
        match trex_spec(list[0].body, list[0].at, track_id) {
            Err(err) => Err(err),
            Ok(Some(defaults)) => Ok(defaults),
            Ok(None) => trex_among(list.drop_first(), track_id),
        }
    }
}

/// The defaults a `moov` sets for a track's fragments.
pub open spec fn defaults_spec(moov: Seq<Kid>, track_id: u32, limits: Limits) -> Result<
    TrexDefaults,
> {
    match first_of(moov, MVEX) {
        None => Ok(TrexDefaults::absent()),
        Some(mvex) => match children_spec(mvex.body, mvex.at, limits.max_children) {
            Err(err) => Err(err),
            Ok(list) => trex_among(list, track_id),
        },
    }
}

fn trex(body: &[u8], at: u64, track_id: u32) -> (defaults: Result<Option<TrexDefaults>>)
    requires
        at + body.len() <= u64::MAX,
    ensures
        defaults == trex_spec(body@, at, track_id),
{
    let mut bytes = Bytes::at(body, at);
    bytes.full_box()?;
    if bytes.u32()? != track_id {
        return Ok(None);
    }
    bytes.skip(4)?;
    let duration: u32 = bytes.u32()?;
    let size: u32 = bytes.u32()?;
    let flags: u32 = bytes.u32()?;
    Ok(Some(TrexDefaults { duration, size, flags }))
}

/// The defaults a `moov` sets for a track's fragments (§8.8.3).
pub fn trex_of(moov: &[Child<'_>], track_id: u32, limits: &Limits) -> (defaults: Result<
    TrexDefaults,
>)
    requires
        all_fit(moov@),
    ensures
        settled(defaults),
        defaults == defaults_spec(kids_of(moov@), track_id, *limits),
{
    let mvex = match child_of(moov, &MVEX) {
        Some(mvex) => mvex,
        None => return Ok(TrexDefaults::default()),
    };
    let inner = kids(mvex.body, mvex.at, limits)?;
    let ghost list = kids_of(inner@);
    assert(list.skip(0) =~= list);
    let mut index: usize = 0;
    while index < inner.len()
        invariant
            index <= inner@.len(),
            list == kids_of(inner@),
            all_fit(inner@),
            defaults_spec(kids_of(moov@), track_id, *limits) == trex_among(
                list.skip(index as int),
                track_id,
            ),
        decreases inner@.len() - index,
    {
        let entry = inner[index];
        assert(list.skip(index as int)[0] == entry@);
        assert(list.skip(index as int).drop_first() =~= list.skip(index + 1));
        if entry.is(&TREX) {
            match trex(entry.body, entry.at, track_id)? {
                Some(defaults) => return Ok(defaults),
                None => {},
            }
        }
        index = index + 1;
    }
    Ok(TrexDefaults::default())
}

/// The children of a child, each at its own place in the file.
pub open spec fn inside(kid: Kid, limits: Limits) -> Result<Seq<Kid>> {
    children_spec(kid.body, kid.at, limits.max_children)
}

/// The timescale and the handler an `mdia` declares.
pub open spec fn media_spec(mdia: Seq<Kid>) -> Result<(u32, Handler)> {
    match first_of(mdia, MDHD) {
        None => Err(Error::format("a track with no mdhd")),
        Some(mdhd) => match mdhd_spec(mdhd.body, mdhd.at) {
            Err(err) => Err(err),
            Ok(timescale) => match first_of(mdia, HDLR) {
                None => Ok((timescale, Handler::Other([0, 0, 0, 0]))),
                Some(hdlr) => match handler_spec(hdlr.body, hdlr.at) {
                    Err(err) => Err(err),
                    Ok(handler) => Ok((timescale, handler)),
                },
            },
        },
    }
}

/// A `track_ID`; a track that has no `tkhd` is the first.
pub open spec fn track_id_spec(trak: Seq<Kid>) -> Result<u32> {
    match first_of(trak, TKHD) {
        None => Ok(1),
        Some(tkhd) => after_times_spec(tkhd.body, tkhd.at),
    }
}

/// What the edit list of a track amounts to, where it has one.
pub open spec fn track_edit_spec(
    trak: Seq<Kid>,
    movie_timescale: u32,
    timescale: u32,
    limits: Limits,
) -> Result<Edit> {
    match first_of(trak, EDTS) {
        None => Ok(Edit::absent()),
        Some(edts) => match inside(edts, limits) {
            Err(err) => Err(err),
            Ok(list) => match first_of(list, ELST) {
                None => Ok(Edit::absent()),
                Some(elst) => edit_spec(elst.body, elst.at, movie_timescale, timescale),
            },
        },
    }
}

/// The children of the `stbl` of a track.
pub open spec fn stbl_of_spec(mdia: Seq<Kid>, limits: Limits) -> Result<Seq<Kid>> {
    match first_of(mdia, MINF) {
        None => Err(Error::format("a track with no minf")),
        Some(minf) => match inside(minf, limits) {
            Err(err) => Err(err),
            Ok(list) => match first_of(list, STBL) {
                None => Err(Error::format("a track with no stbl")),
                Some(stbl) => inside(stbl, limits),
            },
        },
    }
}

/// The coding of a track's samples, and the samples themselves.
pub open spec fn content_spec(stbl: Seq<Kid>, limits: Limits) -> Result<(Coding, Seq<Sample>)> {
    match first_of(stbl, STSD) {
        None => Err(Error::format("a track with no stsd")),
        Some(stsd) => match sample_entry_spec(stsd.body, stsd.at, limits) {
            Err(err) => Err(err),
            Ok(entry) => match stbl_spec(stbl, limits) {
                Err(err) => Err(err),
                Ok(samples) => Ok((entry, samples)),
            },
        },
    }
}

/// What a `trak` with an `mdia` describes.
pub open spec fn described(
    trak: Seq<Kid>,
    mdia: Seq<Kid>,
    movie_timescale: u32,
    moov: Seq<Kid>,
    limits: Limits,
) -> Result<Reel> {
    match media_spec(mdia) {
        Err(err) => Err(err),
        Ok((timescale, handler)) => match track_id_spec(trak) {
            Err(err) => Err(err),
            Ok(track_id) => match track_edit_spec(trak, movie_timescale, timescale, limits) {
                Err(err) => Err(err),
                Ok(edit) => match stbl_of_spec(mdia, limits) {
                    Err(err) => Err(err),
                    Ok(stbl) => match content_spec(stbl, limits) {
                        Err(err) => Err(err),
                        Ok((entry, samples)) => match defaults_spec(moov, track_id, limits) {
                            Err(err) => Err(err),
                            Ok(defaults) => Ok(
                                Reel {
                                    track_id,
                                    handler,
                                    timescale,
                                    movie_timescale,
                                    entry,
                                    defaults,
                                    edit,
                                    samples,
                                    start_shift: 0,
                                },
                            ),
                        },
                    },
                },
            },
        },
    }
}

/// The children of a `trak`'s `mdia`, where it has one.
pub open spec fn mdia_spec(trak: Seq<Kid>, limits: Limits) -> Result<Option<Seq<Kid>>> {
    match first_of(trak, MDIA) {
        None => Ok(None),
        Some(mdia) => match inside(mdia, limits) {
            Err(err) => Err(err),
            Ok(list) => Ok(Some(list)),
        },
    }
}

/// The track a `trak` describes; none, where it has no media.
pub open spec fn trak_spec(
    entry: Kid,
    movie_timescale: u32,
    moov: Seq<Kid>,
    limits: Limits,
) -> Result<Option<Reel>> {
    match children_spec(entry.body, entry.at, limits.max_children) {
        Err(err) => Err(err),
        Ok(trak) => match mdia_spec(trak, limits) {
            Err(err) => Err(err),
            Ok(None) => Ok(None),
            Ok(Some(mdia)) => match described(trak, mdia, movie_timescale, moov, limits) {
                Err(err) => Err(err),
                Ok(reel) => Ok(Some(reel)),
            },
        },
    }
}

/// Whether `err` is what the allocator's refusal of a `trak` comes to: of its
/// sample tables, everything that is read before them having been read.
pub open spec fn trak_no_room(
    entry: Kid,
    movie_timescale: u32,
    limits: Limits,
    err: Error,
) -> bool {
    &&& children_spec(entry.body, entry.at, limits.max_children) matches Ok(trak)
    &&& mdia_spec(trak, limits) matches Ok(Some(mdia))
    &&& media_spec(mdia) matches Ok((timescale, _))
    &&& track_id_spec(trak) is Ok
    &&& track_edit_spec(trak, movie_timescale, timescale, limits) is Ok
    &&& stbl_of_spec(mdia, limits) matches Ok(stbl)
    &&& first_of(stbl, STSD) matches Some(stsd)
    &&& sample_entry_spec(stsd.body, stsd.at, limits) is Ok
    &&& stbl_no_room(stbl, limits, err)
}

/// A track that was read, by what it holds.
pub open spec fn track_seen(track: Result<Track>) -> Result<Reel> {
    match track {
        Ok(track) => Ok(track@),
        Err(err) => Err(err),
    }
}

fn stbl_of<'a>(mdia: &[Child<'a>], limits: &Limits) -> (stbl: Result<Vec<Child<'a>>>)
    requires
        all_fit(mdia@),
    ensures
        stbl matches Ok(stbl) ==> all_fit(stbl@),
        settled(stbl),
        match stbl {
            Ok(stbl) => stbl_of_spec(kids_of(mdia@), *limits) == Ok::<_, Error>(kids_of(stbl@)),
            Err(err) => stbl_of_spec(kids_of(mdia@), *limits) == Err::<Seq<Kid>, Error>(err),
        },
{
    let minf = match child_of(mdia, &MINF) {
        Some(item) => kids(item.body, item.at, limits)?,
        None => return Err(Error::format("a track with no minf")),
    };
    match child_of(minf.as_slice(), &STBL) {
        Some(item) => kids(item.body, item.at, limits),
        None => Err(Error::format("a track with no stbl")),
    }
}

fn track_edit(
    trak: &[Child<'_>],
    movie_timescale: u32,
    timescale: u32,
    limits: &Limits,
) -> (edit: Result<Edit>)
    requires
        all_fit(trak@),
    ensures
        settled(edit),
        edit == track_edit_spec(kids_of(trak@), movie_timescale, timescale, *limits),
{
    match child_of(trak, &EDTS) {
        None => Ok(Edit::default()),
        Some(edts) => {
            let list = kids(edts.body, edts.at, limits)?;
            match child_of(list.as_slice(), &ELST) {
                Some(elst) => edit_of(elst.body, elst.at, movie_timescale, timescale),
                None => Ok(Edit::default()),
            }
        },
    }
}

/// The track a `trak` describes; none, where it has no media.
pub fn read_trak(
    entry: &Child<'_>,
    movie_timescale: u32,
    moov: &[Child<'_>],
    limits: &Limits,
) -> (track: Result<Option<Track>>)
    requires
        entry.at + entry.body.len() <= u64::MAX,
        all_fit(moov@),
    ensures
        settled(track),
        ({
            let owed = trak_spec(entry@, movie_timescale, kids_of(moov@), *limits);
            match track {
                Ok(Some(track)) => owed == Ok::<_, Error>(Some(track@)),
                Ok(None) => owed == Ok::<Option<Reel>, Error>(None),
                Err(err) => owed == Err::<Option<Reel>, Error>(err) || trak_no_room(
                    entry@,
                    movie_timescale,
                    *limits,
                    err,
                ),
            }
        }),
{
    let trak = kids(entry.body, entry.at, limits)?;
    let mdia = match child_of(trak.as_slice(), &MDIA) {
        Some(item) => kids(item.body, item.at, limits)?,
        None => return Ok(None),
    };
    let timescale: u32 = match child_of(mdia.as_slice(), &MDHD) {
        Some(mdhd) => mdhd_timescale(mdhd.body, mdhd.at)?,
        None => return Err(Error::format("a track with no mdhd")),
    };
    let handler: Handler = match child_of(mdia.as_slice(), &HDLR) {
        Some(item) => handler_of(item.body, item.at)?,
        None => Handler::Other([0, 0, 0, 0]),
    };
    let track_id: u32 = match child_of(trak.as_slice(), &TKHD) {
        Some(item) => tkhd_track_id(item.body, item.at)?,
        None => 1,
    };
    let edit: Edit = track_edit(trak.as_slice(), movie_timescale, timescale, limits)?;
    let stbl = stbl_of(mdia.as_slice(), limits)?;
    let coded: SampleEntry = match child_of(stbl.as_slice(), &STSD) {
        Some(stsd) => sample_entry(stsd.body, stsd.at, limits)?,
        None => return Err(Error::format("a track with no stsd")),
    };
    let samples: Vec<Sample> = samples_of_stbl(stbl.as_slice(), limits)?;
    let defaults: TrexDefaults = trex_of(moov, track_id, limits)?;
    Ok(
        Some(
            Track {
                track_id,
                handler,
                timescale,
                movie_timescale,
                entry: coded,
                defaults,
                edit,
                samples,
                start_shift: 0,
            },
        ),
    )
}

// ------------------------------------------------------------------ //
// The edit list, applied.
// ------------------------------------------------------------------ //
/// The composition time of the first sample at or after a media time, or the
/// media time itself where there is no such sample.
pub open spec fn first_kept(samples: Seq<Sample>, media_time: i64) -> i64
    decreases samples.len(),
{
    if samples.len() == 0 {
        media_time
    } else if samples[0].pts >= media_time {
        samples[0].pts
    } else {
        first_kept(samples.drop_first(), media_time)
    }
}

/// Where the file's zero is: the first sample the edit list keeps, which for
/// a file with no edit list is composition time zero.
pub open spec fn zero_of(samples: Seq<Sample>, edit: Edit) -> i64 {
    match edit.media_time {
        None => 0,
        Some(media_time) => first_kept(samples, media_time),
    }
}

/// Samples moved in time and numbered from zero.
pub open spec fn moved_by(samples: Seq<Sample>, shift: i64) -> Seq<Sample> {
    Seq::new(
        samples.len(),
        |i: int|
            Sample {
                index: (i % 0x1_0000_0000) as u32,
                pts: clamp64(samples[i].pts + shift),
                dts: clamp64(samples[i].dts + shift),
                ..samples[i]
            },
    )
}

/// A track with its edit list applied.
pub open spec fn edited(track: Reel) -> Reel {
    let shift = clamp64(track.edit.empty - zero_of(track.samples, track.edit));
    Reel { samples: moved_by(track.samples, shift), start_shift: shift, ..track }
}

fn zero(samples: &[Sample], edit: &Edit) -> (at: i64)
    ensures
        at == zero_of(samples@, *edit),
{
    match edit.media_time {
        None => 0,
        Some(media_time) => {
            let mut index: usize = 0;
            assert(samples@.skip(0) =~= samples@);
            while index < samples.len()
                invariant
                    index <= samples@.len(),
                    edit.media_time == Some(media_time),
                    first_kept(samples@, media_time) == first_kept(
                        samples@.skip(index as int),
                        media_time,
                    ),
                decreases samples@.len() - index,
            {
                assert(samples@.skip(index as int).drop_first() =~= samples@.skip(index + 1));
                if samples[index].pts >= media_time {
                    return samples[index].pts;
                }
                index = index + 1;
            }
            media_time
        },
    }
}

/// The edit list, over whatever samples the track ended up with.
pub fn apply_edit(track: &mut Track)
    ensures
        final(track)@ == edited(old(track)@),
{
    let at: i64 = zero(track.samples.as_slice(), &track.edit);
    let shift: i64 = minus(track.edit.empty, at);
    let ghost before = track.samples@;
    let mut index: usize = 0;
    while index < track.samples.len()
        invariant
            index <= track.samples@.len(),
            track.samples@.len() == before.len(),
            before == old(track).samples@,
            *track == (Track { samples: track.samples, ..*old(track) }),
            forall|i: int| 0 <= i < index ==> #[trigger] track.samples@[i] == moved_by(
                before,
                shift,
            )[i],
            forall|i: int| index <= i < before.len() ==> track.samples@[i] == before[i],
        decreases before.len() - index,
    {
        let sample: Sample = track.samples[index];
        let number: u32 = (index as u64 % 0x1_0000_0000) as u32;
        track.samples.set(
            index,
            Sample {
                index: number,
                pts: plus(sample.pts, shift),
                dts: plus(sample.dts, shift),
                ..sample
            },
        );
        index = index + 1;
    }
    assert(track.samples@ =~= moved_by(before, shift));
    track.start_shift = shift;
}

// ------------------------------------------------------------------ //
// A track as a whole.
// ------------------------------------------------------------------ //
/// A list of tracks by what they hold.
pub open spec fn reels_of(list: Seq<Track>) -> Seq<Reel> {
    Seq::new(list.len(), |i: int| list[i]@)
}

/// Tracks that were read, by what they hold.
pub open spec fn reels_seen(list: Result<Vec<Track>>) -> Result<Seq<Reel>> {
    match list {
        Ok(list) => Ok(reels_of(list@)),
        Err(err) => Err(err),
    }
}

/// The tracks among some of the children of a `moov`.
pub open spec fn traks_among(
    list: Seq<Kid>,
    movie_timescale: u32,
    moov: Seq<Kid>,
    limits: Limits,
) -> Result<Seq<Reel>>
    decreases list.len(),
{
    if list.len() == 0 {
        Ok(Seq::empty())
    } else if list[0].kind != TRAK {
        traks_among(list.drop_first(), movie_timescale, moov, limits)
    } else {
        match trak_spec(list[0], movie_timescale, moov, limits) {
            Err(err) => Err(err),
            Ok(None) => traks_among(list.drop_first(), movie_timescale, moov, limits),
            Ok(Some(reel)) => joined(
                seq![reel],
                traks_among(list.drop_first(), movie_timescale, moov, limits),
            ),
        }
    }
}

/// The movie timescale of a `moov`. It only ever scales an edit list's
/// durations, so a default stands in where there is none.
pub open spec fn movie_timescale_spec(moov: Seq<Kid>) -> Result<u32> {
    match first_of(moov, MVHD) {
        None => Ok(1000),
        Some(mvhd) => mvhd_spec(mvhd.body, mvhd.at),
    }
}

/// Every track a `moov` body describes.
pub open spec fn all_spec(moov: Seq<u8>, at: u64, limits: Limits) -> Result<Seq<Reel>> {
    match children_spec(moov, at, limits.max_children) {
        Err(err) => Err(err),
        Ok(list) => match movie_timescale_spec(list) {
            Err(err) => Err(err),
            Ok(movie_timescale) => traks_among(list, movie_timescale, list, limits),
        },
    }
}

/// Whether `err` is what the allocator's refusal of one of the tracks among
/// some of the children of a `moov` comes to, those before it having been
/// read.
pub open spec fn traks_no_room(
    list: Seq<Kid>,
    movie_timescale: u32,
    moov: Seq<Kid>,
    limits: Limits,
    err: Error,
) -> bool
    decreases list.len(),
{
    if list.len() == 0 {
        false
    } else if list[0].kind != TRAK {
        traks_no_room(list.drop_first(), movie_timescale, moov, limits, err)
    } else {
        ||| trak_no_room(list[0], movie_timescale, limits, err)
        ||| trak_spec(list[0], movie_timescale, moov, limits) is Ok && traks_no_room(
            list.drop_first(),
            movie_timescale,
            moov,
            limits,
            err,
        )
    }
}

/// Whether `err` is what the allocator's refusal of a `moov` comes to.
pub open spec fn moov_no_room(moov: Seq<u8>, at: u64, limits: Limits, err: Error) -> bool {
    &&& children_spec(moov, at, limits.max_children) matches Ok(list)
    &&& movie_timescale_spec(list) matches Ok(movie_timescale)
    &&& traks_no_room(list, movie_timescale, list, limits, err)
}

/// The `moov` of an init segment, at its place in it.
pub open spec fn moov_of(init: Seq<u8>) -> Result<Option<Kid>> {
    match children_spec(init, 0, MAX_CHILDREN) {
        Err(err) => Err(err),
        Ok(list) => Ok(first_of(list, MOOV)),
    }
}

/// The one track of an init segment.
pub open spec fn from_init_spec(init: Seq<u8>, limits: Limits) -> Result<Reel> {
    match moov_of(init) {
        Err(err) => Err(err),
        Ok(None) => Err(Error::format("the init segment carries no moov")),
        Ok(Some(moov)) => match all_spec(moov.body, moov.at, limits) {
            Err(err) => Err(err),
            Ok(list) => if list.len() == 1 {
                Ok(list[0])
            } else if list.len() == 0 {
                Err(Error::format("the moov carries no trak"))
            } else {
                Err(
                    Error::unsupported(
                        "the init segment carries several tracks, and this call is for one",
                    ),
                )
            },
        },
    }
}

/// Whether `err` is what the allocator's refusal of an init segment comes to.
pub open spec fn init_no_room(init: Seq<u8>, limits: Limits, err: Error) -> bool {
    moov_of(init) matches Ok(Some(moov)) && moov_no_room(moov.body, moov.at, limits, err)
}

/// The tracks among the children of a `moov`.
#[verifier::rlimit(40)]
fn traks_of(moov: &[Child<'_>], movie_timescale: u32, limits: &Limits) -> (tracks: Result<
    Vec<Track>,
>)
    requires
        all_fit(moov@),
    ensures
        settled(tracks),
        reels_seen(tracks) == traks_among(
            kids_of(moov@),
            movie_timescale,
            kids_of(moov@),
            *limits,
        ) || (tracks matches Err(err) && traks_no_room(
            kids_of(moov@),
            movie_timescale,
            kids_of(moov@),
            *limits,
            err,
        )),
{
    let mut out: Vec<Track> = Vec::new();
    let mut index: usize = 0;
    let ghost list = kids_of(moov@);
    let ghost owed = traks_among(list, movie_timescale, list, *limits);
    proof {
        assert(list.skip(0) =~= list);
        if let Ok(rest) = owed {
            assert(reels_of(out@) + rest =~= rest);
        }
    }
    while index < moov.len()
        invariant
            index <= moov@.len(),
            list == kids_of(moov@),
            all_fit(moov@),
            owed == traks_among(list, movie_timescale, list, *limits),
            owed == joined(
                reels_of(out@),
                traks_among(list.skip(index as int), movie_timescale, list, *limits),
            ),
            forall|err: Error| #[trigger]
                traks_no_room(list.skip(index as int), movie_timescale, list, *limits, err)
                    ==> traks_no_room(list, movie_timescale, list, *limits, err),
        decreases moov@.len() - index,
    {
        let entry = moov[index];
        let ghost rest = list.skip(index as int);
        assert(rest[0] == entry@);
        assert(list[index as int] == entry@);
        assert(rest.drop_first() =~= list.skip(index + 1));
        if entry.is(&TRAK) {
            match read_trak(&entry, movie_timescale, moov, limits) {
                Err(err) => {
                    assert(trak_no_room(entry@, movie_timescale, *limits, err) ==> traks_no_room(
                        rest,
                        movie_timescale,
                        list,
                        *limits,
                        err,
                    ));
                    return Err(err);
                },
                Ok(Some(track)) => {
                    let ghost before = reels_of(out@);
                    out.push(track);
                    proof {
                        assert(reels_of(out@) =~= before.push(track@));
                        if let Ok(more) = traks_among(
                            list.skip(index + 1),
                            movie_timescale,
                            list,
                            *limits,
                        ) {
                            assert(before + (seq![track@] + more) =~= reels_of(out@) + more);
                        }
                    }
                },
                Ok(None) => {},
            }
        }
        proof {
            assert forall|err: Error| #[trigger]
                traks_no_room(
                    list.skip(index + 1),
                    movie_timescale,
                    list,
                    *limits,
                    err,
                ) implies traks_no_room(list, movie_timescale, list, *limits, err) by {
                assert(traks_no_room(rest, movie_timescale, list, *limits, err));
            }
        }
        index = index + 1;
    }
    assert(reels_of(out@) + Seq::<Reel>::empty() =~= reels_of(out@));
    Ok(out)
}

/// The decode time after the last of some samples.
pub open spec fn next_dts_spec(samples: Seq<Sample>) -> i64 {
    if samples.len() == 0 {
        0
    } else {
        clamp64(samples.last().dts + samples.last().duration)
    }
}

impl Track {
    /// A track assembled from parts rather than parsed out of boxes.
    ///
    /// Every field of [`Track`] is public, so a struct literal would work
    /// too; this exists so that a caller need not name the fields that only
    /// an ISO file has, and so that adding one later is not a breaking
    /// change. It is what a reader of **another container** uses to hand
    /// back the same type an MP4 read produces, which is what lets one
    /// sample-reading routine serve both.
    ///
    /// The fields it does not take are left at the values that mean "the
    /// file said nothing": `track_id` 1, `movie_timescale`
    /// [`DEFAULT_MOVIE_TIMESCALE`], an [`Edit`] with no entries,
    /// [`TrexDefaults`] all zero, and `start_shift` 0. Set any of them
    /// afterwards, or use [`with_track_id`](Self::with_track_id) and
    /// [`with_start_shift`](Self::with_start_shift).
    ///
    /// # What the caller is promising
    ///
    /// - `samples` is in **decode order**. `index` is renumbered here from
    ///   zero, so the caller does not have to get that right.
    /// - Each sample's `offset` and `size` are **absolute in whatever byte
    ///   source the samples will be read from**, the same source a
    ///   [`Source`] will be opened on. They are not relative to a cluster, a
    ///   block or a fragment.
    /// - `dts`, `pts` and `duration` are in **`timescale` ticks**, with any
    ///   shift the container applies already applied, so that
    ///   [`ms`](Self::ms) prints what a player shows. `start_shift` records
    ///   what that shift was, for a caller that wants to say why; nothing in
    ///   this crate subtracts it again.
    /// - `keyframe` is true exactly where a decoder may start.
    /// - `duration` may be 0 where the container did not say. Nothing here
    ///   divides by it.
    ///
    /// A `timescale` of 0 is taken as 1, because dividing by it is worse
    /// than not.
    pub fn from_parts(
        handler: Handler,
        timescale: u32,
        entry: SampleEntry,
        samples: Vec<Sample>,
    ) -> (track: Track)
        ensures
            track@ == (Reel {
                track_id: 1,
                handler,
                timescale: if timescale == 0 {
                    1
                } else {
                    timescale
                },
                movie_timescale: DEFAULT_MOVIE_TIMESCALE,
                entry: entry@,
                defaults: TrexDefaults::absent(),
                edit: Edit::absent(),
                samples: numbered(samples@),
                start_shift: 0,
            }),
    {
        let mut samples = samples;
        number(&mut samples);
        Track {
            track_id: 1,
            handler,
            timescale: if timescale == 0 {
                1
            } else {
                timescale
            },
            movie_timescale: DEFAULT_MOVIE_TIMESCALE,
            entry,
            defaults: TrexDefaults::default(),
            edit: Edit::default(),
            samples,
            start_shift: 0,
        }
    }

    /// The `track_ID` this track answers to, which is what
    /// [`fragment_samples`](Self::fragment_samples) matches a `traf`
    /// against.
    pub fn with_track_id(self, track_id: u32) -> (track: Self)
        ensures
            track@ == (Reel { track_id, ..self@ }),
    {
        let mut track = self;
        track.track_id = track_id;
        track
    }

    /// What a container's own start offset moved every time by, for a caller
    /// that wants to report it. The sample times are expected to have it in
    /// them already.
    pub fn with_start_shift(self, start_shift: i64) -> (track: Self)
        ensures
            track@ == (Reel { start_shift, ..self@ }),
    {
        let mut track = self;
        track.start_shift = start_shift;
        track
    }

    /// A tick count of this track's timescale, as milliseconds.
    pub fn ms(&self, ticks: i64) -> (out: i64)
        ensures
            out == ms_spec(ticks, self@.timescale),
    {
        ms(ticks, self.timescale)
    }

    /// The decode time after the last sample, which is where a fragment that
    /// states no `tfdt` of its own carries on from.
    ///
    /// Derived rather than stored: it is the last sample's `dts` plus its
    /// `duration`, and zero for a track with no samples. For a track read
    /// out of a `moov` that is exactly what the `stts` deltas add up to.
    pub fn next_dts(&self) -> (dts: i64)
        ensures
            dts == next_dts_spec(self@.samples),
    {
        if self.samples.len() == 0 {
            return 0;
        }
        let last: Sample = self.samples[self.samples.len() - 1];
        plus(last.dts, last.duration)
    }

    pub fn is_video(&self) -> (is: bool)
        ensures
            is == (self@.handler == Handler::Video),
    {
        matches!(self.handler, Handler::Video)
    }

    pub fn is_audio(&self) -> (is: bool)
        ensures
            is == (self@.handler == Handler::Audio),
    {
        matches!(self.handler, Handler::Audio)
    }

    /// Every track a `moov` body describes, with the default limits.
    pub fn all(moov: &[u8]) -> (list: Result<Vec<Track>>)
        ensures
            settled(list),
            reels_seen(list) == all_spec(moov@, 0, Limits::usual()) || (list matches Err(err)
                && moov_no_room(moov@, 0, Limits::usual(), err)),
    {
        Self::all_bounded(moov, 0, &Limits::default())
    }

    /// The same, placed in the file and bounded by a caller's limits.
    pub fn all_bounded(moov: &[u8], at: u64, limits: &Limits) -> (list: Result<Vec<Track>>)
        requires
            at + moov.len() <= u64::MAX,
        ensures
            settled(list),
            reels_seen(list) == all_spec(moov@, at, *limits) || (list matches Err(err)
                && moov_no_room(moov@, at, *limits, err)),
    {
        let top = kids(moov, at, limits)?;
        let movie_timescale: u32 = match child_of(top.as_slice(), &MVHD) {
            // A movie timescale of zero says nothing, and it only ever
            // scales an edit list's durations, so the default stands in
            // rather than the file being refused for it.
            Some(item) => mvhd_timescale(item.body, item.at)?,
            None => 1000,
        };
        traks_of(top.as_slice(), movie_timescale, limits)
    }

    /// The one track of an init segment: the `ftyp`+`moov` a decoder reads
    /// before any fragment.
    ///
    /// An init segment with several tracks is refused by name rather than
    /// having one of them picked silently.
    pub fn from_init(init: &[u8]) -> (track: Result<Track>)
        ensures
            settled(track),
            track_seen(track) == from_init_spec(init@, Limits::usual()) || (track matches Err(err)
                && init_no_room(init@, Limits::usual(), err)),
    {
        Self::from_init_bounded(init, &Limits::default())
    }

    /// The same, bounded by a caller's limits.
    pub fn from_init_bounded(init: &[u8], limits: &Limits) -> (track: Result<Track>)
        ensures
            settled(track),
            track_seen(track) == from_init_spec(init@, *limits) || (track matches Err(err)
                && init_no_room(init@, *limits, err)),
    {
        let len: usize = init.len();
        let top = children(init, 0)?;
        let moov = match child_of(top.as_slice(), &MOOV) {
            Some(moov) => moov,
            None => return Err(Error::format("the init segment carries no moov")),
        };
        let mut tracks = Track::all_bounded(moov.body, moov.at, limits)?;
        if tracks.len() == 1 {
            assert(reels_of(tracks@)[0] == tracks@[0]@);
            Ok(tracks.remove(0))
        } else if tracks.len() == 0 {
            Err(Error::format("the moov carries no trak"))
        } else {
            Err(
                Error::unsupported(
                    "the init segment carries several tracks, and this call is for one",
                ),
            )
        }
    }

    /// The samples of one complete `moof`+`mdat` fragment, in decode order,
    /// with `offset` counted from the first byte of `fragment`.
    ///
    /// See [`crate::fragment`] for how a sample's position is worked out,
    /// which is the part of §8.8.7 implementations disagree about.
    ///
    /// This reads the `moof` against this track's `track_id` and `defaults`,
    /// and nothing else about the track is consulted. On a track from
    /// [`from_parts`](Self::from_parts) that means `track_id` 1 and no
    /// `trex` defaults, so a `moof` naming another track comes back empty
    /// and one that relies on `trex` defaults reads them as zero. A track
    /// that was not built from an ISO init segment is not going to be handed
    /// ISO fragments, and this says what happens rather than refusing.
    pub fn fragment_samples(&self, fragment: &[u8]) -> (samples: Result<Vec<Sample>>)
        ensures
            settled(samples),
            seen(samples) == fragment_spec(fragment@, 0, self@.track_id, self@.defaults) || (seen(
                samples,
            ) == Err::<Seq<Sample>, Error>(no_room()) && fragment_no_room(
                fragment@,
                0,
                self@.track_id,
                self@.defaults,
            )),
    {
        let len: usize = fragment.len();
        self.fragment_samples_at(fragment, 0)
    }

    /// The same, for a fragment whose first byte sits at `at` in the stream
    /// it was cut from, so that an explicit `base_data_offset` resolves to
    /// the offsets the rest of the stream uses.
    pub fn fragment_samples_at(&self, fragment: &[u8], at: u64) -> (samples: Result<Vec<Sample>>)
        requires
            at + fragment.len() <= u64::MAX,
        ensures
            settled(samples),
            seen(samples) == fragment_spec(fragment@, at, self@.track_id, self@.defaults) || (seen(
                samples,
            ) == Err::<Seq<Sample>, Error>(no_room()) && fragment_no_room(
                fragment@,
                at,
                self@.track_id,
                self@.defaults,
            )),
    {
        samples_of_fragment(fragment, at, self)
    }
}

// ------------------------------------------------------------------ //
// A track of a file.
// ------------------------------------------------------------------ //
/// Which track a read is after.
#[derive(Clone, Copy, Debug, PartialEq, Eq)]
pub enum Pick {
    /// The first track whose handler is `vide`.
    Video,
    /// The first track whose handler is `soun`.
    Audio,
    /// The track with this `track_ID`.
    Id(u32),
    /// Whichever track comes first.
    First,
}

impl Pick {
    pub open spec fn wants_spec(self, track: Reel) -> bool {
        match self {
            Pick::Video => track.handler == Handler::Video,
            Pick::Audio => track.handler == Handler::Audio,
            Pick::Id(id) => track.track_id == id,
            Pick::First => true,
        }
    }

    pub fn wants(&self, track: &Track) -> (wants: bool)
        ensures
            wants == self.wants_spec(track@),
    {
        match self {
            Pick::Video => track.is_video(),
            Pick::Audio => track.is_audio(),
            Pick::Id(id) => track.track_id == *id,
            Pick::First => true,
        }
    }
}

/// The first track a read is after.
pub open spec fn picked(list: Seq<Reel>, pick: Pick) -> Option<Reel>
    decreases list.len(),
{
    if list.len() == 0 {
        None
    } else if pick.wants_spec(list[0]) {
        Some(list[0])
    } else {
        picked(list.drop_first(), pick)
    }
}

/// The first track a read is after.
fn pick_from(all: Vec<Track>, pick: Pick) -> (track: Option<Track>)
    ensures
        match track {
            Some(track) => picked(reels_of(all@), pick) == Some(track@),
            None => picked(reels_of(all@), pick) is None,
        },
{
    let mut tracks = all;
    let ghost list = reels_of(tracks@);
    let mut index: usize = 0;
    assert(list.skip(0) =~= list);
    while index < tracks.len()
        invariant
            index <= tracks@.len(),
            tracks@ == all@,
            list == reels_of(all@),
            picked(list, pick) == picked(list.skip(index as int), pick),
        decreases tracks@.len() - index,
    {
        assert(list.skip(index as int)[0] == list[index as int]);
        assert(list.skip(index as int).drop_first() =~= list.skip(index + 1));
        if pick.wants(&tracks[index]) {
            return Some(tracks.remove(index));
        }
        index = index + 1;
    }
    None
}

/// The first box of a kind.
pub open spec fn first_span(list: Seq<BoxSpan>, kind: [u8; 4]) -> Option<BoxSpan>
    decreases list.len(),
{
    if list.len() == 0 {
        None
    } else if list[0].kind == kind {
        Some(list[0])
    } else {
        first_span(list.drop_first(), kind)
    }
}

/// The first box of a kind.
fn span_of_kind(list: &[BoxSpan], kind: &[u8; 4]) -> (span: Option<BoxSpan>)
    ensures
        span == first_span(list@, *kind),
        span matches Some(span) ==> exists|i: int|
            0 <= i < list@.len() && #[trigger] list@[i] == span,
{
    let mut index: usize = 0;
    assert(list@.skip(0) =~= list@);
    while index < list.len()
        invariant
            index <= list@.len(),
            first_span(list@, *kind) == first_span(list@.skip(index as int), *kind),
        decreases list@.len() - index,
    {
        assert(list@.skip(index as int).drop_first() =~= list@.skip(index + 1));
        if list[index].is(kind) {
            return Some(list[index]);
        }
        index = index + 1;
    }
    None
}

/// The bytes of a box's body.
pub open spec fn body_spec(data: Seq<u8>, len: u64, limits: Limits, span: BoxSpan) -> Result<
    Seq<u8>,
> {
    span_spec(data, len, limits.max_read, span.body, span.body_len_spec())
}

/// The samples of a track, behind those it had, with what the movie
/// fragments among some of the boxes of a file add to them.
pub open spec fn fragments_after(
    data: Seq<u8>,
    len: u64,
    limits: Limits,
    list: Seq<BoxSpan>,
    track_id: u32,
    defaults: TrexDefaults,
    samples: Seq<Sample>,
    clock: i64,
) -> Result<Seq<Sample>>
    decreases list.len(),
{
    if list.len() == 0 {
        Ok(samples)
    } else if list[0].kind != MOOF {
        fragments_after(data, len, limits, list.drop_first(), track_id, defaults, samples, clock)
    } else {
        match body_spec(data, len, limits, list[0]) {
            Err(err) => Err(err),
            Ok(body) => match moof_spec(
                body,
                list[0].start,
                list[0].body,
                Some(track_id),
                defaults,
                clock,
                limits,
            ) {
                Err(err) => Err(err),
                Ok(reach) => if samples.len() + reach.samples.len() > limits.max_samples {
                    Err(Error::format("more samples than this reader will hold"))
                } else {
                    fragments_after(
                        data,
                        len,
                        limits,
                        list.drop_first(),
                        track_id,
                        defaults,
                        samples + reach.samples,
                        reach.clock,
                    )
                },
            },
        }
    }
}

/// The track a read is after, out of the `moov` of a file.
pub open spec fn moov_track(
    data: Seq<u8>,
    len: u64,
    limits: Limits,
    top: Seq<BoxSpan>,
    pick: Pick,
) -> Result<Reel> {
    match first_span(top, MOOV) {
        None => Err(Error::format("the file has no moov box")),
        Some(moov) => match body_spec(data, len, limits, moov) {
            Err(err) => Err(err),
            Ok(body) => match all_spec(body, moov.body, limits) {
                Err(err) => Err(err),
                Ok(list) => match picked(list, pick) {
                    None => Err(
                        Error::unsupported(
                            "the file holds no track of the kind this read was after",
                        ),
                    ),
                    Some(track) => Ok(track),
                },
            },
        },
    }
}

/// One track of a file of `len` bytes, with every sample of it.
pub open spec fn read_spec(data: Seq<u8>, len: u64, limits: Limits, pick: Pick) -> Result<Reel> {
    match top_level_spec(data, len, limits) {
        Err(err) => Err(err),
        Ok(top) => match moov_track(data, len, limits, top, pick) {
            Err(err) => Err(err),
            Ok(track) => match fragments_after(
                data,
                len,
                limits,
                top,
                track.track_id,
                track.defaults,
                track.samples,
                next_dts_spec(track.samples),
            ) {
                Err(err) => Err(err),
                Ok(samples) => Ok(edited(Reel { samples, ..track })),
            },
        },
    }
}

/// Whether `err` is what the allocator's refusal of the `moov` of a file comes
/// to.
pub open spec fn moov_track_no_room(
    data: Seq<u8>,
    len: u64,
    limits: Limits,
    top: Seq<BoxSpan>,
    err: Error,
) -> bool {
    &&& first_span(top, MOOV) matches Some(moov)
    &&& body_spec(data, len, limits, moov) matches Ok(body)
    &&& moov_no_room(body, moov.body, limits, err)
}

/// Whether the allocator can refuse one of the movie fragments among some of
/// the boxes of a file, those before it having been read.
pub open spec fn fragments_no_room(
    data: Seq<u8>,
    len: u64,
    limits: Limits,
    list: Seq<BoxSpan>,
    track_id: u32,
    defaults: TrexDefaults,
    samples: Seq<Sample>,
    clock: i64,
) -> bool
    decreases list.len(),
{
    if list.len() == 0 {
        false
    } else if list[0].kind != MOOF {
        fragments_no_room(data, len, limits, list.drop_first(), track_id, defaults, samples, clock)
    } else {
        match body_spec(data, len, limits, list[0]) {
            Err(_) => false,
            Ok(body) => {
                let want = Some(track_id);
                let start = list[0].start;
                let body_at = list[0].body;
                ||| moof_no_room(body, start, body_at, want, defaults, clock, limits)
                ||| match moof_spec(body, start, body_at, want, defaults, clock, limits) {
                    Err(_) => false,
                    Ok(reach) => samples.len() + reach.samples.len() <= limits.max_samples
                        && fragments_no_room(
                        data,
                        len,
                        limits,
                        list.drop_first(),
                        track_id,
                        defaults,
                        samples + reach.samples,
                        reach.clock,
                    ),
                }
            },
        }
    }
}

/// Whether `err` is what the allocator's refusal of a file comes to: of its
/// `moov`, or, once the track a read is after has come out of that, of a movie
/// fragment.
pub open spec fn read_no_room(
    data: Seq<u8>,
    len: u64,
    limits: Limits,
    pick: Pick,
    err: Error,
) -> bool {
    &&& top_level_spec(data, len, limits) matches Ok(top)
    &&& {
        ||| moov_track_no_room(data, len, limits, top, err)
        ||| {
            &&& err == no_room()
            &&& moov_track(data, len, limits, top, pick) matches Ok(track)
            &&& fragments_no_room(
                data,
                len,
                limits,
                top,
                track.track_id,
                track.defaults,
                track.samples,
                next_dts_spec(track.samples),
            )
        }
    }
}

/// Whether boxes lie inside a file of `len` bytes.
pub open spec fn lie_inside(top: Seq<BoxSpan>, len: u64) -> bool {
    forall|i: int|
        0 <= i < top.len() ==> (#[trigger] top[i]).body <= top[i].end && top[i].end <= len
}

/// How many bytes the bodies of the movie fragments among some boxes are.
pub open spec fn moof_lens(top: Seq<BoxSpan>) -> int
    decreases top.len(),
{
    if top.len() == 0 {
        0
    } else if top[0].kind == MOOF {
        top[0].body_len_spec() + moof_lens(top.drop_first())
    } else {
        moof_lens(top.drop_first())
    }
}

/// What a read of a track may pull out of a file: a header a box, the body
/// of the first `moov`, and the bodies of the movie fragments. None of it is
/// a sample's.
pub open spec fn read_cost(top: Seq<BoxSpan>) -> int {
    16 * top.len() + moof_lens(top) + match first_span(top, MOOV) {
        Some(moov) => moov.body_len_spec() as int,
        None => 0,
    }
}

/// The track a read is after, out of the `moov` of a file.
fn read_moov<R: Input>(src: &mut Source<R>, top: &[BoxSpan], pick: Pick) -> (track: Result<Track>)
    requires
        old(src).wf(),
        lie_inside(top@, old(src).size()),
    ensures
        final(src).ended(old(src), track),
        track matches Err(Error::Io(_)) || track_seen(track) == moov_track(
            old(src).data(),
            old(src).size(),
            old(src).bounds(),
            top@,
            pick,
        ) || (track matches Err(err) && moov_track_no_room(
            old(src).data(),
            old(src).size(),
            old(src).bounds(),
            top@,
            err,
        )),
        track is Ok ==> (first_span(top@, MOOV) matches Some(moov) && cheap(
            final(src).cost(),
            old(src).cost(),
            moov.body_len_spec() as int,
            1,
        )),
{
    let limits: Limits = *src.limits();
    let moov = match span_of_kind(top, &MOOV) {
        Some(moov) => moov,
        None => return Err(Error::format("the file has no moov box")),
    };
    proof {
        lemma_first_span(top@, MOOV);
    }
    let body = src.span(moov.body, moov.body_len())?;
    let tracks = Track::all_bounded(body.as_slice(), moov.body, &limits)?;
    match pick_from(tracks, pick) {
        Some(track) => Ok(track),
        None => Err(
            Error::unsupported("the file holds no track of the kind this read was after"),
        ),
    }
}

proof fn lemma_first_span(list: Seq<BoxSpan>, kind: [u8; 4])
    ensures
        first_span(list, kind) matches Some(span) ==> span.kind == kind,
    decreases list.len(),
{
    if list.len() > 0 {
        lemma_first_span(list.drop_first(), kind);
    }
}

/// The samples of a track behind those it has, with what every movie
/// fragment of the file adds to them.
fn read_fragments<R: Input>(
    src: &mut Source<R>,
    top: &[BoxSpan],
    track_id: u32,
    defaults: &TrexDefaults,
    held: Vec<Sample>,
    start: i64,
) -> (samples: Result<Vec<Sample>>)
    requires
        old(src).wf(),
        lie_inside(top@, old(src).size()),
    ensures
        final(src).ended(old(src), samples),
        samples matches Err(Error::Io(_)) || seen(samples) == fragments_after(
            old(src).data(),
            old(src).size(),
            old(src).bounds(),
            top@,
            track_id,
            *defaults,
            held@,
            start,
        ) || (seen(samples) == Err::<Seq<Sample>, Error>(no_room()) && fragments_no_room(
            old(src).data(),
            old(src).size(),
            old(src).bounds(),
            top@,
            track_id,
            *defaults,
            held@,
            start,
        )),
        samples is Ok ==> cheap(
            final(src).cost(),
            old(src).cost(),
            moof_lens(top@),
            top@.len() as int,
        ),
{
    let limits: Limits = *src.limits();
    let ghost data = src.data();
    let ghost len = src.size();
    let ghost owed = fragments_after(
        data,
        len,
        limits,
        top@,
        track_id,
        *defaults,
        held@,
        start,
    );
    let mut samples: Vec<Sample> = held;
    let mut decode: i64 = start;
    let mut index: usize = 0;
    assert(top@.skip(0) =~= top@);
    while index < top.len()
        invariant
            index <= top@.len(),
            src.wf(),
            src.same_as(old(src)),
            cheap(
                src.cost(),
                old(src).cost(),
                moof_lens(top@) - moof_lens(top@.skip(index as int)),
                index as int,
            ),
            data == old(src).data(),
            len == old(src).size(),
            limits == old(src).bounds(),
            lie_inside(top@, len),
            owed == fragments_after(data, len, limits, top@, track_id, *defaults, held@, start),
            owed == fragments_after(
                data,
                len,
                limits,
                top@.skip(index as int),
                track_id,
                *defaults,
                samples@,
                decode,
            ),
            fragments_no_room(
                data,
                len,
                limits,
                top@.skip(index as int),
                track_id,
                *defaults,
                samples@,
                decode,
            ) ==> fragments_no_room(
                data,
                len,
                limits,
                top@,
                track_id,
                *defaults,
                held@,
                start,
            ),
        decreases top@.len() - index,
    {
        let moof = top[index];
        let ghost rest = top@.skip(index as int);
        assert(rest[0] == moof);
        assert(rest.drop_first() =~= top@.skip(index + 1));
        if moof.is(&MOOF) {
            let bytes = src.span(moof.body, moof.body_len())?;
            let ghost before = samples@;
            assert(body_spec(data, len, limits, moof) == Ok::<_, Error>(bytes@));
            let mut more = samples_of_moof(
                bytes.as_slice(),
                moof.start,
                moof.body,
                Some(track_id),
                defaults,
                &mut decode,
                &limits,
            )?;
            let ghost added = more@;
            samples.append(&mut more);
            assert(samples@ =~= before + added);
            if samples.len() > limits.max_samples {
                return Err(Error::format("more samples than this reader will hold"));
            }
        }
        index = index + 1;
    }
    Ok(samples)
}

/// One track of a file, with every sample of it.
///
/// Fragmented and not are the same call: the `moov` gives the timing and the
/// sample entry, its sample tables give whatever samples it holds, and each
/// `moof` after it adds its own. The edit list is applied last, over all of
/// them.
///
/// No sample's bytes are read. What comes back is where they are.
pub fn read<R: Input>(src: &mut Source<R>, pick: Pick) -> (track: Result<Track>)
    requires
        old(src).wf(),
    ensures
        final(src).ended(old(src), track),
        track matches Err(Error::Io(_)) || track_seen(track) == read_spec(
            old(src).data(),
            old(src).size(),
            old(src).bounds(),
            pick,
        ) || (track matches Err(err) && read_no_room(
            old(src).data(),
            old(src).size(),
            old(src).bounds(),
            pick,
            err,
        )),
        track is Ok ==> (top_level_spec(
            old(src).data(),
            old(src).size(),
            old(src).bounds(),
        ) matches Ok(top) && cheap(
            final(src).cost(),
            old(src).cost(),
            read_cost(top),
            2 * top.len() as int + 1,
        )),
{
    let top = top_level(src)?;
    let mut track = read_moov(src, top.as_slice(), pick)?;
    let ghost bare = track@;
    let start: i64 = track.next_dts();
    let mut samples: Vec<Sample> = Vec::new();
    samples.append(&mut track.samples);
    assert(samples@ =~= bare.samples);
    let samples = read_fragments(
        src,
        top.as_slice(),
        track.track_id,
        &track.defaults,
        samples,
        start,
    )?;
    track.samples = samples;
    apply_edit(&mut track);
    Ok(track)
}

// ------------------------------------------------------------------ //
// What holds of the whole.
// ------------------------------------------------------------------ //
/// A handler is the four characters it was read from.
pub proof fn law_a_handler_keeps_its_characters(kind: [u8; 4])
    ensures
        Handler::of(kind).code() == kind,
{
}

/// A track with no edit list keeps its composition times as they are.
pub proof fn law_no_edit_list_moves_nothing(track: Reel)
    requires
        track.edit == Edit::absent(),
    ensures
        edited(track).start_shift == 0,
        edited(track).samples == numbered(track.samples),
{
    assert(edited(track).samples =~= numbered(track.samples));
}

/// Whether no time of a track leaves 64 bits when it is moved.
pub open spec fn moves_freely(track: Reel) -> bool {
    let zero = zero_of(track.samples, track.edit);
    let shift = track.edit.empty - zero;
    &&& i64::MIN <= shift <= i64::MAX
    &&& forall|i: int|
        0 <= i < track.samples.len() ==> i64::MIN <= (#[trigger] track.samples[i]).pts + shift
            <= i64::MAX && i64::MIN <= track.samples[i].dts + shift <= i64::MAX
}

/// The first sample, in decode order, that is composed at or after the media
/// time of the edit is the zero of the file: it is shown when the empty
/// edits in front are over, and at zero where there are none.
pub proof fn law_the_zero_snaps_to_the_first_sample_kept(track: Reel, media_time: i64, i: int)
    requires
        track.edit.media_time == Some(media_time),
        moves_freely(track),
        0 <= i < track.samples.len(),
        track.samples[i].pts >= media_time,
        forall|j: int| 0 <= j < i ==> (#[trigger] track.samples[j]).pts < media_time,
    ensures
        edited(track).samples[i].pts == track.edit.empty,
        edited(track).start_shift == track.edit.empty - track.samples[i].pts,
{
    lemma_first_kept(track.samples, media_time, i);
}

proof fn lemma_first_kept(samples: Seq<Sample>, media_time: i64, i: int)
    requires
        0 <= i < samples.len(),
        samples[i].pts >= media_time,
        forall|j: int| 0 <= j < i ==> (#[trigger] samples[j]).pts < media_time,
    ensures
        first_kept(samples, media_time) == samples[i].pts,
    decreases i,
{
    if i > 0 {
        assert(samples[0].pts < media_time);
        let rest = samples.drop_first();
        assert forall|j: int| 0 <= j < i - 1 implies (#[trigger] rest[j]).pts < media_time by {
            assert(rest[j] == samples[j + 1]);
        }
        lemma_first_kept(rest, media_time, i - 1);
    }
}

/// An edit list moves every time of a track by the same amount, which is
/// what `start_shift` says, and touches nothing else of a sample but its
/// number.
pub proof fn law_an_edit_list_moves_every_time_alike(track: Reel, i: int)
    requires
        moves_freely(track),
        0 <= i < track.samples.len(),
    ensures
        ({
            let before = track.samples[i];
            let after = edited(track).samples[i];
            &&& after.pts == before.pts + edited(track).start_shift
            &&& after.dts == before.dts + edited(track).start_shift
            &&& after.offset == before.offset
            &&& after.size == before.size
            &&& after.duration == before.duration
            &&& after.keyframe == before.keyframe
            &&& after.index == i % 0x1_0000_0000
        }),
{
}

/// Only the first edit that shows something, and the empty ones before it,
/// count: what follows it in the list changes nothing.
pub proof fn law_the_first_edit_decides(
    elst: Seq<u8>,
    i: nat,
    count: nat,
    more: nat,
    empty: i64,
    movie_timescale: u32,
    media_timescale: u32,
)
    requires
        i <= count <= more,
        edits_from(elst, i, count, empty, movie_timescale, media_timescale).media_time is Some,
    ensures
        edits_from(elst, i, more, empty, movie_timescale, media_timescale) == edits_from(
            elst,
            i,
            count,
            empty,
            movie_timescale,
            media_timescale,
        ),
    decreases count - i,
{
    if i < count {
        let (duration, media_time) = edit_entry(elst, i as int);
        if media_time < 0 {
            law_the_first_edit_decides(
                elst,
                i + 1,
                count,
                more,
                clamp64(
                    empty + rescale(duration, movie_timescale as u64, media_timescale as u64),
                ),
                movie_timescale,
                media_timescale,
            );
        }
    }
}

/// The `stts` of a `trak`, where there is one to be read or none at all.
pub open spec fn trak_times(entry: Kid, limits: Limits) -> Option<Seq<(u32, u32)>> {
    match children_spec(entry.body, entry.at, limits.max_children) {
        Err(_) => None,
        Ok(trak) => match mdia_spec(trak, limits) {
            Ok(Some(mdia)) => match stbl_of_spec(mdia, limits) {
                Err(_) => None,
                Ok(stbl) => match times_spec(stbl) {
                    Err(_) => None,
                    Ok(times) => Some(times),
                },
            },
            _ => None,
        },
    }
}

/// The decode time after the last sample of a `trak` is what its `stts`
/// deltas add up to, each as often as it counts, where they count no more
/// samples than there are; and zero where there are no samples.
pub proof fn law_the_next_decode_time_of_a_track(
    entry: Kid,
    movie_timescale: u32,
    moov: Seq<Kid>,
    limits: Limits,
)
    ensures
        trak_spec(entry, movie_timescale, moov, limits) matches Ok(Some(track)) ==> {
            &&& trak_times(entry, limits) matches Some(times) ==> (counts(times)
                <= track.samples.len() ==> {
                &&& next_dts_spec(track.samples) == clamp64(deltas(times) as int)
                &&& limits.max_samples <= i32::MAX ==> next_dts_spec(track.samples) == deltas(times)
            })
            &&& track.samples.len() == 0 ==> next_dts_spec(track.samples) == 0
        },
{
    if let Ok(trak) = children_spec(entry.body, entry.at, limits.max_children) {
        if let Ok(Some(mdia)) = mdia_spec(trak, limits) {
            if let Ok(stbl) = stbl_of_spec(mdia, limits) {
                if let Ok(times) = times_spec(stbl) {
                    law_the_next_decode_time_is_the_sum_of_the_deltas(stbl, limits, times);
                }
            }
        }
    }
}

proof fn lemma_a_track_is_a_trak(
    list: Seq<Kid>,
    scale: u32,
    moov: Seq<Kid>,
    limits: Limits,
    i: int,
) -> (j: int)
    requires
        traks_among(list, scale, moov, limits) matches Ok(reels) && 0 <= i < reels.len(),
    ensures
        0 <= j < list.len(),
        list[j].kind == TRAK,
        trak_spec(list[j], scale, moov, limits) == Ok::<_, Error>(
            Some(traks_among(list, scale, moov, limits)->Ok_0[i]),
        ),
    decreases list.len(),
{
    let rest = list.drop_first();
    if list[0].kind != TRAK || trak_spec(list[0], scale, moov, limits) == Ok::<Option<Reel>, Error>(
        None,
    ) {
        lemma_a_track_is_a_trak(rest, scale, moov, limits, i) + 1
    } else if i == 0 {
        0
    } else {
        lemma_a_track_is_a_trak(rest, scale, moov, limits, i - 1) + 1
    }
}

/// Every track of a `moov` is what one of its `trak`s describes, and the
/// decode time after its last sample is what the `stts` deltas of that `trak`
/// add up to, where they count no more samples than there are; it is zero for
/// a track with no samples.
pub proof fn law_the_next_decode_time_of_every_track(
    moov: Seq<u8>,
    at: u64,
    limits: Limits,
    i: int,
)
    requires
        all_spec(moov, at, limits) matches Ok(reels) && 0 <= i < reels.len(),
    ensures
        ({
            let list = children_spec(moov, at, limits.max_children)->Ok_0;
            let scale = movie_timescale_spec(list)->Ok_0;
            let track = all_spec(moov, at, limits)->Ok_0[i];
            let next = next_dts_spec(track.samples);
            &&& exists|j: int|
                0 <= j < list.len() && (#[trigger] list[j]).kind == TRAK && trak_spec(
                    list[j],
                    scale,
                    list,
                    limits,
                ) == Ok::<_, Error>(Some(track)) && (trak_times(list[j], limits) matches Some(times)
                    ==> (counts(times) <= track.samples.len() ==> next == clamp64(
                    deltas(times) as int,
                ) && (limits.max_samples <= i32::MAX ==> next == deltas(times))))
            &&& track.samples.len() == 0 ==> next == 0
        }),
{
    let list = children_spec(moov, at, limits.max_children)->Ok_0;
    let scale = movie_timescale_spec(list)->Ok_0;
    let j = lemma_a_track_is_a_trak(list, scale, list, limits, i);
    law_the_next_decode_time_of_a_track(list[j], scale, list, limits);
}

/// A track that was read has no more samples than the reader will hold.
pub proof fn law_a_track_is_bounded(data: Seq<u8>, len: u64, limits: Limits, pick: Pick)
    ensures
        read_spec(data, len, limits, pick) matches Ok(track) ==> track.samples.len()
            <= limits.max_samples,
{
    if let Ok(top) = top_level_spec(data, len, limits) {
        if let Some(moov) = first_span(top, MOOV) {
            if let Ok(body) = body_spec(data, len, limits, moov) {
                if let Ok(list) = children_spec(body, moov.body, limits.max_children) {
                    if let Ok(scale) = movie_timescale_spec(list) {
                        lemma_traks_bounded(list, scale, list, limits);
                        if let Ok(reels) = traks_among(list, scale, list, limits) {
                            lemma_picked_is_in(reels, pick);
                        }
                    }
                }
            }
        }
        if let Ok(track) = moov_track(data, len, limits, top, pick) {
            lemma_fragments_bounded(
                data,
                len,
                limits,
                top,
                track.track_id,
                track.defaults,
                track.samples,
                next_dts_spec(track.samples),
            );
        }
    }
}

proof fn lemma_traks_bounded(list: Seq<Kid>, scale: u32, moov: Seq<Kid>, limits: Limits)
    ensures
        traks_among(list, scale, moov, limits) matches Ok(reels) ==> forall|i: int|
            0 <= i < reels.len() ==> (#[trigger] reels[i]).samples.len() <= limits.max_samples,
    decreases list.len(),
{
    if list.len() > 0 {
        let rest = traks_among(list.drop_first(), scale, moov, limits);
        lemma_traks_bounded(list.drop_first(), scale, moov, limits);
        if list[0].kind == TRAK {
            if let Ok(Some(reel)) = trak_spec(list[0], scale, moov, limits) {
                assert(reel.samples.len() <= limits.max_samples);
                if let Ok(more) = rest {
                    let reels = seq![reel] + more;
                    assert forall|i: int| 0 <= i < reels.len() implies (
                    #[trigger] reels[i]).samples.len() <= limits.max_samples by {
                        if i > 0 {
                            assert(reels[i] == more[i - 1]);
                        }
                    }
                }
            }
        }
    }
}

proof fn lemma_picked_is_in(list: Seq<Reel>, pick: Pick)
    ensures
        picked(list, pick) matches Some(reel) ==> exists|i: int|
            0 <= i < list.len() && #[trigger] list[i] == reel,
    decreases list.len(),
{
    if list.len() > 0 && !pick.wants_spec(list[0]) {
        let rest = list.drop_first();
        lemma_picked_is_in(rest, pick);
        if let Some(reel) = picked(rest, pick) {
            let i = choose|i: int| 0 <= i < rest.len() && #[trigger] rest[i] == reel;
            assert(list[i + 1] == reel);
        }
    } else if list.len() > 0 {
        assert(list[0] == picked(list, pick).unwrap());
    }
}

proof fn lemma_fragments_bounded(
    data: Seq<u8>,
    len: u64,
    limits: Limits,
    list: Seq<BoxSpan>,
    track_id: u32,
    defaults: TrexDefaults,
    samples: Seq<Sample>,
    clock: i64,
)
    requires
        samples.len() <= limits.max_samples,
    ensures
        fragments_after(data, len, limits, list, track_id, defaults, samples, clock) matches Ok(all)
            ==> all.len() <= limits.max_samples,
    decreases list.len(),
{
    if list.len() > 0 {
        let rest = list.drop_first();
        if list[0].kind != MOOF {
            lemma_fragments_bounded(data, len, limits, rest, track_id, defaults, samples, clock);
        } else if let Ok(body) = body_spec(data, len, limits, list[0]) {
            if let Ok(reach) = moof_spec(
                body,
                list[0].start,
                list[0].body,
                Some(track_id),
                defaults,
                clock,
                limits,
            ) {
                if samples.len() + reach.samples.len() <= limits.max_samples {
                    lemma_fragments_bounded(
                        data,
                        len,
                        limits,
                        rest,
                        track_id,
                        defaults,
                        samples + reach.samples,
                        reach.clock,
                    );
                }
            }
        }
    }
}

} // verus!
