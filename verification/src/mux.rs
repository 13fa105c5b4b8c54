//! Building a fragmented file from coded packets: the inverse of
//! [`crate::scanner`] and [`crate::fragment`].
//!
//! One [`Muxer`] serves one coded track. Its
//! [`init_segment`](Muxer::init_segment) is the `ftyp`+`moov` a decoder
//! reads before any sample (§4.3, §8.2.1, §8.8.1), and each
//! [`push`](Muxer::push) turns settled packets into `moof`+`mdat` fragments
//! (§8.8.4, §8.1.1).
//!
//! # The mode, which is not an assumption
//!
//! [`Mode::PerSample`] emits one fragment per sample. That is a publishing
//! convention, not a property of the format: it is what a transport wanting
//! each frame to leave as it is encoded asks for, and it is the default
//! because that is the commoner caller. [`Mode::PerCut`] holds settled
//! samples until [`cut`](Muxer::cut) says to close one fragment over all of
//! them, which is the shape ffmpeg writes, a whole group of pictures to a
//! `moof`. The writer does not care which; nothing in the types assumes one
//! sample.
//!
//! # What it does not write
//!
//! No `elst` (§8.6.6). A file this crate wrote therefore has no edit list,
//! so a reader of it, this crate's own included, sees the composition times
//! exactly as stored: the first sample of a reordering stream is presented
//! at its composition offset rather than at zero. That is what ffprobe
//! reports for ffmpeg's own `frag_keyframe+empty_moov` output too, and it is
//! the honest answer for a stream that has no beginning to trim to.
//!
//! No `mfra` (§8.8.9) and no `sidx`. A random access index of a live stream
//! is a thing a reader of the finished file can build by walking it, which
//! [`crate::track::read`] does.
//!
//! # Timestamps
//!
//! The media timescale is the time base's denominator, so a tick value
//! crosses unchanged when the numerator is 1 and is scaled by it otherwise.
//! A stream that reorders frames may open with negative decode times; the
//! whole decode timeline is shifted up once so the first fragment starts at
//! zero, and presentation offsets carry the reordering per sample (§8.8.8).
//! The first packets of such a stream may arrive with no decode time at all,
//! and are held until one settles, when the prefix gets decode times
//! synthesized backwards at the settled step and flushes.
//!
//! # What goes in
//!
//! A packet's bytes are stored **exactly as given**. This crate knows
//! nothing about NAL units, so an h264 or HEVC caller reframes Annex-B into
//! the length-prefixed form its own `avcC` or `hvcC` declares before
//! pushing, and builds that record itself. The record is carried into the
//! sample entry as opaque bytes.

use std::collections::VecDeque;

use vstd::prelude::*;
use vstd::slice::slice_to_vec;

use crate::be::{
    as_unsigned32, enc16, enc32, enc64, group_enc_len, put, put16, put32, put64, put_zeros,
    unsigned32, zeros,
};
use crate::boxes::{
    boxed, boxed_spec, full_body, full_boxed, full_boxed_spec, group_box_len, joined, laid,
    lemma_laid,
};
use crate::codes::{
    same, DINF, DREF, ESDS, FTYP, HDLR, ISO5, ISOM, MDAT, MDHD, MDIA, MFHD, MINF, MOOF, MOOV,
    MP41, MP4A, MVEX, MVHD, SMHD, SOUN, STBL, STCO, STSC, STSD, STSZ, STTS, TFDT, TFHD, TKHD,
    TRAF, TRAK, TREX, TRUN, URL, VIDE, VMHD,
};
use crate::error::{seen, settled, Error, Result};
use crate::fragment::{set_in, NON_SYNC};
use crate::track::SampleEntry;

verus! {

/// The default movie timescale a written `mvhd` declares (§8.2.2).
pub const DEFAULT_MOVIE_TIMESCALE: u32 = 1000;

/// The identity transformation matrix every `mvhd` and `tkhd` carries
/// (§8.2.2, §8.3.2): 16.16 fixed point but for the last column, which is
/// 2.30.
pub const MATRIX: [u8; 36] = [
    0, 1, 0, 0, 0, 0, 0, 0, 0, 0, 0, 0, 0, 0, 0, 0, 0, 1, 0, 0, 0, 0, 0, 0, 0, 0, 0, 0, 0, 0, 0, 0,
    0x40, 0, 0, 0,
];

/// The name of a video handler, with the zero that ends it.
pub const VIDEO_HANDLER: [u8; 13] = [
    0x56, 0x69, 0x64, 0x65, 0x6f, 0x48, 0x61, 0x6e, 0x64, 0x6c, 0x65, 0x72, 0,
];

/// The name of a sound handler, with the zero that ends it.
pub const SOUND_HANDLER: [u8; 13] = [
    0x53, 0x6f, 0x75, 0x6e, 0x64, 0x48, 0x61, 0x6e, 0x64, 0x6c, 0x65, 0x72, 0,
];

// ------------------------------------------------------------------ //
// The descriptors of an audio track.
// ------------------------------------------------------------------ //
/// All but the last byte of a descriptor's length: seven bits a byte, the
/// eighth saying that more follow.
pub open spec fn length_head(n: nat) -> Seq<u8>
    decreases n,
{
    if n == 0 {
        Seq::empty()
    } else {
        length_head(n / 128).push((128 + n % 128) as u8)
    }
}

/// A descriptor's length, seven bits a byte.
pub open spec fn length_spec(n: nat) -> Seq<u8> {
    length_head(n / 128).push((n % 128) as u8)
}

pub open spec fn descriptor_spec(tag: u8, payload: Seq<u8>) -> Seq<u8> {
    seq![tag] + length_spec(payload.len()) + payload
}

fn put_length_head(out: &mut Vec<u8>, n: usize)
    ensures
        final(out)@ == old(out)@ + length_head(n as nat),
    decreases n,
{
    let ghost before = out@;
    if n > 0 {
        put_length_head(out, n / 128);
        out.push((128 + n % 128) as u8);
    }
    assert(out@ =~= before + length_head(n as nat));
}

/// One MPEG-4 descriptor: a tag, its length in the seven-bits-a-byte coding
/// descriptors use, then the payload.
pub fn descriptor(tag: u8, payload: &[u8]) -> (out: Vec<u8>)
    ensures
        out@ == descriptor_spec(tag, payload@),
{
    let mut out: Vec<u8> = Vec::new();
    let length: usize = payload.len();
    out.push(tag);
    put_length_head(&mut out, length / 128);
    out.push((length % 128) as u8);
    put(&mut out, payload);
    assert(out@ =~= descriptor_spec(tag, payload@));
    out
}

/// A decoder config: MPEG-4 audio, an audio stream and not upstream, no
/// stated buffer size or bitrates, and the specific info.
pub open spec fn decoder_config(asc: Seq<u8>) -> Seq<u8> {
    seq![0x40u8, 0x15, 0, 0, 0] + enc32(0) + enc32(0) + descriptor_spec(0x05, asc)
}

pub open spec fn esds_spec(asc: Seq<u8>) -> Seq<u8> {
    descriptor_spec(
        0x03,
        enc16(0) + seq![0u8] + descriptor_spec(0x04, decoder_config(asc)) + descriptor_spec(
            0x06,
            seq![0x02u8],
        ),
    )
}

/// The `esds` payload: the ES descriptor holding a decoder config whose
/// specific info is the caller's own AudioSpecificConfig (ISO/IEC 14496-1
/// §7.2.6).
pub fn esds(asc: &[u8]) -> (out: Vec<u8>)
    ensures
        out@ == esds_spec(asc@),
{
    let specific: Vec<u8> = descriptor(0x05, asc);
    let mut payload: Vec<u8> = Vec::new();
    payload.push(0x40);  // MPEG-4 audio
    payload.push(0x15);  // audio stream, not upstream
    payload.push(0);  // buffer size
    payload.push(0);
    payload.push(0);
    assert(payload@ =~= seq![0x40u8, 0x15, 0, 0, 0]);
    put32(&mut payload, 0);  // max bitrate: unstated
    put32(&mut payload, 0);  // average bitrate: unstated
    put(&mut payload, specific.as_slice());
    let config: Vec<u8> = descriptor(0x04, payload.as_slice());
    // SLConfigDescriptor, predefined 2: the timing an mp4 track carries.
    let mut two: Vec<u8> = Vec::new();
    two.push(0x02);
    assert(two@ =~= seq![0x02u8]);
    let sl: Vec<u8> = descriptor(0x06, two.as_slice());
    let mut whole: Vec<u8> = Vec::new();
    put16(&mut whole, 0);  // ES_ID
    whole.push(0);  // stream priority, no dependency, no URL
    assert(whole@ =~= enc16(0) + seq![0u8]);
    put(&mut whole, config.as_slice());
    put(&mut whole, sl.as_slice());
    descriptor(0x03, whole.as_slice())
}

// ------------------------------------------------------------------ //
// The track to write.
// ------------------------------------------------------------------ //
/// A video track to write: the sample entry's four characters, the frame
/// size, and the decoder configuration record that goes inside it (ISO/IEC
/// 14496-15 §5.3.3 for `avcC`, §8.3.3 for `hvcC`, the AV1 binding for
/// `av1C`).
#[derive(Clone, Debug, PartialEq, Eq)]
pub struct Video {
    /// `avc1`, `avc3`, `hvc1`, `hev1` or `av01`.
    pub kind: [u8; 4],
    pub width: u32,
    pub height: u32,
    /// The record, opaque: this crate carries it and does not read it.
    pub config: Vec<u8>,
}

/// An AAC track to write: an `mp4a` entry whose `esds` carries the stream's
/// AudioSpecificConfig (ISO/IEC 14496-14 §5.6).
#[derive(Clone, Debug, PartialEq, Eq)]
pub struct Audio {
    pub sample_rate: u32,
    pub channels: u32,
    /// The AudioSpecificConfig, opaque.
    pub config: Vec<u8>,
}

#[derive(Debug)]
enum Kind {
    Video(Video),
    Audio(Audio),
}

/// What a track carries, by what it holds.
pub enum Content {
    Video { kind: [u8; 4], width: u32, height: u32, config: Seq<u8> },
    Audio { sample_rate: u32, channels: u32, config: Seq<u8> },
}

impl View for Video {
    type V = Content;

    open spec fn view(&self) -> Content {
        Content::Video {
            kind: self.kind,
            width: self.width,
            height: self.height,
            config: self.config@,
        }
    }
}

impl View for Audio {
    type V = Content;

    open spec fn view(&self) -> Content {
        Content::Audio {
            sample_rate: self.sample_rate,
            channels: self.channels,
            config: self.config@,
        }
    }
}

impl View for Kind {
    type V = Content;

    closed spec fn view(&self) -> Content {
        match *self {
            Kind::Video(video) => video@,
            Kind::Audio(audio) => audio@,
        }
    }
}

impl Content {
    /// The configuration record.
    pub open spec fn config(self) -> Seq<u8> {
        match self {
            Content::Video { config, .. } => config,
            Content::Audio { config, .. } => config,
        }
    }

    /// The sample entry's four characters.
    pub open spec fn entry_kind(self) -> [u8; 4] {
        match self {
            Content::Video { kind, .. } => kind,
            Content::Audio { .. } => MP4A,
        }
    }

    /// Whether there is a sample entry to build: one of the video entries
    /// that carry a record of their own, or an audio one.
    pub open spec fn carried(self) -> bool {
        match self {
            Content::Video { kind, .. } => SampleEntry::config_box_spec(kind) matches Some(config)
                && config != ESDS,
            Content::Audio { .. } => true,
        }
    }
}

/// What a visual entry has before its configuration record.
pub open spec fn visual_fixed(width: u32, height: u32) -> Seq<u8> {
    zeros(6) + enc16(1) + zeros(16) + enc16((width % 0x1_0000) as u16) + enc16(
        (height % 0x1_0000) as u16,
    ) + enc32(0x0048_0000) + enc32(0x0048_0000) + zeros(4) + enc16(1) + zeros(32) + enc16(0x18)
        + enc16(0xffff)
}

/// The sample rate as 16.16 fixed point; a rate past 65535 does not fit and
/// is left at zero.
pub open spec fn fixed_rate(sample_rate: u32) -> u32 {
    if sample_rate > 0xffff {
        0
    } else {
        (sample_rate * 0x1_0000) as u32
    }
}

/// A channel count as far as sixteen bits can say.
pub open spec fn fixed_channels(channels: u32) -> u16 {
    if channels > 0xffff {
        0xffff
    } else {
        channels as u16
    }
}

/// What an audio entry has before its `esds`.
pub open spec fn audio_fixed(sample_rate: u32, channels: u32) -> Seq<u8> {
    zeros(6) + enc16(1) + zeros(8) + enc16(fixed_channels(channels)) + enc16(16) + zeros(4)
        + enc32(fixed_rate(sample_rate))
}

/// What a sample entry holds behind its header.
pub open spec fn entry_body(content: Content) -> Seq<u8> {
    match content {
        Content::Video { kind, width, height, config } => visual_fixed(width, height) + boxed_spec(
            SampleEntry::config_box_spec(kind).unwrap(),
            config,
        ),
        Content::Audio { sample_rate, channels, config } => audio_fixed(sample_rate, channels)
            + full_boxed_spec(ESDS, 0, 0, esds_spec(config)),
    }
}

/// A `VisualSampleEntry` with the configuration record inside it (§12.1.3).
fn visual_entry(video: &Video) -> (out: Vec<u8>)
    requires
        video@.carried(),
        8 + entry_body(video@).len() <= usize::MAX,
    ensures
        out@ == boxed_spec(video.kind, entry_body(video@)),
{
    broadcast use group_enc_len;

    let config_box = match SampleEntry::config_box(&video.kind) {
        Some(config_box) => config_box,
        // An entry that is carried has a box for its record.
        None => return Vec::new(),
    };
    let width: u16 = (video.width % 0x1_0000) as u16;
    let height: u16 = (video.height % 0x1_0000) as u16;
    let mut payload: Vec<u8> = Vec::new();
    put_zeros(&mut payload, 6);  // reserved
    put16(&mut payload, 1);  // data_reference_index
    put_zeros(&mut payload, 16);  // pre_defined, reserved
    put16(&mut payload, width);
    put16(&mut payload, height);
    put32(&mut payload, 0x0048_0000);  // 72 dpi
    put32(&mut payload, 0x0048_0000);
    put_zeros(&mut payload, 4);  // reserved
    put16(&mut payload, 1);  // frame_count
    put_zeros(&mut payload, 32);  // compressorname, empty
    put16(&mut payload, 0x18);  // depth
    put16(&mut payload, 0xffff);  // pre_defined
    assert(payload@ =~= visual_fixed(video.width, video.height));
    let record: Vec<u8> = boxed(config_box, video.config.as_slice());
    put(&mut payload, record.as_slice());
    boxed(&video.kind, payload.as_slice())
}

/// An `mp4a` `AudioSampleEntry` with its `esds` inside (§12.2.3, ISO/IEC
/// 14496-14 §5.6).
fn audio_entry(audio: &Audio) -> (out: Vec<u8>)
    requires
        8 + entry_body(audio@).len() <= usize::MAX,
    ensures
        out@ == boxed_spec(MP4A, entry_body(audio@)),
{
    broadcast use group_enc_len;

    let channels: u16 = if audio.channels > 0xffff {
        0xffff
    } else {
        audio.channels as u16
    };
    // 16.16 fixed point, so a rate past 65535 does not fit and is left at
    // zero; the esds below carries the real one either way.
    let rate: u32 = if audio.sample_rate > 0xffff {
        0
    } else {
        audio.sample_rate * 0x1_0000
    };
    let mut payload: Vec<u8> = Vec::new();
    put_zeros(&mut payload, 6);  // reserved
    put16(&mut payload, 1);  // data_reference_index
    put_zeros(&mut payload, 8);  // version, revision, vendor
    put16(&mut payload, channels);
    put16(&mut payload, 16);  // samplesize
    put_zeros(&mut payload, 4);  // pre_defined, reserved
    put32(&mut payload, rate);
    assert(payload@ =~= audio_fixed(audio.sample_rate, audio.channels));
    let chain: Vec<u8> = esds(audio.config.as_slice());
    let record: Vec<u8> = full_boxed(&ESDS, 0, 0, chain.as_slice());
    put(&mut payload, record.as_slice());
    boxed(&MP4A, payload.as_slice())
}

// ------------------------------------------------------------------ //
// The init segment.
// ------------------------------------------------------------------ //
/// What the `moov` of a track to write is made of.
pub struct Plan {
    pub content: Content,
    pub timescale: u32,
    pub movie_timescale: u32,
    pub track_id: u32,
}

/// Boxes, each a kind and what it holds.
pub type Boxes = Seq<([u8; 4], Seq<u8>)>;

impl Plan {
    /// The brands a file of this writer goes by.
    pub open spec fn ftyp(self) -> Seq<u8> {
        ISO5@ + enc32(512) + ISO5@ + ISOM@ + self.content.entry_kind()@ + MP41@
    }

    /// One sample entry, and tables of no samples.
    pub open spec fn stbl(self) -> Boxes {
        seq![
            (
                STSD,
                full_body(
                    0,
                    0,
                    enc32(1) + boxed_spec(self.content.entry_kind(), entry_body(self.content)),
                ),
            ),
            (STTS, full_body(0, 0, zeros(4))),
            (STSC, full_body(0, 0, zeros(4))),
            (STSZ, full_body(0, 0, zeros(8))),
            (STCO, full_body(0, 0, zeros(4))),
        ]
    }

    /// The data is in this file.
    pub open spec fn dinf(self) -> Boxes {
        seq![(DREF, full_body(0, 0, enc32(1) + full_boxed_spec(URL, 0, 1, Seq::empty())))]
    }

    pub open spec fn minf(self) -> Boxes {
        seq![
            match self.content {
                Content::Video { .. } => (VMHD, full_body(0, 1, zeros(8))),
                Content::Audio { .. } => (SMHD, full_body(0, 0, zeros(4))),
            },
            (DINF, laid(self.dinf())),
            (STBL, laid(self.stbl())),
        ]
    }

    pub open spec fn hdlr(self) -> Seq<u8> {
        match self.content {
            Content::Video { .. } => zeros(4) + VIDE@ + zeros(12) + VIDEO_HANDLER@,
            Content::Audio { .. } => zeros(4) + SOUN@ + zeros(12) + SOUND_HANDLER@,
        }
    }

    /// Zero times, the timescale, no duration, no language.
    pub open spec fn mdhd(self) -> Seq<u8> {
        zeros(8) + enc32(self.timescale) + zeros(4) + enc16(0x55c4) + zeros(2)
    }

    pub open spec fn mdia(self) -> Boxes {
        seq![
            (MDHD, full_body(0, 0, self.mdhd())),
            (HDLR, full_body(0, 0, self.hdlr())),
            (MINF, laid(self.minf())),
        ]
    }

    /// A video track states its frame size and no volume; an audio track
    /// states full volume and no frame size.
    pub open spec fn shape(self) -> (u16, u32, u32) {
        match self.content {
            Content::Video { width, height, .. } => (0, width, height),
            Content::Audio { .. } => (0x0100, 0, 0),
        }
    }

    pub open spec fn tkhd(self) -> Seq<u8> {
        let (volume, width, height) = self.shape();
        zeros(8) + enc32(self.track_id) + zeros(4) + zeros(4) + zeros(8) + zeros(4) + enc16(volume)
            + zeros(2) + MATRIX@ + enc32((width % 0x1_0000 * 0x1_0000) as u32) + enc32(
            (height % 0x1_0000 * 0x1_0000) as u32,
        )
    }

    pub open spec fn trak(self) -> Boxes {
        seq![(TKHD, full_body(0, 3, self.tkhd())), (MDIA, laid(self.mdia()))]
    }

    /// No defaults at all: every fragment says everything itself.
    pub open spec fn mvex(self) -> Boxes {
        seq![(TREX, full_body(0, 0, enc32(self.track_id) + enc32(1) + zeros(12)))]
    }

    pub open spec fn next_track_id(self) -> u32 {
        if self.track_id == u32::MAX {
            u32::MAX
        } else {
            (self.track_id + 1) as u32
        }
    }

    pub open spec fn mvhd(self) -> Seq<u8> {
        zeros(8) + enc32(self.movie_timescale) + zeros(4) + enc32(0x0001_0000) + enc16(0x0100)
            + zeros(10) + MATRIX@ + zeros(24) + enc32(self.next_track_id())
    }

    pub open spec fn moov(self) -> Boxes {
        seq![
            (MVHD, full_body(0, 0, self.mvhd())),
            (TRAK, laid(self.trak())),
            (MVEX, laid(self.mvex())),
        ]
    }

    /// The two boxes a decoder reads before any fragment.
    pub open spec fn init(self) -> Boxes {
        seq![(FTYP, self.ftyp()), (MOOV, laid(self.moov()))]
    }
}

/// The most an `n` below 128 to the power `k` can be.
spec fn cap(k: nat) -> nat
    decreases k,
{
    if k == 0 {
        1
    } else {
        128 * cap((k - 1) as nat)
    }
}

proof fn lemma_length_head_len(n: nat, k: nat)
    requires
        n < cap(k),
    ensures
        length_head(n).len() <= k,
    decreases k,
{
    if n > 0 {
        lemma_length_head_len(n / 128, (k - 1) as nat);
    }
}

proof fn lemma_descriptor_len(tag: u8, payload: Seq<u8>)
    requires
        payload.len() <= u64::MAX,
    ensures
        descriptor_spec(tag, payload).len() <= payload.len() + 11,
{
    reveal_with_fuel(cap, 10);
    assert(cap(9) == 0x8000_0000_0000_0000);
    lemma_length_head_len(payload.len() / 128, 9);
}

/// A sample entry is not much longer than the record in it.
pub proof fn lemma_entry_len(content: Content)
    requires
        content.config().len() + 200 <= u64::MAX,
    ensures
        entry_body(content).len() <= content.config().len() + 120,
{
    broadcast use {group_enc_len, group_box_len};

    match content {
        Content::Video { .. } => {},
        Content::Audio { config, .. } => {
            lemma_descriptor_len(0x05, config);
            lemma_descriptor_len(0x04, decoder_config(config));
            lemma_descriptor_len(0x06, seq![0x02u8]);
            lemma_descriptor_len(
                0x03,
                enc16(0) + seq![0u8] + descriptor_spec(0x04, decoder_config(config))
                    + descriptor_spec(0x06, seq![0x02u8]),
            );
        },
    }
}

// ------------------------------------------------------------------ //
// The fragments.
// ------------------------------------------------------------------ //
/// One row of a `trun` to write.
#[derive(Clone, Copy, Debug, PartialEq, Eq, Structural)]
pub struct TrunEntry {
    pub duration: u32,
    pub size: u32,
    pub flags: u32,
    pub cts: i32,
}

/// A row as bytes.
pub open spec fn row(entry: TrunEntry) -> Seq<u8> {
    enc32(entry.duration) + enc32(entry.size) + enc32(entry.flags) + enc32(unsigned32(entry.cts))
}

/// Rows as bytes, one behind another.
pub open spec fn rows(entries: Seq<TrunEntry>) -> Seq<u8>
    decreases entries.len(),
{
    if entries.len() == 0 {
        Seq::empty()
    } else {
        rows(entries.drop_last()) + row(entries.last())
    }
}

/// How long a `moof` of so many rows is.
pub open spec fn moof_len(count: nat) -> nat {
    88 + 16 * count
}

/// The low 32 bits of a length.
pub open spec fn low32(n: nat) -> u32 {
    (n % 0x1_0000_0000) as u32
}

/// The `trun` of some rows: where its data is, counted from the `moof`, and
/// the rows.
pub open spec fn trun_payload(entries: Seq<TrunEntry>) -> Seq<u8> {
    enc32(low32(entries.len())) + enc32(low32(moof_len(entries.len()) + 8)) + rows(entries)
}

pub open spec fn traf_boxes(
    track_id: u32,
    base_decode_time: u64,
    entries: Seq<TrunEntry>,
) -> Boxes {
    seq![
        (TFHD, full_body(0, 0x02_0000, enc32(track_id))),
        (TFDT, full_body(1, 0, enc64(base_decode_time))),
        (TRUN, full_body(1, 0xf01, trun_payload(entries))),
    ]
}

pub open spec fn moof_boxes(
    track_id: u32,
    sequence: u32,
    base_decode_time: u64,
    entries: Seq<TrunEntry>,
) -> Boxes {
    seq![
        (MFHD, full_body(0, 0, enc32(sequence))),
        (TRAF, laid(traf_boxes(track_id, base_decode_time, entries))),
    ]
}

/// One `moof` over some rows, as bytes.
pub open spec fn moof_bytes(
    track_id: u32,
    sequence: u32,
    base_decode_time: u64,
    entries: Seq<TrunEntry>,
) -> Seq<u8> {
    boxed_spec(MOOF, laid(moof_boxes(track_id, sequence, base_decode_time, entries)))
}

/// Rows take sixteen bytes each.
pub proof fn lemma_rows_len(entries: Seq<TrunEntry>)
    ensures
        rows(entries).len() == 16 * entries.len(),
    decreases entries.len(),
{
    broadcast use group_enc_len;

    if entries.len() > 0 {
        lemma_rows_len(entries.drop_last());
    }
}

/// A `moof` is as long as it is worked out to be before it is assembled.
pub proof fn law_moof_len(
    track_id: u32,
    sequence: u32,
    base_decode_time: u64,
    entries: Seq<TrunEntry>,
)
    ensures
        moof_bytes(track_id, sequence, base_decode_time, entries).len() == moof_len(entries.len()),
{
    broadcast use {group_enc_len, group_box_len};

    let inner = traf_boxes(track_id, base_decode_time, entries);
    let outer = moof_boxes(track_id, sequence, base_decode_time, entries);
    lemma_rows_len(entries);
    lemma_laid(inner[0], inner[1], inner[2], inner[0], inner[0]);
    lemma_laid(outer[0], outer[1], inner[0], inner[0], inner[0]);
}

/// One `moof` over `entries`, whose `trun` data offset points past the
/// `moof` and the `mdat` header at the payload (§8.8.8).
fn moof(track_id: u32, sequence: u32, base_decode_time: u64, entries: &[TrunEntry]) -> (out: Vec<
    u8,
>)
    requires
        moof_len(entries@.len()) + 8 <= usize::MAX,
    ensures
        out@ == moof_bytes(track_id, sequence, base_decode_time, entries@),
{
    broadcast use {group_enc_len, group_box_len};

    // Sizes first, so the trun's data offset can point past the moof into
    // the mdat payload before either is assembled.
    let trun_size: usize = 20 + 16 * entries.len();
    let traf_size: usize = 8 + 16 + 20 + trun_size;
    let moof_size: usize = 8 + 16 + traf_size;
    let data_offset: u32 = ((moof_size + 8) as u64 % 0x1_0000_0000) as u32;
    let count: u32 = (entries.len() as u64 % 0x1_0000_0000) as u32;
    let mut four: Vec<u8> = Vec::new();
    put32(&mut four, sequence);
    let mfhd: Vec<u8> = full_boxed(&MFHD, 0, 0, four.as_slice());
    // `default-base-is-moof`: every offset in this fragment is counted from
    // the moof's own first byte (§8.8.7).
    let mut four: Vec<u8> = Vec::new();
    put32(&mut four, track_id);
    let tfhd: Vec<u8> = full_boxed(&TFHD, 0, 0x02_0000, four.as_slice());
    let mut eight: Vec<u8> = Vec::new();
    put64(&mut eight, base_decode_time);
    let tfdt: Vec<u8> = full_boxed(&TFDT, 1, 0, eight.as_slice());
    // Flags: data-offset, sample-duration, sample-size, sample-flags,
    // sample-composition-time-offset. Version 1, whose offset is signed.
    let mut payload: Vec<u8> = Vec::new();
    put32(&mut payload, count);
    put32(&mut payload, data_offset);
    let ghost front = payload@;
    let mut index: usize = 0;
    assert(payload@ =~= front + rows(entries@.take(0)));
    while index < entries.len()
        invariant
            index <= entries@.len(),
            payload@ == front + rows(entries@.take(index as int)),
        decreases entries@.len() - index,
    {
        let entry: TrunEntry = entries[index];
        put32(&mut payload, entry.duration);
        put32(&mut payload, entry.size);
        put32(&mut payload, entry.flags);
        put32(&mut payload, as_unsigned32(entry.cts));
        proof {
            assert(entries@.take(index + 1).drop_last() =~= entries@.take(index as int));
            assert(payload@ =~= front + rows(entries@.take(index + 1)));
        }
        index = index + 1;
    }
    proof {
        assert(entries@.take(index as int) =~= entries@);
        assert(payload@ =~= trun_payload(entries@));
        lemma_rows_len(entries@);
    }
    let trun: Vec<u8> = full_boxed(&TRUN, 1, 0xf01, payload.as_slice());
    let mut inside: Vec<u8> = Vec::new();
    put(&mut inside, tfhd.as_slice());
    put(&mut inside, tfdt.as_slice());
    put(&mut inside, trun.as_slice());
    proof {
        let inner = traf_boxes(track_id, base_decode_time, entries@);
        lemma_laid(inner[0], inner[1], inner[2], inner[0], inner[0]);
        assert(inside@ =~= laid(inner));
    }
    let traf: Vec<u8> = boxed(&TRAF, inside.as_slice());
    let mut whole: Vec<u8> = Vec::new();
    put(&mut whole, mfhd.as_slice());
    put(&mut whole, traf.as_slice());
    proof {
        let outer = moof_boxes(track_id, sequence, base_decode_time, entries@);
        lemma_laid(outer[0], outer[1], outer[0], outer[0], outer[0]);
        assert(whole@ =~= laid(outer));
    }
    boxed(&MOOF, whole.as_slice())
}

// ------------------------------------------------------------------ //
// What goes in and what comes out.
// ------------------------------------------------------------------ //
/// One encoded packet, as a caller hands it over.
pub struct Packet<'a> {
    /// Presentation timestamp in time-base ticks.
    pub pts: i64,
    /// Decode timestamp; absent for the first packets of a reordering stream
    /// whose wire has not settled one.
    pub dts: Option<i64>,
    /// How long the packet is presented, in ticks, where the caller knows. A
    /// packet with one needs no lookahead: its fragment can leave before the
    /// next packet arrives.
    pub duration: Option<i64>,
    /// Whether decoding can start at this packet.
    pub keyframe: bool,
    /// The encoded bytes, in the framing the sample entry declares.
    pub data: &'a [u8],
}

/// One `moof`+`mdat` fragment, ready for a file or a wire.
#[derive(Clone, Debug, PartialEq, Eq)]
pub struct Fragment {
    /// The fragment bytes.
    pub bytes: Vec<u8>,
    /// The `mfhd` sequence number, from 1 (§8.8.5).
    pub sequence: u32,
    /// The `tfdt` base media decode time, in media ticks (§8.8.12).
    pub base_decode_time: u64,
    /// Whether the first sample is a sync sample.
    pub keyframe: bool,
    /// The first sample's presentation timestamp, in the ticks fed in.
    pub pts: i64,
    /// How many samples the fragment holds.
    pub samples: usize,
}

/// A fragment by what it holds.
pub struct Piece {
    pub bytes: Seq<u8>,
    pub sequence: u32,
    pub base_decode_time: u64,
    pub keyframe: bool,
    pub pts: i64,
    pub samples: nat,
}

impl View for Fragment {
    type V = Piece;

    open spec fn view(&self) -> Piece {
        Piece {
            bytes: self.bytes@,
            sequence: self.sequence,
            base_decode_time: self.base_decode_time,
            keyframe: self.keyframe,
            pts: self.pts,
            samples: self.samples as nat,
        }
    }
}

/// Fragments by what they hold.
pub open spec fn pieces_of(list: Seq<Fragment>) -> Seq<Piece> {
    Seq::new(list.len(), |i: int| list[i]@)
}

/// Fragments that came out, by what they hold.
pub open spec fn pieces_seen(list: Result<Vec<Fragment>>) -> Result<Seq<Piece>> {
    match list {
        Ok(list) => Ok(pieces_of(list@)),
        Err(err) => Err(err),
    }
}

/// When a fragment closes.
#[derive(Clone, Copy, Debug, PartialEq, Eq, Structural)]
pub enum Mode {
    /// One fragment per sample.
    PerSample,
    /// Samples accumulate until [`Muxer::cut`] or [`Muxer::finish`] closes a
    /// fragment over them.
    PerCut,
}

impl Default for Mode {
    fn default() -> (mode: Self)
        ensures
            mode == Mode::PerSample,
    {
        Mode::PerSample
    }
}

#[derive(Debug)]
struct Held {
    data: Vec<u8>,
    pts: i64,
    dts: Option<i64>,
    duration: Option<i64>,
    keyframe: bool,
}

/// A packet that waits for its decode time or its duration.
pub struct Waiting {
    pub data: Seq<u8>,
    pub pts: i64,
    pub dts: Option<i64>,
    pub duration: Option<i64>,
    pub keyframe: bool,
}

impl View for Held {
    type V = Waiting;

    closed spec fn view(&self) -> Waiting {
        Waiting {
            data: self.data@,
            pts: self.pts,
            dts: self.dts,
            duration: self.duration,
            keyframe: self.keyframe,
        }
    }
}

spec fn waiting_of(list: Seq<Held>) -> Seq<Waiting> {
    Seq::new(list.len(), |i: int| list[i]@)
}

/// A packet as it waits: a duration that is not positive is none.
pub open spec fn held(packet: Packet<'_>) -> Waiting {
    Waiting {
        data: packet.data@,
        pts: packet.pts,
        dts: packet.dts,
        duration: match packet.duration {
            Some(own) => if own > 0 {
                Some(own)
            } else {
                None
            },
            None => None,
        },
        keyframe: packet.keyframe,
    }
}

/// One settled sample, waiting for the fragment it belongs to.
#[derive(Debug)]
struct Settled {
    data: Vec<u8>,
    pts: i64,
    base_decode_time: u64,
    entry: TrunEntry,
}

/// A settled sample by what it holds.
pub struct Ready {
    pub data: Seq<u8>,
    pub pts: i64,
    pub base_decode_time: u64,
    pub entry: TrunEntry,
}

impl View for Settled {
    type V = Ready;

    closed spec fn view(&self) -> Ready {
        Ready {
            data: self.data@,
            pts: self.pts,
            base_decode_time: self.base_decode_time,
            entry: self.entry,
        }
    }
}

spec fn ready_of(list: Seq<Settled>) -> Seq<Ready> {
    Seq::new(list.len(), |i: int| list[i]@)
}

/// The rows of settled samples.
pub open spec fn entries_of(list: Seq<Ready>) -> Seq<TrunEntry> {
    Seq::new(list.len(), |i: int| list[i].entry)
}

/// The bytes of settled samples, one behind another.
pub open spec fn data_of(list: Seq<Ready>) -> Seq<u8>
    decreases list.len(),
{
    if list.len() == 0 {
        Seq::empty()
    } else {
        data_of(list.drop_last()) + list.last().data
    }
}

// ------------------------------------------------------------------ //
// The muxer as a state and what moves it.
// ------------------------------------------------------------------ //
/// A muxer by what it holds.
pub struct Mux {
    pub plan: Plan,
    /// Ticks multiply by this on the way to media time: the time base's
    /// numerator.
    pub tick_scale: i64,
    pub mode: Mode,
    pub sequence: u32,
    /// Packets whose duration the next decode time has yet to settle.
    pub pending: Seq<Waiting>,
    /// Settled samples not yet closed into a fragment, for
    /// [`Mode::PerCut`].
    pub open: Seq<Ready>,
    /// Added to every decode time; set when the first sample settles.
    pub dts_shift: Option<i64>,
    /// The last computed sample duration, for the stream's final sample.
    pub last_duration: Option<i64>,
}

/// Whether a number is one of 64 bits with a sign.
pub open spec fn in64(n: int) -> bool {
    i64::MIN <= n <= i64::MAX
}

/// The first packet whose decode time is known.
pub open spec fn first_known(pending: Seq<Waiting>) -> Option<nat>
    decreases pending.len(),
{
    if pending.len() == 0 {
        None
    } else if pending[0].dts is Some {
        Some(0)
    } else {
        match first_known(pending.drop_first()) {
            Some(k) => Some(k + 1),
            None => None,
        }
    }
}

/// The step a prefix without decode times is given: the one between the
/// first known decode time, at `k`, and the next, where there is a next.
pub open spec fn known_step(pending: Seq<Waiting>, k: nat) -> Option<int> {
    if k + 1 < pending.len() && pending[k as int + 1].dts is Some {
        Some(pending[k as int + 1].dts.unwrap() - pending[k as int].dts.unwrap())
    } else {
        None
    }
}

/// The decode time of a packet, the first known one being at `k` and the
/// step before it being what it is.
pub open spec fn decode_time(pending: Seq<Waiting>, k: nat, step: int, i: int) -> int {
    match pending[i].dts {
        Some(dts) => dts as int,
        None => pending[k as int].dts.unwrap() - step * (k - i),
    }
}

/// Whether every packet from the first known decode time on has one.
pub open spec fn known_from(pending: Seq<Waiting>, k: nat) -> bool {
    forall|i: int| k <= i < pending.len() ==> (#[trigger] pending[i]).dts is Some
}

/// Whether the times a prefix is given, and the products they come from, are
/// of 64 bits.
pub open spec fn prefix_in64(pending: Seq<Waiting>, k: nat, step: int) -> bool {
    forall|i: int|
        0 <= i < k ==> in64(step * (k - i)) && in64(#[trigger] decode_time(pending, k, step, i))
}

/// One decode time per packet, for as many as are settled or can be worked
/// out now; `None` where a number on the way is wider than 64 bits.
pub open spec fn resolved(pending: Seq<Waiting>, flush: bool) -> Option<Result<Seq<i64>>> {
    match first_known(pending) {
        None => Some(
            Ok(
                if flush {
                    Seq::new(pending.len(), |i: int| pending[i].pts)
                } else {
                    Seq::empty()
                },
            ),
        ),
        Some(k) => match known_step(pending, k) {
            None => if k == 0 || flush {
                resolved_by(pending, k, 0)
            } else {
                Some(Ok(Seq::empty()))
            },
            Some(step) => if in64(step) {
                resolved_by(pending, k, step)
            } else {
                None
            },
        },
    }
}

/// The same, once the step is known.
pub open spec fn resolved_by(pending: Seq<Waiting>, k: nat, step: int) -> Option<Result<Seq<i64>>> {
    if !prefix_in64(pending, k, step) {
        None
    } else if !known_from(pending, k) {
        Some(Err(Error::format("a packet with no decode time after one settled")))
    } else {
        Some(Ok(Seq::new(pending.len(), |i: int| decode_time(pending, k, step, i) as i64)))
    }
}

/// The sample flags of §8.8.3: `sample_depends_on` 2 (an I picture) on a
/// sync sample, 1 with `sample_is_non_sync_sample` set on anything else.
pub open spec fn sample_flags(keyframe: bool) -> u32 {
    if keyframe {
        0x0200_0000
    } else {
        0x0101_0000
    }
}

/// The duration of the sample `i`: its own, else the step to the next decode
/// time, else the last one known. `None` where the step is wider than 64
/// bits.
pub open spec fn duration_of(
    sample: Waiting,
    dts: Seq<i64>,
    i: int,
    last: Option<i64>,
) -> Option<Result<i64>> {
    match sample.duration {
        Some(own) => Some(Ok(own)),
        None => if i + 1 < dts.len() {
            let step = dts[i + 1] - dts[i];
            if !in64(step) {
                None
            } else if step < 0 {
                Some(Err(Error::format("a decode time that steps backwards")))
            } else {
                Some(Ok(step as i64))
            }
        } else {
            Some(
                Ok(
                    match last {
                        Some(last) => last,
                        None => 0,
                    },
                ),
            )
        },
    }
}

impl Mux {
    /// What holds of a muxer at every moment.
    pub open spec fn wf(self) -> bool {
        &&& self.plan.content.carried()
        &&& self.plan.content.config().len() > 0
        &&& 1 <= self.plan.timescale <= i32::MAX
        &&& 1 <= self.plan.movie_timescale
        &&& 1 <= self.plan.track_id
        &&& 1 <= self.tick_scale <= i32::MAX
        &&& 1 <= self.sequence
        &&& forall|i: int|
            0 <= i < self.pending.len() ==> (#[trigger] self.pending[i]).data.len() > 0
    }

    /// How much every decode time is moved up, once one is known: enough to
    /// bring a negative first one to zero.
    pub open spec fn shift_for(self, dts: i64) -> int {
        match self.dts_shift {
            Some(shift) => shift as int,
            None => if dts < 0 {
                -dts
            } else {
                0
            },
        }
    }

    /// One settled sample into the fragment being built; `None` where a
    /// number on the way is wider than 64 bits.
    pub open spec fn settle(self, sample: Waiting, dts: i64, duration: i64) -> Option<
        (Result<()>, Mux),
    > {
        let shift = self.shift_for(dts);
        let base = dts + shift;
        let offset = sample.pts - dts;
        let cts = offset * self.tick_scale;
        let length = duration * self.tick_scale;
        let next = Mux { dts_shift: Some(shift as i64), ..self };
        if !in64(shift) || !in64(base) {
            None
        } else if base < 0 {
            Some((Err(Error::format("a decode time below the stream's start")), next))
        } else if !in64(offset) || !in64(cts) {
            None
        } else if !(i32::MIN <= cts <= i32::MAX) {
            Some((Err(Error::format("a presentation offset that overflows its field")), next))
        } else if !in64(length) {
            None
        } else if !(0 <= length <= u32::MAX) {
            Some((Err(Error::format("a duration that overflows its field")), next))
        } else if !in64(base * self.tick_scale) {
            None
        } else {
            Some(
                (
                    Ok(()),
                    Mux {
                        open: self.open.push(
                            Ready {
                                data: sample.data,
                                pts: sample.pts,
                                base_decode_time: (base * self.tick_scale) as u64,
                                entry: TrunEntry {
                                    duration: length as u32,
                                    size: low32(sample.data.len()),
                                    flags: sample_flags(sample.keyframe),
                                    cts: cts as i32,
                                },
                            },
                        ),
                        ..next
                    },
                ),
            )
        }
    }

    /// The fragment over whatever is open.
    pub open spec fn piece(self) -> Piece {
        let first = self.open[0];
        Piece {
            bytes: moof_bytes(
                self.plan.track_id,
                self.sequence,
                first.base_decode_time,
                entries_of(self.open),
            ) + boxed_spec(MDAT, data_of(self.open)),
            sequence: self.sequence,
            base_decode_time: first.base_decode_time,
            keyframe: !set_in(first.entry.flags, NON_SYNC),
            pts: first.pts,
            samples: self.open.len(),
        }
    }

    /// Closes a fragment over whatever is open; `None` where the sequence
    /// numbers have run out or the fragment is longer than memory.
    pub open spec fn close(self) -> Option<(Option<Piece>, Mux)> {
        if self.open.len() == 0 {
            Some((None, self))
        } else if self.sequence == u32::MAX || moof_len(self.open.len()) + 8 > usize::MAX || 8
            + data_of(self.open).len() > usize::MAX {
            None
        } else {
            Some(
                (
                    Some(self.piece()),
                    Mux { open: Seq::empty(), sequence: (self.sequence + 1) as u32, ..self },
                ),
            )
        }
    }

    /// Settles samples one after another, each leaving as a fragment of its
    /// own unless the mode says to wait.
    pub open spec fn emit(self, samples: Seq<Waiting>, dts: Seq<i64>, i: int) -> Option<
        (Result<Seq<Piece>>, Mux),
    >
        decreases samples.len(),
    {
        if samples.len() == 0 {
            Some((Ok(Seq::empty()), self))
        } else {
            match duration_of(samples[0], dts, i, self.last_duration) {
                None => None,
                Some(Err(err)) => Some((Err(err), self)),
                Some(Ok(duration)) => {
                    let timed = Mux {
                        last_duration: if duration > 0 {
                            Some(duration)
                        } else {
                            self.last_duration
                        },
                        ..self
                    };
                    match timed.settle(samples[0], dts[i], duration) {
                        None => None,
                        Some((Err(err), next)) => Some((Err(err), next)),
                        Some((Ok(_), next)) => if self.mode == Mode::PerCut {
                            next.emit(samples.drop_first(), dts, i + 1)
                        } else {
                            match next.close() {
                                None => None,
                                Some((piece, next)) => match next.emit(
                                    samples.drop_first(),
                                    dts,
                                    i + 1,
                                ) {
                                    None => None,
                                    Some((rest, last)) => Some(
                                        (
                                            match piece {
                                                None => rest,
                                                Some(piece) => joined(seq![piece], rest),
                                            },
                                            last,
                                        ),
                                    ),
                                },
                            }
                        },
                    }
                },
            }
        }
    }

    /// How many of the packets that wait can go, their decode times being
    /// known: all of them, but for a last one whose duration is not.
    pub open spec fn going(self, dts: Seq<i64>, flush: bool) -> nat {
        if !flush && dts.len() > 0 && self.pending[dts.len() - 1].duration is None {
            (dts.len() - 1) as nat
        } else {
            dts.len()
        }
    }

    /// Emits every packet whose decode time and duration are settled.
    pub open spec fn drained(self, flush: bool) -> Option<(Result<Seq<Piece>>, Mux)> {
        match resolved(self.pending, flush) {
            None => None,
            Some(Err(err)) => Some((Err(err), self)),
            Some(Ok(dts)) => {
                let count = self.going(dts, flush);
                (Mux { pending: self.pending.skip(count as int), ..self }).emit(
                    self.pending.take(count as int),
                    dts,
                    0,
                )
            },
        }
    }

    /// One more packet; `None` where a number on the way is wider than the
    /// machine's.
    pub open spec fn taken(self, one: Waiting) -> Option<(Result<Seq<Piece>>, Mux)> {
        if one.data.len() == 0 {
            Some((Err(Error::format("a packet with no bytes")), self))
        } else {
            (Mux { pending: self.pending.push(one), ..self }).drained(false)
        }
    }

    /// One more packet, as a caller hands it over.
    pub open spec fn pushed(self, packet: Packet<'_>) -> Option<(Result<Seq<Piece>>, Mux)> {
        self.taken(held(packet))
    }

    /// Everything that is left; `None` as for a push.
    pub open spec fn finished(self) -> Option<(Result<Seq<Piece>>, Mux)> {
        match self.drained(true) {
            None => None,
            Some((Err(err), next)) => Some((Err(err), next)),
            Some((Ok(pieces), next)) => match next.close() {
                None => None,
                Some((None, last)) => Some((Ok(pieces), last)),
                Some((Some(piece), last)) => Some((Ok(pieces.push(piece)), last)),
            },
        }
    }
}

// ------------------------------------------------------------------ //
// The muxer.
// ------------------------------------------------------------------ //
/// Builds an init segment once and fragments as packets arrive.
#[derive(Debug)]
pub struct Muxer {
    timescale: u32,
    movie_timescale: u32,
    tick_scale: i64,
    kind: Kind,
    mode: Mode,
    track_id: u32,
    sequence: u32,
    pending: VecDeque<Held>,
    open: Vec<Settled>,
    dts_shift: Option<i64>,
    last_duration: Option<i64>,
}

impl View for Muxer {
    type V = Mux;

    closed spec fn view(&self) -> Mux {
        Mux {
            plan: Plan {
                content: self.kind@,
                timescale: self.timescale,
                movie_timescale: self.movie_timescale,
                track_id: self.track_id,
            },
            tick_scale: self.tick_scale,
            mode: self.mode,
            sequence: self.sequence,
            pending: waiting_of(self.pending@),
            open: ready_of(self.open@),
            dts_shift: self.dts_shift,
            last_duration: self.last_duration,
        }
    }
}

/// A muxer that has been given no packet.
pub open spec fn fresh(content: Content, time_base_num: i32, time_base_den: i32) -> Mux {
    Mux {
        plan: Plan {
            content,
            timescale: time_base_den as u32,
            movie_timescale: DEFAULT_MOVIE_TIMESCALE,
            track_id: 1,
        },
        tick_scale: time_base_num as i64,
        mode: Mode::PerSample,
        sequence: 1,
        pending: Seq::empty(),
        open: Seq::empty(),
        dts_shift: None,
        last_duration: None,
    }
}

/// Why there is no muxer for a track, where there is none.
pub open spec fn refusal(content: Content, time_base_num: i32, time_base_den: i32) -> Option<
    Error,
> {
    let time_base = if time_base_num <= 0 || time_base_den <= 0 {
        Some(Error::format("a time base that is not positive"))
    } else {
        None
    };
    match content {
        Content::Video { kind, config, .. } => if !content.carried() {
            Some(
                Error::unsupported("a video sample entry this crate has no carriage for").in_box(
                    kind,
                ),
            )
        } else if config.len() == 0 {
            Some(
                Error::format(
                    "a video track with no decoder configuration record to put in its sample entry",
                ),
            )
        } else {
            time_base
        },
        Content::Audio { channels, config, .. } => if config.len() == 0 {
            Some(
                Error::format(
                    "an audio track with no AudioSpecificConfig, so no esds can be built",
                ),
            )
        } else if channels == 0 {
            Some(Error::format("an audio track that declares no channels"))
        } else {
            time_base
        },
    }
}

impl Muxer {
    /// A muxer for one coded video track.
    pub fn video(video: Video, time_base_num: i32, time_base_den: i32) -> (mux: Result<Self>)
        ensures
            match mux {
                Ok(mux) => refusal(video@, time_base_num, time_base_den) is None && mux@ == fresh(
                    video@,
                    time_base_num,
                    time_base_den,
                ) && mux@.wf(),
                Err(err) => refusal(video@, time_base_num, time_base_den) == Some(err),
            },
    {
        let known: bool = match SampleEntry::config_box(&video.kind) {
            Some(config_box) => !same(config_box, &ESDS),
            None => false,
        };
        if !known {
            return Err(
                Error::unsupported("a video sample entry this crate has no carriage for").in_box(
                    video.kind,
                ),
            );
        }
        if video.config.len() == 0 {
            return Err(
                Error::format(
                    "a video track with no decoder configuration record to put in its sample entry",
                ),
            );
        }
        Self::build(Kind::Video(video), time_base_num, time_base_den)
    }

    /// A muxer for one coded AAC track.
    pub fn audio(audio: Audio, time_base_num: i32, time_base_den: i32) -> (mux: Result<Self>)
        ensures
            match mux {
                Ok(mux) => refusal(audio@, time_base_num, time_base_den) is None && mux@ == fresh(
                    audio@,
                    time_base_num,
                    time_base_den,
                ) && mux@.wf(),
                Err(err) => refusal(audio@, time_base_num, time_base_den) == Some(err),
            },
    {
        if audio.config.len() == 0 {
            return Err(
                Error::format(
                    "an audio track with no AudioSpecificConfig, so no esds can be built",
                ),
            );
        }
        if audio.channels == 0 {
            return Err(Error::format("an audio track that declares no channels"));
        }
        Self::build(Kind::Audio(audio), time_base_num, time_base_den)
    }

    fn build(kind: Kind, time_base_num: i32, time_base_den: i32) -> (mux: Result<Self>)
        requires
            kind@.carried(),
            kind@.config().len() > 0,
        ensures
            match mux {
                Ok(mux) => time_base_num > 0 && time_base_den > 0 && mux@ == fresh(
                    kind@,
                    time_base_num,
                    time_base_den,
                ) && mux@.wf(),
                Err(err) => (time_base_num <= 0 || time_base_den <= 0) && err == Error::format(
                    "a time base that is not positive",
                ),
            },
    {
        if time_base_num <= 0 || time_base_den <= 0 {
            return Err(Error::format("a time base that is not positive"));
        }
        let mux = Muxer {
            timescale: time_base_den as u32,
            movie_timescale: DEFAULT_MOVIE_TIMESCALE,
            tick_scale: time_base_num as i64,
            kind,
            mode: Mode::PerSample,
            track_id: 1,
            sequence: 1,
            pending: VecDeque::new(),
            open: Vec::new(),
            dts_shift: None,
            last_duration: None,
        };
        proof {
            assert(mux@.pending =~= Seq::empty());
            assert(mux@.open =~= Seq::empty());
        }
        Ok(mux)
    }

    /// When fragments close. The default is [`Mode::PerSample`].
    pub fn with_mode(self, mode: Mode) -> (mux: Self)
        ensures
            mux@ == (Mux { mode, ..self@ }),
            self@.wf() ==> mux@.wf(),
    {
        let mut mux = self;
        mux.mode = mode;
        mux
    }

    /// The movie timescale the `mvhd` declares (§8.2.2). The default is
    /// [`DEFAULT_MOVIE_TIMESCALE`]. Nothing this crate writes is counted in
    /// it, because it writes no edit list and no durations in the `moov`,
    /// but a reader that prints it should be told the truth.
    pub fn with_movie_timescale(self, timescale: u32) -> (mux: Self)
        ensures
            mux@ == (Mux {
                plan: Plan {
                    movie_timescale: if timescale == 0 {
                        1
                    } else {
                        timescale
                    },
                    ..self@.plan
                },
                ..self@
            }),
            self@.wf() ==> mux@.wf(),
    {
        let mut mux = self;
        mux.movie_timescale = if timescale == 0 {
            1
        } else {
            timescale
        };
        mux
    }

    /// The `track_ID` every box that names one will carry (§8.3.2).
    pub fn with_track_id(self, track_id: u32) -> (mux: Self)
        ensures
            mux@ == (Mux {
                plan: Plan {
                    track_id: if track_id == 0 {
                        1
                    } else {
                        track_id
                    },
                    ..self@.plan
                },
                ..self@
            }),
            self@.wf() ==> mux@.wf(),
    {
        let mut mux = self;
        mux.track_id = if track_id == 0 {
            1
        } else {
            track_id
        };
        mux
    }

    /// The media timescale, which is the time base's denominator.
    pub fn timescale(&self) -> (timescale: u32)
        ensures
            timescale == self@.plan.timescale,
    {
        self.timescale
    }

    /// The decoder configuration record this muxer writes into its sample
    /// entry, as it was given.
    pub fn config(&self) -> (config: &[u8])
        ensures
            config@ == self@.plan.content.config(),
    {
        match &self.kind {
            Kind::Video(video) => video.config.as_slice(),
            Kind::Audio(audio) => audio.config.as_slice(),
        }
    }

    fn entry_kind(&self) -> (kind: [u8; 4])
        ensures
            kind == self@.plan.content.entry_kind(),
    {
        match &self.kind {
            Kind::Video(video) => video.kind,
            Kind::Audio(_) => MP4A,
        }
    }

    fn ftyp(&self) -> (out: Vec<u8>)
        ensures
            out@ == boxed_spec(FTYP, self@.plan.ftyp()),
    {
        broadcast use group_enc_len;

        let mut payload: Vec<u8> = Vec::new();
        put(&mut payload, ISO5.as_slice());  // major brand
        put32(&mut payload, 512);  // minor version
        put(&mut payload, ISO5.as_slice());
        put(&mut payload, ISOM.as_slice());
        put(&mut payload, self.entry_kind().as_slice());
        put(&mut payload, MP41.as_slice());
        assert(payload@ =~= self@.plan.ftyp());
        boxed(&FTYP, payload.as_slice())
    }

    /// One settled sample into the fragment being built.
    fn settle(&mut self, sample: Held, dts: i64, duration: i64) -> (done: Result<()>)
        requires
            old(self)@.wf(),
            old(self)@.settle(sample@, dts, duration) is Some,
        ensures
            settled(done),
            Some((done, final(self)@)) == old(self)@.settle(sample@, dts, duration),
    {
        let shift: i64 = match self.dts_shift {
            Some(shift) => shift,
            None => if dts < 0 {
                -dts
            } else {
                0
            },
        };
        self.dts_shift = Some(shift);
        let base_decode_time: i64 = dts + shift;
        if base_decode_time < 0 {
            return Err(Error::format("a decode time below the stream's start"));
        }
        let cts: i64 = (sample.pts - dts) * self.tick_scale;
        if cts < i32::MIN as i64 || cts > i32::MAX as i64 {
            return Err(Error::format("a presentation offset that overflows its field"));
        }
        let length: i64 = duration * self.tick_scale;
        if length < 0 || length > u32::MAX as i64 {
            return Err(Error::format("a duration that overflows its field"));
        }
        // §8.8.3's sample flags: `sample_depends_on` 2 (an I picture) on a
        // sync sample, 1 with `sample_is_non_sync_sample` set on anything
        // else.
        let flags: u32 = if sample.keyframe {
            0x0200_0000
        } else {
            0x0101_0000
        };
        let size: u32 = (sample.data.len() as u64 % 0x1_0000_0000) as u32;
        let scaled: i64 = base_decode_time * self.tick_scale;
        assert(scaled >= 0) by (nonlinear_arith)
            requires
                scaled == base_decode_time * self.tick_scale,
                base_decode_time >= 0,
                self.tick_scale >= 1,
        ;
        let ghost before = self.open@;
        let ready = Settled {
            pts: sample.pts,
            base_decode_time: scaled as u64,
            entry: TrunEntry { duration: length as u32, size, flags, cts: cts as i32 },
            data: sample.data,
        };
        let ghost made = ready@;
        self.open.push(ready);
        assert(ready_of(self.open@) =~= ready_of(before).push(made));
        Ok(())
    }

    /// Closes a fragment over whatever is open.
    fn close(&mut self) -> (out: Option<Fragment>)
        requires
            old(self)@.close() is Some,
        ensures
            match out {
                Some(out) => old(self)@.close() == Some((Some(out@), final(self)@)),
                None => old(self)@.close() == Some((None::<Piece>, final(self)@)),
            },
    {
        broadcast use {group_enc_len, group_box_len};

        if self.open.len() == 0 {
            return None;
        }
        let mut held: Vec<Settled> = Vec::new();
        core::mem::swap(&mut held, &mut self.open);
        let ghost list = ready_of(held@);
        let base_decode_time: u64 = held[0].base_decode_time;
        let pts: i64 = held[0].pts;
        let keyframe: bool = held[0].entry.flags & NON_SYNC == 0;
        let samples: usize = held.len();
        let mut entries: Vec<TrunEntry> = Vec::new();
        let mut data: Vec<u8> = Vec::new();
        let mut index: usize = 0;
        proof {
            assert(entries@ =~= entries_of(list.take(0)));
            assert(data@ =~= data_of(list.take(0)));
        }
        while index < held.len()
            invariant
                index <= held@.len(),
                list == ready_of(held@),
                entries@ == entries_of(list.take(index as int)),
                data@ == data_of(list.take(index as int)),
            decreases held@.len() - index,
        {
            proof {
                assert(list.take(index + 1).drop_last() =~= list.take(index as int));
                assert(list[index as int] == held@[index as int]@);
            }
            entries.push(held[index].entry);
            put(&mut data, held[index].data.as_slice());
            index = index + 1;
            assert(entries@ =~= entries_of(list.take(index as int)));
        }
        assert(list.take(index as int) =~= list);
        let mut bytes: Vec<u8> = moof(
            self.track_id,
            self.sequence,
            base_decode_time,
            entries.as_slice(),
        );
        let mdat: Vec<u8> = boxed(&MDAT, data.as_slice());
        put(&mut bytes, mdat.as_slice());
        let fragment = Fragment {
            bytes,
            sequence: self.sequence,
            base_decode_time,
            keyframe,
            pts,
            samples,
        };
        self.sequence = self.sequence + 1;
        assert(ready_of(self.open@) =~= Seq::empty());
        Some(fragment)
    }

    /// Closes a fragment over every settled sample held so far, for
    /// [`Mode::PerCut`]. `None` when nothing is held.
    ///
    /// In [`Mode::PerSample`] nothing is ever held, so this is always
    /// `None`.
    pub fn cut(&mut self) -> (out: Result<Option<Fragment>>)
        requires
            old(self)@.wf(),
            old(self)@.close() is Some,
        ensures
            match out {
                Ok(Some(out)) => old(self)@.close() == Some((Some(out@), final(self)@)),
                Ok(None) => old(self)@.close() == Some((None::<Piece>, final(self)@)),
                Err(_) => false,
            },
            final(self)@.wf(),
    {
        Ok(self.close())
    }
}

impl Muxer {
    fn stbl(&self) -> (out: Vec<u8>)
        requires
            self@.wf(),
            self@.plan.content.config().len() + 1024 <= usize::MAX,
        ensures
            out@ == boxed_spec(STBL, laid(self@.plan.stbl())),
            out@.len() <= self@.plan.content.config().len() + 260,
    {
        broadcast use {group_enc_len, group_box_len};

        let ghost list = self@.plan.stbl();
        proof {
            lemma_entry_len(self@.plan.content);
            lemma_laid(list[0], list[1], list[2], list[3], list[4]);
        }
        let entry: Vec<u8> = match &self.kind {
            Kind::Video(video) => visual_entry(video),
            Kind::Audio(audio) => audio_entry(audio),
        };
        let mut payload: Vec<u8> = Vec::new();
        put32(&mut payload, 1);  // entry_count
        put(&mut payload, entry.as_slice());
        let mut four: Vec<u8> = Vec::new();
        put_zeros(&mut four, 4);
        let mut eight: Vec<u8> = Vec::new();
        put_zeros(&mut eight, 8);
        assert(four@ =~= zeros(4) && eight@ =~= zeros(8));
        let stsd: Vec<u8> = full_boxed(&STSD, 0, 0, payload.as_slice());
        let stts: Vec<u8> = full_boxed(&STTS, 0, 0, four.as_slice());
        let stsc: Vec<u8> = full_boxed(&STSC, 0, 0, four.as_slice());
        let stsz: Vec<u8> = full_boxed(&STSZ, 0, 0, eight.as_slice());
        let stco: Vec<u8> = full_boxed(&STCO, 0, 0, four.as_slice());
        let mut inside: Vec<u8> = Vec::new();
        put(&mut inside, stsd.as_slice());
        put(&mut inside, stts.as_slice());
        put(&mut inside, stsc.as_slice());
        put(&mut inside, stsz.as_slice());
        put(&mut inside, stco.as_slice());
        assert(inside@ =~= laid(list));
        boxed(&STBL, inside.as_slice())
    }

    fn minf(&self) -> (out: Vec<u8>)
        requires
            self@.wf(),
            self@.plan.content.config().len() + 1024 <= usize::MAX,
        ensures
            out@ == boxed_spec(MINF, laid(self@.plan.minf())),
            out@.len() <= self@.plan.content.config().len() + 340,
    {
        broadcast use {group_enc_len, group_box_len};

        let ghost list = self@.plan.minf();
        let ghost inner = self@.plan.dinf();
        proof {
            lemma_laid(list[0], list[1], list[2], list[0], list[0]);
            lemma_laid(inner[0], list[0], list[0], list[0], list[0]);
        }
        let media_header: Vec<u8> = match &self.kind {
            Kind::Video(_) => {
                let mut eight: Vec<u8> = Vec::new();
                put_zeros(&mut eight, 8);
                assert(eight@ =~= zeros(8));
                full_boxed(&VMHD, 0, 1, eight.as_slice())
            },
            // balance and reserved, both zero.
            Kind::Audio(_) => {
                let mut four: Vec<u8> = Vec::new();
                put_zeros(&mut four, 4);
                assert(four@ =~= zeros(4));
                full_boxed(&SMHD, 0, 0, four.as_slice())
            },
        };
        let none: Vec<u8> = Vec::new();
        assert(none@ =~= Seq::empty());
        let url: Vec<u8> = full_boxed(&URL, 0, 1, none.as_slice());
        let mut payload: Vec<u8> = Vec::new();
        put32(&mut payload, 1);  // entry_count
        put(&mut payload, url.as_slice());
        let dref: Vec<u8> = full_boxed(&DREF, 0, 0, payload.as_slice());
        let dinf: Vec<u8> = boxed(&DINF, dref.as_slice());
        let stbl: Vec<u8> = self.stbl();
        let mut inside: Vec<u8> = Vec::new();
        put(&mut inside, media_header.as_slice());
        put(&mut inside, dinf.as_slice());
        put(&mut inside, stbl.as_slice());
        assert(inside@ =~= laid(list));
        boxed(&MINF, inside.as_slice())
    }

    fn mdia(&self) -> (out: Vec<u8>)
        requires
            self@.wf(),
            self@.plan.content.config().len() + 1024 <= usize::MAX,
        ensures
            out@ == boxed_spec(MDIA, laid(self@.plan.mdia())),
            out@.len() <= self@.plan.content.config().len() + 440,
    {
        broadcast use {group_enc_len, group_box_len};

        let ghost list = self@.plan.mdia();
        proof {
            lemma_laid(list[0], list[1], list[2], list[0], list[0]);
        }
        let mut payload: Vec<u8> = Vec::new();
        put_zeros(&mut payload, 8);  // creation, modification
        put32(&mut payload, self.timescale);
        put_zeros(&mut payload, 4);  // duration: told by fragments
        put16(&mut payload, 0x55c4);  // und
        put_zeros(&mut payload, 2);
        assert(payload@ =~= self@.plan.mdhd());
        let mdhd: Vec<u8> = full_boxed(&MDHD, 0, 0, payload.as_slice());
        let mut payload: Vec<u8> = Vec::new();
        put_zeros(&mut payload, 4);  // pre_defined
        match &self.kind {
            Kind::Video(_) => {
                put(&mut payload, VIDE.as_slice());
                put_zeros(&mut payload, 12);
                put(&mut payload, VIDEO_HANDLER.as_slice());
            },
            Kind::Audio(_) => {
                put(&mut payload, SOUN.as_slice());
                put_zeros(&mut payload, 12);
                put(&mut payload, SOUND_HANDLER.as_slice());
            },
        }
        assert(payload@ =~= self@.plan.hdlr());
        let hdlr: Vec<u8> = full_boxed(&HDLR, 0, 0, payload.as_slice());
        let minf: Vec<u8> = self.minf();
        let mut inside: Vec<u8> = Vec::new();
        put(&mut inside, mdhd.as_slice());
        put(&mut inside, hdlr.as_slice());
        put(&mut inside, minf.as_slice());
        assert(inside@ =~= laid(list));
        boxed(&MDIA, inside.as_slice())
    }

    fn trak(&self) -> (out: Vec<u8>)
        requires
            self@.wf(),
            self@.plan.content.config().len() + 1024 <= usize::MAX,
        ensures
            out@ == boxed_spec(TRAK, laid(self@.plan.trak())),
            out@.len() <= self@.plan.content.config().len() + 560,
    {
        broadcast use {group_enc_len, group_box_len};

        let ghost list = self@.plan.trak();
        proof {
            lemma_laid(list[0], list[1], list[0], list[0], list[0]);
        }
        // A video track states its frame size and no volume; an audio track
        // states full volume and no frame size.
        let (volume, width, height): (u16, u32, u32) = match &self.kind {
            Kind::Video(video) => (0, video.width, video.height),
            Kind::Audio(_) => (0x0100, 0, 0),
        };
        let mut payload: Vec<u8> = Vec::new();
        put_zeros(&mut payload, 8);  // creation, modification
        put32(&mut payload, self.track_id);
        put_zeros(&mut payload, 4);  // reserved
        put_zeros(&mut payload, 4);  // duration: told by fragments
        put_zeros(&mut payload, 8);  // reserved
        put_zeros(&mut payload, 4);  // layer, alternate group
        put16(&mut payload, volume);
        put_zeros(&mut payload, 2);  // reserved
        put(&mut payload, MATRIX.as_slice());
        put32(&mut payload, width % 0x1_0000 * 0x1_0000);
        put32(&mut payload, height % 0x1_0000 * 0x1_0000);
        assert(payload@ =~= self@.plan.tkhd());
        let tkhd: Vec<u8> = full_boxed(&TKHD, 0, 3, payload.as_slice());
        let mdia: Vec<u8> = self.mdia();
        let mut inside: Vec<u8> = Vec::new();
        put(&mut inside, tkhd.as_slice());
        put(&mut inside, mdia.as_slice());
        assert(inside@ =~= laid(list));
        boxed(&TRAK, inside.as_slice())
    }

    fn mvex(&self) -> (out: Vec<u8>)
        ensures
            out@ == boxed_spec(MVEX, laid(self@.plan.mvex())),
            out@.len() == 40,
    {
        broadcast use {group_enc_len, group_box_len};

        let ghost list = self@.plan.mvex();
        proof {
            lemma_laid(list[0], list[0], list[0], list[0], list[0]);
        }
        let mut payload: Vec<u8> = Vec::new();
        put32(&mut payload, self.track_id);
        put32(&mut payload, 1);  // sample description
        put_zeros(&mut payload, 12);  // default duration, size, flags
        assert(payload@ =~= enc32(self@.plan.track_id) + enc32(1) + zeros(12));
        let trex: Vec<u8> = full_boxed(&TREX, 0, 0, payload.as_slice());
        boxed(&MVEX, trex.as_slice())
    }

    fn moov(&self) -> (out: Vec<u8>)
        requires
            self@.wf(),
            self@.plan.content.config().len() + 1024 <= usize::MAX,
        ensures
            out@ == boxed_spec(MOOV, laid(self@.plan.moov())),
    {
        broadcast use {group_enc_len, group_box_len};

        let ghost list = self@.plan.moov();
        proof {
            lemma_laid(list[0], list[1], list[2], list[0], list[0]);
        }
        let next: u32 = if self.track_id == u32::MAX {
            u32::MAX
        } else {
            self.track_id + 1
        };
        let mut payload: Vec<u8> = Vec::new();
        put_zeros(&mut payload, 8);  // creation, modification
        put32(&mut payload, self.movie_timescale);
        put_zeros(&mut payload, 4);  // duration: told by fragments
        put32(&mut payload, 0x0001_0000);  // rate 1.0
        put16(&mut payload, 0x0100);  // volume 1.0
        put_zeros(&mut payload, 10);  // reserved
        put(&mut payload, MATRIX.as_slice());
        put_zeros(&mut payload, 24);  // pre_defined
        put32(&mut payload, next);
        assert(payload@ =~= self@.plan.mvhd());
        let mvhd: Vec<u8> = full_boxed(&MVHD, 0, 0, payload.as_slice());
        let trak: Vec<u8> = self.trak();
        let mvex: Vec<u8> = self.mvex();
        let mut inside: Vec<u8> = Vec::new();
        put(&mut inside, mvhd.as_slice());
        put(&mut inside, trak.as_slice());
        put(&mut inside, mvex.as_slice());
        assert(inside@ =~= laid(list));
        boxed(&MOOV, inside.as_slice())
    }

    /// The `ftyp`+`moov` a decoder reads before any fragment.
    pub fn init_segment(&self) -> (out: Vec<u8>)
        requires
            self@.wf(),
            self@.plan.content.config().len() + 1024 <= usize::MAX,
        ensures
            out@ == laid(self@.plan.init()),
    {
        let ghost list = self@.plan.init();
        proof {
            lemma_laid(list[0], list[1], list[0], list[0], list[0]);
        }
        let mut out: Vec<u8> = self.ftyp();
        let moov: Vec<u8> = self.moov();
        put(&mut out, moov.as_slice());
        out
    }
}

/// Where the first known decode time is.
pub proof fn lemma_first_known(pending: Seq<Waiting>)
    ensures
        match first_known(pending) {
            Some(k) => {
                &&& k < pending.len()
                &&& pending[k as int].dts is Some
                &&& forall|i: int| 0 <= i < k ==> (#[trigger] pending[i]).dts is None
            },
            None => forall|i: int| 0 <= i < pending.len() ==> (#[trigger] pending[i]).dts is None,
        },
    decreases pending.len(),
{
    if pending.len() > 0 && pending[0].dts is None {
        let rest = pending.drop_first();
        lemma_first_known(rest);
        match first_known(rest) {
            Some(k) => {
                assert forall|i: int| 0 <= i < k + 1 implies (#[trigger] pending[i]).dts is None by {
                    if i > 0 {
                        assert(pending[i] == rest[i - 1]);
                    }
                }
            },
            None => {
                assert forall|i: int| 0 <= i < pending.len() implies (
                #[trigger] pending[i]).dts is None by {
                    if i > 0 {
                        assert(pending[i] == rest[i - 1]);
                    }
                }
            },
        }
    }
}

impl Muxer {
    /// The first packet whose decode time is known.
    fn first_known(&self) -> (index: Option<usize>)
        ensures
            match index {
                Some(k) => first_known(self@.pending) == Some(k as nat),
                None => first_known(self@.pending) is None,
            },
    {
        let ghost list = self@.pending;
        let mut index: usize = 0;
        assert(list.skip(0) =~= list);
        while index < self.pending.len()
            invariant
                index <= self.pending@.len(),
                list == self@.pending,
                list.len() == self.pending@.len(),
                match first_known(list.skip(index as int)) {
                    Some(k) => first_known(list) == Some((k + index) as nat),
                    None => first_known(list) is None,
                },
            decreases self.pending@.len() - index,
        {
            assert(list.skip(index as int)[0] == self.pending@[index as int]@);
            assert(list.skip(index as int).drop_first() =~= list.skip(index + 1));
            if self.pending[index].dts.is_some() {
                return Some(index);
            }
            index = index + 1;
        }
        None
    }

    /// One decode time per pending sample, for as many as are settled or
    /// synthesizable now: settled ones as they came, an unsettled prefix
    /// synthesized backwards from the first settled pair at its step. Empty
    /// while nothing has settled, or while a prefix waits for the pair; a
    /// flush resolves everything, presentation order standing in for a
    /// stream that never settled a decode time.
    fn resolved_dts(&self, flush: bool) -> (out: Result<Vec<i64>>)
        requires
            resolved(self@.pending, flush) is Some,
        ensures
            settled(out),
            Some(seen(out)) == resolved(self@.pending, flush),
    {
        let ghost list = self@.pending;
        let len: usize = self.pending.len();
        let mut out: Vec<i64> = Vec::new();
        proof {
            lemma_first_known(list);
        }
        let k: usize = match self.first_known() {
            Some(k) => k,
            // No decode time settled anywhere: at end of input this is a
            // stream that does not reorder, where presentation order is
            // decode order.
            None => {
                if flush {
                    let mut index: usize = 0;
                    while index < len
                        invariant
                            index <= len,
                            list == self@.pending,
                            len == self.pending@.len(),
                            len == list.len(),
                            out@ == Seq::new(index as nat, |i: int| list[i].pts),
                        decreases len - index,
                    {
                        out.push(self.pending[index].pts);
                        index = index + 1;
                        assert(out@ =~= Seq::new(index as nat, |i: int| list[i].pts));
                    }
                } else {
                    assert(out@ =~= Seq::empty());
                }
                return Ok(out);
            },
        };
        let known: i64 = match self.pending[k].dts {
            Some(known) => known,
            None => 0,
        };
        assert(list[k as int] == self.pending@[k as int]@);
        let next: Option<i64> = if k + 1 < len {
            assert(list[k + 1] == self.pending@[k + 1]@);
            self.pending[k + 1].dts
        } else {
            None
        };
        let step: i64 = match next {
            Some(next) => next - known,
            // No prefix to synthesize, so no step is needed.
            None => if k == 0 || flush {
                0
            } else {
                // Hold the prefix until a second decode time sets the step.
                assert(out@ =~= Seq::empty());
                return Ok(out);
            },
        };
        assert(resolved(list, flush) == resolved_by(list, k as nat, step as int));
        let mut index: usize = 0;
        while index < len
            invariant
                index <= len,
                list == self@.pending,
                len == self.pending@.len(),
                len == list.len(),
                k < len,
                known == list[k as int].dts.unwrap(),
                forall|i: int| 0 <= i < k ==> (#[trigger] list[i]).dts is None,
                resolved(list, flush) == resolved_by(list, k as nat, step as int),
                prefix_in64(list, k as nat, step as int),
                forall|i: int| k <= i < index ==> (#[trigger] list[i]).dts is Some,
                out@ == Seq::new(
                    index as nat,
                    |i: int| decode_time(list, k as nat, step as int, i) as i64,
                ),
            decreases len - index,
        {
            assert(list[index as int] == self.pending@[index as int]@);
            match self.pending[index].dts {
                Some(dts) => out.push(dts),
                None => {
                    if index < k {
                        assert(in64(decode_time(list, k as nat, step as int, index as int)));
                        let back: i128 = step as i128 * (k - index) as i128;
                        out.push((known as i128 - back) as i64);
                    } else {
                        return Err(
                            Error::format("a packet with no decode time after one settled"),
                        );
                    }
                },
            }
            index = index + 1;
            assert(out@ =~= Seq::new(
                index as nat,
                |i: int| decode_time(list, k as nat, step as int, i) as i64,
            ));
        }
        Ok(out)
    }

    /// Emits every pending sample whose decode time and duration are
    /// settled.
    ///
    /// A sample's duration is the caller's own where the packet carried one;
    /// only a duration-less tail waits for the next decode time to settle it
    /// as a step. A flush emits everything, such a tail at the last known
    /// duration.
    fn drain(&mut self, flush: bool) -> (out: Result<Vec<Fragment>>)
        requires
            old(self)@.wf(),
            old(self)@.drained(flush) is Some,
        ensures
            settled(out),
            Some((pieces_seen(out), final(self)@)) == old(self)@.drained(flush),
            final(self)@.wf(),
    {
        let ghost list = self@.pending;
        let dts: Vec<i64> = self.resolved_dts(flush)?;
        proof {
            lemma_resolved_len(list, flush);
        }
        // `dts` covers no pending sample or every one of them, so only the
        // final sample can lack a settled duration.
        let mut emit: usize = dts.len();
        if !flush && emit > 0 {
            assert(list[emit - 1] == self.pending@[emit - 1]@);
            if self.pending[emit - 1].duration.is_none() {
                emit = emit - 1;
            }
        }
        assert(emit == self@.going(dts@, flush));
        let mut samples: VecDeque<Held> = self.pending.split_off(emit);
        core::mem::swap(&mut samples, &mut self.pending);
        let ghost start = self@;
        proof {
            assert(waiting_of(samples@) =~= list.take(emit as int));
            assert(waiting_of(self.pending@) =~= list.skip(emit as int));
            assert(start == (Mux { pending: list.skip(emit as int), ..old(self)@ }));
        }
        let ghost owed = start.emit(waiting_of(samples@), dts@, 0);
        let mut out: Vec<Fragment> = Vec::new();
        let mut index: usize = 0;
        proof {
            assert(pieces_of(out@) =~= Seq::empty());
            if let Some((Ok(rest), _)) = owed {
                assert(pieces_of(out@) + rest =~= rest);
            }
        }
        while index < emit
            invariant
                index <= emit,
                emit <= dts@.len(),
                samples@.len() == emit - index,
                self@.wf(),
                self@.mode == start.mode,
                owed is Some,
                owed == old(self)@.drained(flush),
                ({
                    let rest = self@.emit(waiting_of(samples@), dts@, index as int);
                    &&& rest is Some
                    &&& owed.unwrap().1 == rest.unwrap().1
                    &&& owed.unwrap().0 == joined(pieces_of(out@), rest.unwrap().0)
                }),
            decreases emit - index,
        {
            let ghost before = waiting_of(samples@);
            let ghost ahead = self@;
            let sample: Held = match samples.pop_front() {
                Some(sample) => sample,
                None => return Ok(out),
            };
            assert(before[0] == sample@);
            assert(waiting_of(samples@) =~= before.drop_first());
            let duration: i64 = match sample.duration {
                Some(own) => own,
                None => if index + 1 < dts.len() {
                    let step: i64 = dts[index + 1] - dts[index];
                    if step < 0 {
                        return Err(Error::format("a decode time that steps backwards"));
                    }
                    step
                } else {
                    match self.last_duration {
                        Some(last) => last,
                        None => 0,
                    }
                },
            };
            if duration > 0 {
                self.last_duration = Some(duration);
            }
            self.settle(sample, dts[index], duration)?;
            let ghost done = pieces_of(out@);
            if matches!(self.mode, Mode::PerSample) {
                match self.close() {
                    Some(fragment) => {
                        let ghost made = fragment@;
                        out.push(fragment);
                        proof {
                            assert(pieces_of(out@) =~= done.push(made));
                            let rest = self@.emit(waiting_of(samples@), dts@, index + 1);
                            if let Some((Ok(more), _)) = rest {
                                assert(done + (seq![made] + more) =~= pieces_of(out@) + more);
                            }
                        }
                    },
                    None => {},
                }
            }
            index = index + 1;
        }
        proof {
            assert(waiting_of(samples@).len() == 0);
            assert(pieces_of(out@) + Seq::<Piece>::empty() =~= pieces_of(out@));
        }
        Ok(out)
    }

    /// Collects one packet and returns every fragment it settles.
    ///
    /// In [`Mode::PerSample`] that is this packet, when it carries its own
    /// duration; else the packet before it, whose duration its decode time
    /// is; or several, where its decode time settles a held prefix; or none,
    /// while the stream's reorder delay keeps decode times unsettled. In
    /// [`Mode::PerCut`] it is never any until [`cut`](Self::cut) is called.
    pub fn push(&mut self, packet: Packet<'_>) -> (out: Result<Vec<Fragment>>)
        requires
            old(self)@.wf(),
            old(self)@.pushed(packet) is Some,
        ensures
            settled(out),
            Some((pieces_seen(out), final(self)@)) == old(self)@.pushed(packet),
            final(self)@.wf(),
    {
        if packet.data.len() == 0 {
            return Err(Error::format("a packet with no bytes"));
        }
        let ghost before = self.pending@;
        let one = Held {
            data: slice_to_vec(packet.data),
            pts: packet.pts,
            dts: packet.dts,
            duration: match packet.duration {
                Some(own) => if own > 0 {
                    Some(own)
                } else {
                    None
                },
                None => None,
            },
            keyframe: packet.keyframe,
        };
        let ghost made = one@;
        self.pending.push_back(one);
        proof {
            assert(waiting_of(self.pending@) =~= waiting_of(before).push(made));
            assert(made == held(packet));
        }
        self.drain(false)
    }

    /// Flushes everything: a duration-less last sample, whose duration no
    /// following decode time will settle, and any prefix a reorder delay
    /// kept unsettled to the end.
    pub fn finish(&mut self) -> (out: Result<Vec<Fragment>>)
        requires
            old(self)@.wf(),
            old(self)@.finished() is Some,
        ensures
            settled(out),
            Some((pieces_seen(out), final(self)@)) == old(self)@.finished(),
            final(self)@.wf(),
    {
        let mut out: Vec<Fragment> = self.drain(true)?;
        let ghost before = pieces_of(out@);
        match self.close() {
            Some(fragment) => {
                let ghost made = fragment@;
                out.push(fragment);
                assert(pieces_of(out@) =~= before.push(made));
            },
            None => {},
        }
        Ok(out)
    }
}

/// Either no packet has its decode time yet, or every one has.
proof fn lemma_resolved_len(pending: Seq<Waiting>, flush: bool)
    ensures
        resolved(pending, flush) matches Some(Ok(dts)) ==> dts.len() == 0 || dts.len()
            == pending.len(),
{
}

// ------------------------------------------------------------------ //
// What holds of the whole.
// ------------------------------------------------------------------ //
/// The decode timeline is shifted up once: the first sample that settles
/// starts at zero where its decode time is negative and at its own decode
/// time otherwise, and every later one is moved by as much.
pub proof fn law_the_timeline_is_shifted_once(mux: Mux, sample: Waiting, dts: i64, duration: i64)
    requires
        mux.wf(),
    ensures
        mux.settle(sample, dts, duration) matches Some((Ok(_), next)) ==> {
            &&& next.dts_shift == Some(mux.shift_for(dts) as i64)
            &&& next.open.last().base_decode_time == (dts + mux.shift_for(dts)) * mux.tick_scale
            &&& mux.dts_shift is None ==> dts + mux.shift_for(dts) == if dts < 0 {
                0
            } else {
                dts as int
            }
            &&& mux.dts_shift is Some ==> next.dts_shift == mux.dts_shift
        },
{
    if let Some((Ok(_), next)) = mux.settle(sample, dts, duration) {
        let base = dts + mux.shift_for(dts);
        assert(base * mux.tick_scale >= 0) by (nonlinear_arith)
            requires
                base >= 0,
                mux.tick_scale >= 1,
        ;
    }
}

/// A prefix without decode times is synthesized backwards: it steps evenly
/// up to the first decode time that came, at the step to the next that did.
pub proof fn law_a_prefix_steps_evenly(pending: Seq<Waiting>, flush: bool, i: int)
    requires
        first_known(pending) matches Some(k) && 0 <= i < k,
        known_step(pending, first_known(pending).unwrap()) is Some,
    ensures
        resolved(pending, flush) matches Some(Ok(dts)) ==> {
            let k = first_known(pending).unwrap();
            &&& dts[k as int] == pending[k as int].dts.unwrap()
            &&& dts[i + 1] - dts[i] == known_step(pending, k).unwrap()
        },
{
    lemma_first_known(pending);
    let k = first_known(pending).unwrap();
    let step = known_step(pending, k).unwrap();
    if let Some(Ok(dts)) = resolved(pending, flush) {
        assert(pending[i].dts is None);
        assert(in64(decode_time(pending, k, step, i)));
        if i + 1 < k {
            assert(pending[i + 1].dts is None);
            assert(in64(decode_time(pending, k, step, i + 1)));
        }
        assert(step * (k - i) - step * (k - (i + 1)) == step) by (nonlinear_arith);
        assert(step * 0 == 0);
    }
}

/// Closing leaves nothing open, counts the sequence number up by one and
/// touches nothing else.
proof fn lemma_close(mux: Mux)
    ensures
        mux.close() matches Some((piece, next)) ==> {
            &&& next.open.len() == 0
            &&& next == (Mux {
                open: Seq::empty(),
                sequence: (mux.sequence + if piece is Some {
                    1int
                } else {
                    0
                }) as u32,
                ..mux
            })
            &&& (piece is Some) == (mux.open.len() > 0)
            &&& piece matches Some(piece) ==> piece == mux.piece()
        },
{
    if mux.open.len() == 0 {
        assert(mux.open =~= Seq::empty());
    }
}

/// What settling samples keeps: the plan, the mode, the packets that wait
/// and, sample by sample, that nothing stays open and that the sequence
/// numbers count up by one.
pub proof fn lemma_emit(mux: Mux, samples: Seq<Waiting>, dts: Seq<i64>, i: int)
    ensures
        mux.emit(samples, dts, i) matches Some((out, next)) ==> {
            &&& next.plan == mux.plan
            &&& next.mode == mux.mode
            &&& next.tick_scale == mux.tick_scale
            &&& next.pending == mux.pending
            &&& mux.mode == Mode::PerSample && mux.open.len() == 0 ==> next.open.len() == 0
            &&& mux.mode == Mode::PerCut ==> next.sequence == mux.sequence
            &&& out matches Ok(pieces) ==> {
                &&& pieces.len() == if mux.mode == Mode::PerSample {
                    samples.len()
                } else {
                    0
                }
                &&& next.sequence == mux.sequence + pieces.len()
                &&& forall|j: int|
                    0 <= j < pieces.len() ==> (#[trigger] pieces[j]).sequence == mux.sequence + j
                &&& mux.mode == Mode::PerSample && mux.open.len() == 0 ==> forall|j: int|
                    0 <= j < pieces.len() ==> (#[trigger] pieces[j]).samples == 1 && pieces[j].pts
                        == samples[j].pts
            }
        },
    decreases samples.len(),
{
    if samples.len() > 0 {
        if let Some(Ok(duration)) = duration_of(samples[0], dts, i, mux.last_duration) {
            let timed = Mux {
                last_duration: if duration > 0 {
                    Some(duration)
                } else {
                    mux.last_duration
                },
                ..mux
            };
            let rest = samples.drop_first();
            if let Some((Ok(_), next)) = timed.settle(samples[0], dts[i], duration) {
                if mux.mode == Mode::PerCut {
                    lemma_emit(next, rest, dts, i + 1);
                } else {
                    lemma_close(next);
                    if let Some((piece, last)) = next.close() {
                        lemma_emit(last, rest, dts, i + 1);
                        if let Some((Ok(more), _)) = last.emit(rest, dts, i + 1) {
                            let pieces = seq![piece.unwrap()] + more;
                            assert forall|j: int| 0 <= j < pieces.len() implies (
                            #[trigger] pieces[j]).sequence == mux.sequence + j by {
                                if j > 0 {
                                    assert(pieces[j] == more[j - 1]);
                                }
                            }
                            if mux.open.len() == 0 {
                                assert forall|j: int| 0 <= j < pieces.len() implies (
                                #[trigger] pieces[j]).samples == 1 && pieces[j].pts
                                    == samples[j].pts by {
                                    if j > 0 {
                                        assert(pieces[j] == more[j - 1]);
                                        assert(rest[j - 1] == samples[j]);
                                    }
                                }
                            }
                        }
                    }
                }
            }
        }
    }
}

/// One fragment a sample, in the order the packets came: in
/// [`Mode::PerSample`] a push gives as many fragments as it settles packets,
/// each of one sample, with sequence numbers that count up by one; and
/// nothing is ever held open, so a cut gives nothing.
pub proof fn law_per_sample_gives_one_fragment_each(mux: Mux, packet: Packet<'_>)
    requires
        mux.mode == Mode::PerSample,
        mux.open.len() == 0,
    ensures
        mux.pushed(packet) matches Some((out, next)) ==> {
            let waiting = mux.pending.push(held(packet));
            &&& next.open.len() == 0
            &&& next.close() == Some((None::<Piece>, next))
            &&& out matches Ok(pieces) ==> {
                &&& pieces.len() + next.pending.len() == waiting.len()
                &&& next.sequence == mux.sequence + pieces.len()
                &&& forall|j: int|
                    0 <= j < pieces.len() ==> (#[trigger] pieces[j]).sequence == mux.sequence + j
                        && pieces[j].samples == 1 && pieces[j].pts == waiting[j].pts
            }
        },
{
    if packet.data@.len() > 0 {
        let fed = Mux { pending: mux.pending.push(held(packet)), ..mux };
        if let Some(Ok(dts)) = resolved(fed.pending, false) {
            lemma_resolved_len(fed.pending, false);
            let count = fed.going(dts, false) as int;
            let start = Mux { pending: fed.pending.skip(count), ..fed };
            lemma_emit(start, fed.pending.take(count), dts, 0);
        }
    }
}

/// In [`Mode::PerCut`] a push gives no fragment.
pub proof fn law_per_cut_gives_nothing_until_a_cut(mux: Mux, packet: Packet<'_>)
    requires
        mux.mode == Mode::PerCut,
    ensures
        mux.pushed(packet) matches Some((Ok(pieces), next)) ==> pieces.len() == 0 && next.sequence
            == mux.sequence,
{
    if packet.data@.len() > 0 {
        let fed = Mux { pending: mux.pending.push(held(packet)), ..mux };
        if let Some(Ok(dts)) = resolved(fed.pending, false) {
            let count = fed.going(dts, false) as int;
            let start = Mux { pending: fed.pending.skip(count), ..fed };
            lemma_emit(start, fed.pending.take(count), dts, 0);
        }
    }
}

/// A cut closes one fragment over every settled sample.
pub proof fn law_a_cut_closes_over_everything(mux: Mux)
    requires
        mux.open.len() > 0,
    ensures
        mux.close() matches Some((piece, next)) ==> {
            &&& piece matches Some(piece) && piece.samples == mux.open.len() && piece.sequence
                == mux.sequence
            &&& next.close() == Some((None::<Piece>, next))
        },
{
    lemma_close(mux);
}

/// Finishing leaves nothing: no packet waits and no sample is open
/// afterwards, and finishing again gives no fragment.
pub proof fn law_finishing_leaves_nothing(mux: Mux)
    ensures
        mux.finished() matches Some((Ok(_), next)) ==> {
            &&& next.pending.len() == 0
            &&& next.open.len() == 0
            &&& next.finished() == Some((Ok::<Seq<Piece>, Error>(Seq::empty()), next))
        },
{
    if let Some((Ok(pieces), next)) = mux.finished() {
        let dts = resolved(mux.pending, true)->Some_0->Ok_0;
        lemma_first_known(mux.pending);
        assert(dts.len() == mux.pending.len());
        let count = mux.going(dts, true) as int;
        let start = Mux { pending: mux.pending.skip(count), ..mux };
        lemma_emit(start, mux.pending.take(count), dts, 0);
        lemma_close(mux.drained(true)->Some_0.1);
        assert(next.pending.len() == 0);
        let none = Seq::<i64>::empty();
        assert(Seq::new(next.pending.len(), |i: int| next.pending[i].pts) =~= none);
        assert(resolved(next.pending, true) == Some(Ok::<_, Error>(none)));
        assert(next.pending.skip(0) =~= next.pending);
        assert(next.pending.take(0) =~= Seq::empty());
        assert((Mux { pending: next.pending.skip(0), ..next }) == next);
        assert(next.drained(true) == Some((Ok::<Seq<Piece>, Error>(Seq::empty()), next)));
    }
}

/// A packet that carries its own decode time and duration needs no
/// lookahead: with none waiting before it, it leaves on its own push.
pub proof fn law_an_own_duration_leaves_at_once(mux: Mux, packet: Packet<'_>)
    requires
        mux.mode == Mode::PerSample,
        mux.open.len() == 0,
        mux.pending.len() == 0,
        packet.dts is Some,
        packet.duration matches Some(own) && own > 0,
    ensures
        mux.pushed(packet) matches Some((Ok(pieces), next)) ==> pieces.len() == 1
            && next.pending.len() == 0,
{
    if packet.data@.len() > 0 {
        let fed = Mux { pending: mux.pending.push(held(packet)), ..mux };
        assert(fed.pending[0] == held(packet));
        reveal_with_fuel(first_known, 2);
        if let Some(Ok(dts)) = resolved(fed.pending, false) {
            let count = fed.going(dts, false) as int;
            let start = Mux { pending: fed.pending.skip(count), ..fed };
            lemma_emit(start, fed.pending.take(count), dts, 0);
        }
    }
}

/// The muxer between settling a packet that needs no lookahead and closing
/// its fragment.
pub open spec fn settled_with(mux: Mux, packet: Packet<'_>) -> Mux {
    let own = packet.duration.unwrap();
    let timed = Mux { last_duration: Some(own), pending: Seq::empty(), ..mux };
    timed.settle(held(packet), packet.dts.unwrap(), own).unwrap().1
}

/// What a push of such a packet gives is the fragment over it.
pub proof fn lemma_push_settles(mux: Mux, packet: Packet<'_>)
    requires
        mux.mode == Mode::PerSample,
        mux.open.len() == 0,
        mux.pending.len() == 0,
        packet.data@.len() > 0,
        packet.dts is Some,
        packet.duration matches Some(own) && own > 0,
    ensures
        mux.pushed(packet) matches Some((Ok(pieces), next)) ==> {
            let middle = settled_with(mux, packet);
            let own = packet.duration.unwrap();
            let timed = Mux { last_duration: Some(own), pending: Seq::empty(), ..mux };
            &&& timed.settle(held(packet), packet.dts.unwrap(), own) == Some(
                (Ok::<(), Error>(()), middle),
            )
            &&& middle.close() == Some((Some(middle.piece()), next))
            &&& pieces == seq![middle.piece()]
        },
{
    let waiting = held(packet);
    let own = packet.duration.unwrap();
    let fed = Mux { pending: mux.pending.push(waiting), ..mux };
    let list = fed.pending;
    assert(list =~= seq![waiting]);
    reveal_with_fuel(first_known, 2);
    assert(first_known(list) == Some(0nat));
    let dts = seq![packet.dts.unwrap()];
    assert(Seq::new(list.len(), |i: int| decode_time(list, 0, 0, i) as i64) =~= dts);
    assert(resolved(list, false) == Some(Ok::<_, Error>(dts)));
    assert(fed.going(dts, false) == 1);
    assert(list.skip(1) =~= Seq::empty());
    assert(list.take(1) =~= list);
    let start = Mux { pending: Seq::empty(), ..mux };
    assert((Mux { pending: list.skip(1), ..fed }) == start);
    assert(list.drop_first() =~= Seq::empty());
    let timed = Mux { last_duration: Some(own), ..start };
    if let Some((Ok(_), middle)) = timed.settle(waiting, dts[0], own) {
        lemma_close(middle);
        if let Some((piece, last)) = middle.close() {
            let none = Seq::<Waiting>::empty();
            assert(last.emit(none, dts, 1) == Some((Ok::<Seq<Piece>, Error>(Seq::empty()), last)));
            assert(seq![middle.piece()] + Seq::<Piece>::empty() =~= seq![middle.piece()]);
        }
    }
}

/// Times an ordinary stream has: thirty bits of ticks either way.
pub open spec fn ordinary(n: int) -> bool {
    -0x4000_0000 <= n <= 0x4000_0000
}

/// A packet of an ordinary stream, with a decode time of its own.
pub open spec fn ordinary_packet(packet: Waiting) -> bool {
    &&& ordinary(packet.pts as int)
    &&& packet.dts matches Some(dts) && ordinary(dts as int)
    &&& packet.duration is None || (packet.duration matches Some(own) && 0 < own && ordinary(
        own as int,
    ))
    &&& packet.data.len() + 200 <= usize::MAX
}

/// Whether what a muxer remembers of a stream is what an ordinary one leaves
/// it with.
pub open spec fn ordinary_clock(mux: Mux) -> bool {
    &&& 1 <= mux.tick_scale <= i32::MAX
    &&& mux.dts_shift is None || (mux.dts_shift matches Some(shift) && ordinary(shift as int))
    &&& mux.last_duration is None || (mux.last_duration matches Some(last) && 0 < last
        <= 0x8000_0000)
}

/// A muxer of one fragment a sample that has been given ordinary packets and
/// has sequence numbers left for those that wait and two more.
pub open spec fn ordinary_mux(mux: Mux) -> bool {
    &&& mux.mode == Mode::PerSample
    &&& mux.open.len() == 0
    &&& ordinary_clock(mux)
    &&& forall|i: int| 0 <= i < mux.pending.len() ==> ordinary_packet(#[trigger] mux.pending[i])
    &&& mux.sequence + mux.pending.len() + 2 < u32::MAX
}

/// An ordinary sample settles within 64 bits, and leaves an ordinary clock.
proof fn lemma_settle_taken(mux: Mux, sample: Waiting, dts: i64, duration: i64)
    requires
        ordinary_clock(mux),
        ordinary(sample.pts as int),
        ordinary(dts as int),
        0 <= duration <= 0x8000_0000,
    ensures
        mux.settle(sample, dts, duration) is Some,
        mux.settle(sample, dts, duration).unwrap().0 is Ok ==> ordinary_clock(
            mux.settle(sample, dts, duration).unwrap().1,
        ),
{
    let scale = mux.tick_scale as int;
    lemma_scaled(sample.pts - dts, scale);
    lemma_scaled(duration as int, scale);
    lemma_scaled(dts + mux.shift_for(dts), scale);
}

/// One sample alone closes into a fragment memory can hold.
proof fn lemma_close_taken(mux: Mux)
    requires
        mux.open.len() == 1,
        mux.sequence < u32::MAX,
        mux.open[0].data.len() + 200 <= usize::MAX,
    ensures
        mux.close() is Some,
{
    reveal_with_fuel(data_of, 2);
    assert(mux.open.drop_last() =~= Seq::empty());
    assert(data_of(mux.open) =~= mux.open[0].data);
}

proof fn lemma_emit_taken(mux: Mux, samples: Seq<Waiting>, dts: Seq<i64>, i: int)
    requires
        mux.mode == Mode::PerSample,
        mux.open.len() == 0,
        ordinary_clock(mux),
        mux.sequence + samples.len() < u32::MAX,
        0 <= i,
        i + samples.len() <= dts.len(),
        forall|j: int| 0 <= j < samples.len() ==> ordinary_packet(#[trigger] samples[j]),
        forall|j: int| 0 <= j < dts.len() ==> ordinary(#[trigger] dts[j] as int),
    ensures
        mux.emit(samples, dts, i) is Some,
        mux.emit(samples, dts, i).unwrap().0 is Ok ==> ordinary_clock(
            mux.emit(samples, dts, i).unwrap().1,
        ),
    decreases samples.len(),
{
    if samples.len() > 0 {
        let first = samples[0];
        let rest = samples.drop_first();
        assert(ordinary_packet(samples[0]));
        assert(ordinary(dts[i] as int));
        if i + 1 < dts.len() {
            assert(ordinary(dts[i + 1] as int));
        }
        match duration_of(first, dts, i, mux.last_duration) {
            Some(Ok(duration)) => {
                let timed = Mux {
                    last_duration: if duration > 0 {
                        Some(duration)
                    } else {
                        mux.last_duration
                    },
                    ..mux
                };
                lemma_settle_taken(timed, first, dts[i], duration);
                if let Some((Ok(_), next)) = timed.settle(first, dts[i], duration) {
                    lemma_close_taken(next);
                    lemma_close(next);
                    let last = next.close().unwrap().1;
                    assert forall|j: int| 0 <= j < rest.len() implies ordinary_packet(
                        #[trigger] rest[j],
                    ) by {
                        assert(rest[j] == samples[j + 1]);
                    }
                    lemma_emit_taken(last, rest, dts, i + 1);
                }
            },
            _ => {},
        }
    }
}

/// The decode times of ordinary packets are the ones they came with.
proof fn lemma_ordinary_times(pending: Seq<Waiting>, flush: bool)
    requires
        forall|i: int| 0 <= i < pending.len() ==> ordinary_packet(#[trigger] pending[i]),
    ensures
        resolved(pending, flush) == Some(
            Ok::<_, Error>(Seq::new(pending.len(), |i: int| pending[i].dts.unwrap())),
        ),
{
    let own = Seq::new(pending.len(), |i: int| pending[i].dts.unwrap());
    assert forall|i: int| 0 <= i < pending.len() implies (#[trigger] pending[i]).dts is Some by {
        assert(ordinary_packet(pending[i]));
    }
    if pending.len() == 0 {
        assert(own =~= Seq::empty());
        assert(Seq::new(pending.len(), |i: int| pending[i].pts) =~= own);
    } else {
        assert(ordinary_packet(pending[0]));
        if pending.len() > 1 {
            assert(ordinary_packet(pending[1]));
        }
        assert(first_known(pending) == Some(0nat));
        let step = match known_step(pending, 0) {
            Some(step) => step,
            None => 0,
        };
        assert(Seq::new(pending.len(), |i: int| decode_time(pending, 0, step, i) as i64) =~= own);
    }
}

proof fn lemma_ordinary_drain(mux: Mux, flush: bool)
    requires
        ordinary_clock(mux),
        mux.mode == Mode::PerSample,
        mux.open.len() == 0,
        mux.sequence + mux.pending.len() < u32::MAX,
        forall|i: int| 0 <= i < mux.pending.len() ==> ordinary_packet(#[trigger] mux.pending[i]),
    ensures
        mux.drained(flush) is Some,
        mux.drained(flush).unwrap().0 is Ok ==> ordinary_clock(mux.drained(flush).unwrap().1),
{
    lemma_ordinary_times(mux.pending, flush);
    let dts = Seq::new(mux.pending.len(), |i: int| mux.pending[i].dts.unwrap());
    let count = mux.going(dts, flush) as int;
    let start = Mux { pending: mux.pending.skip(count), ..mux };
    let samples = mux.pending.take(count);
    assert forall|j: int| 0 <= j < samples.len() implies ordinary_packet(#[trigger] samples[j]) by {
        assert(samples[j] == mux.pending[j]);
    }
    assert forall|j: int| 0 <= j < dts.len() implies ordinary(#[trigger] dts[j] as int) by {
        assert(ordinary_packet(mux.pending[j]));
    }
    lemma_emit_taken(start, samples, dts, 0);
}

/// No number is too wide for an ordinary stream: a muxer that has been given
/// ordinary packets takes another and can always finish, and once it has
/// taken one it is such a muxer again, but for the sequence numbers, which
/// run out.
pub proof fn law_ordinary_packets_are_taken(mux: Mux, packet: Packet<'_>)
    requires
        ordinary_mux(mux),
        ordinary_packet(held(packet)),
    ensures
        mux.finished() is Some,
        mux.pushed(packet) is Some,
        mux.pushed(packet) matches Some((Ok(pieces), next)) ==> (next.sequence + next.pending.len()
            + 2 < u32::MAX ==> ordinary_mux(next)),
{
    lemma_ordinary_drain(mux, true);
    if let Some(Ok(dts)) = resolved(mux.pending, true) {
        let count = mux.going(dts, true) as int;
        let start = Mux { pending: mux.pending.skip(count), ..mux };
        lemma_emit(start, mux.pending.take(count), dts, 0);
    }
    if packet.data@.len() > 0 {
        let fed = Mux { pending: mux.pending.push(held(packet)), ..mux };
        assert forall|i: int| 0 <= i < fed.pending.len() implies ordinary_packet(
            #[trigger] fed.pending[i],
        ) by {
            if i < mux.pending.len() {
                assert(fed.pending[i] == mux.pending[i]);
            }
        }
        lemma_ordinary_drain(fed, false);
        lemma_ordinary_times(fed.pending, false);
        let dts = resolved(fed.pending, false)->Some_0->Ok_0;
        let count = fed.going(dts, false) as int;
        let start = Mux { pending: fed.pending.skip(count), ..fed };
        lemma_emit(start, fed.pending.take(count), dts, 0);
        if let Some((Ok(_), next)) = mux.pushed(packet) {
            assert forall|i: int| 0 <= i < next.pending.len() implies ordinary_packet(
                #[trigger] next.pending[i],
            ) by {
                assert(next.pending[i] == fed.pending[count + i]);
            }
        }
    }
}

proof fn lemma_scaled(n: int, scale: int)
    requires
        -0x8000_0000 <= n <= 0x8000_0000,
        1 <= scale <= i32::MAX,
    ensures
        in64(n * scale),
{
    assert(-0x8000_0000 * 0x7fff_ffff <= n * scale <= 0x8000_0000 * 0x7fff_ffff)
        by (nonlinear_arith)
        requires
            -0x8000_0000 <= n <= 0x8000_0000,
            1 <= scale <= 0x7fff_ffff,
    ;
}

/// The sync flag a sample is written with says what the packet said.
pub proof fn law_the_sync_flag_is_the_packets(keyframe: bool)
    ensures
        !set_in(sample_flags(keyframe), NON_SYNC) == keyframe,
{
    assert(0x0200_0000u32 & 0x0001_0000 == 0) by (bit_vector);
    assert(0x0101_0000u32 & 0x0001_0000 != 0) by (bit_vector);
}

// ------------------------------------------------------------------ //
// A run of a muxer.
// ------------------------------------------------------------------ //
/// What a caller can ask of a muxer.
pub enum Call {
    Push(Waiting),
    Cut,
    Finish,
}

impl Call {
    /// The packet a call hands over, where it does.
    pub open spec fn packets(self) -> Seq<Waiting> {
        match self {
            Call::Push(one) => seq![one],
            _ => Seq::empty(),
        }
    }
}

impl Mux {
    /// What a call gives and leaves, where it is not refused.
    #[verifier::opaque]
    pub open spec fn called(self, call: Call) -> Option<(Seq<Piece>, Mux)> {
        match call {
            Call::Push(one) => match self.taken(one) {
                Some((Ok(pieces), next)) => Some((pieces, next)),
                _ => None,
            },
            Call::Cut => match self.close() {
                Some((Some(piece), next)) => Some((seq![piece], next)),
                Some((None, next)) => Some((Seq::empty(), next)),
                None => None,
            },
            Call::Finish => match self.finished() {
                Some((Ok(pieces), next)) => Some((pieces, next)),
                _ => None,
            },
        }
    }

    /// What calls give and leave, none of them being refused.
    pub open spec fn run(self, calls: Seq<Call>) -> Option<(Seq<Piece>, Mux)>
        decreases calls.len(),
    {
        if calls.len() == 0 {
            Some((Seq::empty(), self))
        } else {
            match self.run(calls.drop_last()) {
                None => None,
                Some((before, middle)) => match middle.called(calls.last()) {
                    None => None,
                    Some((pieces, next)) => Some((before + pieces, next)),
                },
            }
        }
    }

    /// The fragment of one sample, the timeline being shifted by so much.
    pub open spec fn alone(
        self,
        sequence: int,
        shift: int,
        sample: Waiting,
        dts: int,
        duration: int,
    ) -> Piece {
        let base = ((dts + shift) * self.tick_scale) as u64;
        Piece {
            bytes: moof_bytes(
                self.plan.track_id,
                sequence as u32,
                base,
                seq![
                    TrunEntry {
                        duration: (duration * self.tick_scale) as u32,
                        size: low32(sample.data.len()),
                        flags: sample_flags(sample.keyframe),
                        cts: ((sample.pts - dts) * self.tick_scale) as i32,
                    },
                ],
            ) + boxed_spec(MDAT, sample.data),
            sequence: sequence as u32,
            base_decode_time: base,
            keyframe: sample.keyframe,
            pts: sample.pts,
            samples: 1,
        }
    }

    /// Whether the fields of that fragment can hold what is put in them.
    pub open spec fn holds(self, shift: int, sample: Waiting, dts: int, duration: int) -> bool {
        &&& 0 <= (dts + shift) * self.tick_scale <= i64::MAX
        &&& 0 <= duration * self.tick_scale <= u32::MAX
        &&& i32::MIN <= (sample.pts - dts) * self.tick_scale <= i32::MAX
    }

    /// The muxer once one sample has left in a fragment of its own.
    pub open spec fn after_one(self, dts: i64, duration: i64) -> Mux {
        Mux {
            sequence: (self.sequence + 1) as u32,
            dts_shift: Some(self.shift_for(dts) as i64),
            last_duration: if duration > 0 {
                Some(duration)
            } else {
                self.last_duration
            },
            ..self
        }
    }
}

/// The packets that calls hand over, in order.
pub open spec fn handed(calls: Seq<Call>) -> Seq<Waiting>
    decreases calls.len(),
{
    if calls.len() == 0 {
        Seq::empty()
    } else {
        handed(calls.drop_last()) + calls.last().packets()
    }
}

/// The bytes of packets, one behind another.
pub open spec fn bytes_of(list: Seq<Waiting>) -> Seq<u8>
    decreases list.len(),
{
    if list.len() == 0 {
        Seq::empty()
    } else {
        list[0].data + bytes_of(list.drop_first())
    }
}

/// What the `mdat` of a fragment holds.
pub open spec fn payload_of(piece: Piece) -> Seq<u8> {
    piece.bytes.skip((moof_len(piece.samples) + 8) as int)
}

/// What the `mdat`s of fragments hold, one behind another.
pub open spec fn payloads(pieces: Seq<Piece>) -> Seq<u8>
    decreases pieces.len(),
{
    if pieces.len() == 0 {
        Seq::empty()
    } else {
        payload_of(pieces[0]) + payloads(pieces.drop_first())
    }
}

/// How many samples fragments hold.
pub open spec fn samples_in(pieces: Seq<Piece>) -> nat
    decreases pieces.len(),
{
    if pieces.len() == 0 {
        0
    } else {
        pieces[0].samples + samples_in(pieces.drop_first())
    }
}

/// Whether fragments are numbered one after another, from `first`.
pub open spec fn numbered(pieces: Seq<Piece>, first: int) -> bool {
    forall|j: int| 0 <= j < pieces.len() ==> (#[trigger] pieces[j]).sequence == first + j
}

proof fn lemma_bytes_join(one: Seq<Waiting>, two: Seq<Waiting>)
    ensures
        bytes_of(one + two) == bytes_of(one) + bytes_of(two),
    decreases one.len(),
{
    if one.len() == 0 {
        assert(one + two =~= two);
        assert(bytes_of(one) + bytes_of(two) =~= bytes_of(two));
    } else {
        lemma_bytes_join(one.drop_first(), two);
        assert((one + two).drop_first() =~= one.drop_first() + two);
        assert(bytes_of(one + two) =~= bytes_of(one) + bytes_of(two));
    }
}

proof fn lemma_pieces_join(one: Seq<Piece>, two: Seq<Piece>)
    ensures
        payloads(one + two) == payloads(one) + payloads(two),
        samples_in(one + two) == samples_in(one) + samples_in(two),
    decreases one.len(),
{
    if one.len() == 0 {
        assert(one + two =~= two);
        assert(payloads(one) + payloads(two) =~= payloads(two));
    } else {
        lemma_pieces_join(one.drop_first(), two);
        assert((one + two).drop_first() =~= one.drop_first() + two);
        assert(payloads(one + two) =~= payloads(one) + payloads(two));
    }
}

/// A fragment holds the bytes of what was open.
proof fn lemma_piece_payload(mux: Mux)
    ensures
        payloads(seq![mux.piece()]) == data_of(mux.open),
        samples_in(seq![mux.piece()]) == mux.open.len(),
{
    broadcast use group_box_len;

    let piece = mux.piece();
    let first = mux.open[0];
    law_moof_len(
        mux.plan.track_id,
        mux.sequence,
        first.base_decode_time,
        entries_of(mux.open),
    );
    assert(payload_of(piece) =~= data_of(mux.open));
    assert(seq![piece].drop_first() =~= Seq::empty());
    reveal_with_fuel(payloads, 2);
    reveal_with_fuel(samples_in, 2);
    assert(payloads(seq![piece]) =~= data_of(mux.open));
}

/// Settling samples loses none of their bytes and adds none.
proof fn lemma_emit_keeps(mux: Mux, samples: Seq<Waiting>, dts: Seq<i64>, i: int)
    ensures
        mux.emit(samples, dts, i) matches Some((Ok(pieces), next)) ==> {
            &&& payloads(pieces) + data_of(next.open) == data_of(mux.open) + bytes_of(samples)
            &&& samples_in(pieces) + next.open.len() == mux.open.len() + samples.len()
        },
    decreases samples.len(),
{
    if samples.len() == 0 {
        assert(Seq::<u8>::empty() + data_of(mux.open) =~= data_of(mux.open) + Seq::<u8>::empty());
    } else if let Some(Ok(duration)) = duration_of(samples[0], dts, i, mux.last_duration) {
        let timed = Mux {
            last_duration: if duration > 0 {
                Some(duration)
            } else {
                mux.last_duration
            },
            ..mux
        };
        let rest = samples.drop_first();
        if let Some((Ok(_), next)) = timed.settle(samples[0], dts[i], duration) {
            assert(next.open.drop_last() =~= mux.open);
            assert(data_of(next.open) == data_of(mux.open) + samples[0].data);
            assert(data_of(next.open) + bytes_of(rest) =~= data_of(mux.open) + bytes_of(samples));
            if mux.mode == Mode::PerCut {
                lemma_emit_keeps(next, rest, dts, i + 1);
            } else {
                lemma_close(next);
                if let Some((piece, last)) = next.close() {
                    lemma_emit_keeps(last, rest, dts, i + 1);
                    lemma_piece_payload(next);
                    if let Some((Ok(more), end)) = last.emit(rest, dts, i + 1) {
                        lemma_pieces_join(seq![piece.unwrap()], more);
                        assert(payloads(seq![piece.unwrap()] + more) + data_of(end.open)
                            =~= data_of(next.open) + (payloads(more) + data_of(end.open)));
                        assert(data_of(last.open) + bytes_of(rest) =~= bytes_of(rest));
                    }
                }
            }
        }
    }
}

/// What draining keeps: every byte of what waits and of what is open, and
/// the count of the samples; and how fragments are numbered.
proof fn lemma_drain_keeps(mux: Mux, flush: bool)
    ensures
        mux.drained(flush) matches Some((Ok(pieces), next)) ==> {
            &&& payloads(pieces) + data_of(next.open) + bytes_of(next.pending) == data_of(mux.open)
                + bytes_of(mux.pending)
            &&& samples_in(pieces) + next.open.len() + next.pending.len() == mux.open.len()
                + mux.pending.len()
            &&& numbered(pieces, mux.sequence as int)
            &&& next.sequence == mux.sequence + pieces.len()
        },
{
    if let Some(Ok(dts)) = resolved(mux.pending, flush) {
        lemma_resolved_len(mux.pending, flush);
        let count = mux.going(dts, flush) as int;
        let front = mux.pending.take(count);
        let back = mux.pending.skip(count);
        let start = Mux { pending: back, ..mux };
        lemma_emit(start, front, dts, 0);
        lemma_emit_keeps(start, front, dts, 0);
        lemma_bytes_join(front, back);
        assert(front + back =~= mux.pending);
        if let Some((Ok(pieces), next)) = mux.drained(flush) {
            assert(payloads(pieces) + data_of(next.open) + bytes_of(next.pending) =~= data_of(
                mux.open,
            ) + bytes_of(mux.pending));
        }
    }
}

/// What one call keeps.
#[verifier::rlimit(40)]
proof fn lemma_call_keeps(mux: Mux, call: Call)
    ensures
        mux.called(call) matches Some((pieces, next)) ==> {
            &&& payloads(pieces) + data_of(next.open) + bytes_of(next.pending) == data_of(mux.open)
                + bytes_of(mux.pending) + bytes_of(call.packets())
            &&& samples_in(pieces) + next.open.len() + next.pending.len() == mux.open.len()
                + mux.pending.len() + call.packets().len()
            &&& numbered(pieces, mux.sequence as int)
            &&& next.sequence == mux.sequence + pieces.len()
        },
{
    reveal(Mux::called);
    let none = Seq::<u8>::empty();
    match call {
        Call::Push(one) => {
            let fed = Mux { pending: mux.pending.push(one), ..mux };
            lemma_drain_keeps(fed, false);
            lemma_bytes_join(mux.pending, seq![one]);
            assert(mux.pending + seq![one] =~= fed.pending);
            assert(data_of(mux.open) + bytes_of(fed.pending) =~= data_of(mux.open) + bytes_of(
                mux.pending,
            ) + bytes_of(call.packets()));
        },
        Call::Cut => {
            lemma_close(mux);
            lemma_piece_payload(mux);
            assert(data_of(mux.open) + none + bytes_of(mux.pending) =~= data_of(mux.open)
                + bytes_of(mux.pending) + none);
            assert(none + data_of(mux.open) + bytes_of(mux.pending) =~= data_of(mux.open)
                + bytes_of(mux.pending) + none);
        },
        Call::Finish => {
            lemma_drain_keeps(mux, true);
            if let Some((Ok(pieces), next)) = mux.drained(true) {
                lemma_close(next);
                lemma_piece_payload(next);
                lemma_pieces_join(pieces, seq![next.piece()]);
                assert(pieces + seq![next.piece()] =~= pieces.push(next.piece()));
                assert(data_of(mux.open) + bytes_of(mux.pending) + none =~= data_of(mux.open)
                    + bytes_of(mux.pending));
                assert(payloads(pieces) + data_of(next.open) + none + bytes_of(next.pending)
                    =~= payloads(pieces) + data_of(next.open) + bytes_of(next.pending));
            }
        },
    }
}

/// Nothing is lost and nothing is written twice: over any run of pushes,
/// cuts and finishes of a muxer that has been given no packet, in either
/// mode, the fragments are numbered from one, and what their `mdat`s hold,
/// with what the muxer still holds, is the bytes of the packets in the order
/// they came, each packet being one sample.
pub proof fn law_a_run_writes_every_packet_once(mux: Mux, calls: Seq<Call>)
    requires
        mux.pending.len() == 0,
        mux.open.len() == 0,
        mux.sequence == 1,
    ensures
        mux.run(calls) matches Some((pieces, next)) ==> {
            &&& payloads(pieces) + data_of(next.open) + bytes_of(next.pending) == bytes_of(
                handed(calls),
            )
            &&& samples_in(pieces) + next.open.len() + next.pending.len() == handed(calls).len()
            &&& numbered(pieces, 1)
            &&& next.sequence == 1 + pieces.len()
        },
    decreases calls.len(),
{
    let none = Seq::<u8>::empty();
    if calls.len() == 0 {
        assert(none + none + none =~= none);
    } else {
        let most = calls.drop_last();
        let call = calls.last();
        law_a_run_writes_every_packet_once(mux, most);
        if let Some((before, middle)) = mux.run(most) {
            lemma_call_keeps(middle, call);
            if let Some((pieces, next)) = middle.called(call) {
                lemma_pieces_join(before, pieces);
                lemma_bytes_join(handed(most), call.packets());
                lemma_three(payloads(before), data_of(middle.open), bytes_of(middle.pending));
                lemma_three(payloads(pieces), data_of(next.open), bytes_of(next.pending));
                lemma_passed_on(
                    payloads(before),
                    data_of(middle.open) + bytes_of(middle.pending),
                    bytes_of(call.packets()),
                    payloads(pieces),
                    data_of(next.open) + bytes_of(next.pending),
                );
                lemma_three(
                    payloads(before) + payloads(pieces),
                    data_of(next.open),
                    bytes_of(next.pending),
                );
                lemma_numbered(before, pieces, 1);
            }
        }
    }
}

proof fn lemma_three(one: Seq<u8>, two: Seq<u8>, three: Seq<u8>)
    ensures
        one + two + three == one + (two + three),
{
    assert(one + two + three =~= one + (two + three));
}

/// What is held, and what comes to it, goes on as what is written and what
/// is held then.
proof fn lemma_passed_on(
    done: Seq<u8>,
    had: Seq<u8>,
    came: Seq<u8>,
    wrote: Seq<u8>,
    has: Seq<u8>,
)
    requires
        wrote + has == had + came,
    ensures
        done + wrote + has == done + had + came,
{
    lemma_three(done, wrote, has);
    lemma_three(done, had, came);
}

proof fn lemma_numbered(one: Seq<Piece>, two: Seq<Piece>, first: int)
    requires
        numbered(one, first),
        numbered(two, first + one.len()),
    ensures
        numbered(one + two, first),
{
    let all = one + two;
    assert forall|j: int| 0 <= j < all.len() implies (#[trigger] all[j]).sequence == first + j by {
        if j < one.len() {
            assert(all[j] == one[j]);
        } else {
            assert(all[j] == two[j - one.len()]);
        }
    }
}

/// A run that ends in a finish has written everything: the `mdat`s hold the
/// bytes of every packet in order and the fragments as many samples as there
/// were packets; finishing again, or cutting, gives no fragment.
pub proof fn law_a_finished_run_has_written_everything(mux: Mux, calls: Seq<Call>)
    requires
        mux.pending.len() == 0,
        mux.open.len() == 0,
        mux.sequence == 1,
        calls.len() > 0,
        calls.last() is Finish,
    ensures
        mux.run(calls) matches Some((pieces, next)) ==> {
            &&& payloads(pieces) == bytes_of(handed(calls))
            &&& samples_in(pieces) == handed(calls).len()
            &&& numbered(pieces, 1)
            &&& next.called(Call::Finish) == Some((Seq::<Piece>::empty(), next))
            &&& next.called(Call::Cut) == Some((Seq::<Piece>::empty(), next))
        },
{
    law_a_run_writes_every_packet_once(mux, calls);
    reveal(Mux::called);
    if let Some((_, middle)) = mux.run(calls.drop_last()) {
        law_finishing_leaves_nothing(middle);
        if let Some((pieces, next)) = mux.run(calls) {
            let none = Seq::<u8>::empty();
            assert(payloads(pieces) + none + none =~= payloads(pieces));
        }
    }
}

// ------------------------------------------------------------------ //
// One fragment a sample, as the packets come.
// ------------------------------------------------------------------ //
/// The packet that waits for the next, where the one before did: it came
/// with no duration of its own.
pub open spec fn left_waiting(before: Option<Waiting>) -> Seq<Waiting> {
    match before {
        Some(one) => if one.duration is None {
            seq![one]
        } else {
            Seq::empty()
        },
        None => Seq::empty(),
    }
}

/// Whether a muxer of one fragment a sample has been given packets with
/// decode times of their own, `before` being the last of them.
pub open spec fn flowing(mux: Mux, before: Option<Waiting>) -> bool {
    &&& mux.mode == Mode::PerSample
    &&& mux.tick_scale >= 1
    &&& mux.open.len() == 0
    &&& mux.pending == left_waiting(before)
    &&& before matches Some(one) ==> one.dts is Some
}

/// One sample leaves in a fragment of its own.
#[verifier::rlimit(40)]
pub proof fn lemma_one_leaves(mux: Mux, samples: Seq<Waiting>, dts: Seq<i64>, i: int, duration: i64)
    requires
        mux.tick_scale >= 1,
        mux.mode == Mode::PerSample,
        mux.open.len() == 0,
        samples.len() > 0,
        duration_of(samples[0], dts, i, mux.last_duration) == Some(Ok::<i64, Error>(duration)),
    ensures
        mux.emit(samples, dts, i) matches Some((Ok(pieces), next)) ==> {
            let one = mux.alone(
                mux.sequence as int,
                mux.shift_for(dts[i]),
                samples[0],
                dts[i] as int,
                duration as int,
            );
            &&& mux.sequence < u32::MAX
            &&& in64(mux.shift_for(dts[i]))
            &&& mux.holds(mux.shift_for(dts[i]), samples[0], dts[i] as int, duration as int)
            &&& mux.after_one(dts[i], duration).emit(samples.drop_first(), dts, i + 1) matches Some(
                (Ok(rest), end),
            ) && end == next && pieces == seq![one] + rest
        },
{
    let sample = samples[0];
    let timed = Mux {
        last_duration: if duration > 0 {
            Some(duration)
        } else {
            mux.last_duration
        },
        ..mux
    };
    if let Some((Ok(_), middle)) = timed.settle(sample, dts[i], duration) {
        lemma_close(middle);
        law_the_sync_flag_is_the_packets(sample.keyframe);
        let base = dts[i] + mux.shift_for(dts[i]);
        assert(base * mux.tick_scale >= 0) by (nonlinear_arith)
            requires
                base >= 0,
                mux.tick_scale >= 1,
        ;
        reveal_with_fuel(data_of, 2);
        let ready = middle.open[0];
        assert(mux.open =~= Seq::empty());
        assert(middle.open =~= seq![ready]);
        assert(middle.open.drop_last() =~= Seq::empty());
        assert(data_of(middle.open) =~= sample.data);
        assert(entries_of(middle.open) =~= seq![ready.entry]);
        if middle.close() is Some {
            assert(middle.close().unwrap().1 == mux.after_one(dts[i], duration));
        }
    }
}

/// A push is one fragment when the packet before it had to wait for it, and
/// one when the packet brings its own duration. The packet before gets the
/// step between the two decode times; the packet gets its own. Both are
/// numbered on, on a timeline that the first of them to leave settles where
/// nothing has before; and the muxer goes on the same way.
#[verifier::rlimit(60)]
pub proof fn law_a_push_settles_the_packet_before(
    mux: Mux,
    before: Option<Waiting>,
    packet: Packet<'_>,
)
    requires
        flowing(mux, before),
        packet.data@.len() > 0,
        packet.dts is Some,
    ensures
        mux.pushed(packet) matches Some((Ok(pieces), next)) ==> {
            let one = held(packet);
            let dts = one.dts.unwrap();
            let waited = left_waiting(before);
            let shift = mux.shift_for(
                if waited.len() > 0 {
                    waited[0].dts.unwrap()
                } else {
                    dts
                },
            );
            let settled_before = if waited.len() > 0 {
                let earlier = waited[0].dts.unwrap();
                seq![
                    mux.alone(
                        mux.sequence as int,
                        shift,
                        waited[0],
                        earlier as int,
                        dts - earlier,
                    ),
                ]
            } else {
                Seq::empty()
            };
            let settled_now = match one.duration {
                Some(own) => seq![
                    mux.alone(
                        mux.sequence + settled_before.len(),
                        shift,
                        one,
                        dts as int,
                        own as int,
                    ),
                ],
                None => Seq::empty(),
            };
            &&& pieces == settled_before + settled_now
            &&& waited.len() > 0 ==> {
                let earlier = waited[0].dts.unwrap();
                earlier <= dts && mux.holds(shift, waited[0], earlier as int, dts - earlier)
            }
            &&& one.duration matches Some(own) ==> mux.holds(shift, one, dts as int, own as int)
            &&& next.dts_shift == if pieces.len() > 0 {
                Some(shift as i64)
            } else {
                mux.dts_shift
            }
            &&& flowing(next, Some(one))
        },
{
    let one = held(packet);
    let dts = one.dts.unwrap();
    let waited = left_waiting(before);
    let fed = Mux { pending: mux.pending.push(one), ..mux };
    let list = fed.pending;
    let empty = Seq::<Piece>::empty();
    reveal_with_fuel(first_known, 2);
    assert(list[0].dts is Some);
    assert(first_known(list) == Some(0nat));
    if mux.pushed(packet) matches Some((Ok(_), _)) {
        let times = resolved(list, false)->Some_0->Ok_0;
        let count = fed.going(times, false) as int;
        let start = Mux { pending: list.skip(count), ..fed };
        let samples = list.take(count);
        lemma_emit(start, samples, times, 0);
        assert(list.skip(count) =~= left_waiting(Some(one)));
        if waited.len() > 0 {
            let earlier = waited[0].dts.unwrap();
            assert(list =~= seq![waited[0], one]);
            assert(times =~= seq![earlier, dts]);
            assert(samples[0] == waited[0]);
            let step = (dts - earlier) as i64;
            lemma_one_leaves(start, samples, times, 0, step);
            let then = start.after_one(earlier, step);
            let rest = samples.drop_first();
            if let Some(own) = one.duration {
                assert(rest =~= seq![one]);
                lemma_one_leaves(then, rest, times, 1, own);
                assert(rest.drop_first() =~= Seq::empty());
            } else {
                assert(rest =~= Seq::empty());
            }
        } else {
            assert(list =~= seq![one]);
            assert(times =~= seq![dts]);
            if let Some(own) = one.duration {
                assert(samples =~= seq![one]);
                lemma_one_leaves(start, samples, times, 0, own);
                assert(samples.drop_first() =~= Seq::empty());
            } else {
                assert(samples =~= Seq::empty());
            }
        }
    }
}

/// Where a muxer begins: it has been given no packet.
pub proof fn law_a_new_muxer_is_flowing(content: Content, time_base_num: i32, time_base_den: i32)
    requires
        time_base_num > 0,
    ensures
        flowing(fresh(content, time_base_num, time_base_den), None),
{
}

/// Whether the decode timeline stands where the packets put it.
pub open spec fn unshifted(mux: Mux) -> bool {
    mux.dts_shift is None || mux.dts_shift == Some(0i64)
}

/// What a fragment says of the one packet in it, the timeline not being
/// shifted.
pub open spec fn says(piece: Piece, mux: Mux, sample: Waiting) -> bool {
    &&& piece.samples == 1
    &&& piece.pts == sample.pts
    &&& piece.keyframe == sample.keyframe
    &&& piece.base_decode_time == sample.dts.unwrap() * mux.tick_scale
}

/// Where no decode time is negative, they are written as they came, times
/// the numerator of the time base: a push gives the packet before where it
/// waited, then the packet where it brings its own duration, each in a
/// fragment that says so.
pub proof fn law_decode_times_are_written_as_they_came(
    mux: Mux,
    before: Option<Waiting>,
    packet: Packet<'_>,
)
    requires
        flowing(mux, before),
        unshifted(mux),
        before matches Some(one) ==> one.dts.unwrap() >= 0,
        packet.data@.len() > 0,
        packet.dts matches Some(dts) && dts >= 0,
    ensures
        mux.pushed(packet) matches Some((Ok(pieces), next)) ==> {
            let one = held(packet);
            let waited = left_waiting(before);
            let leaving = waited + if one.duration is Some {
                seq![one]
            } else {
                Seq::empty()
            };
            &&& pieces.len() == leaving.len()
            &&& forall|j: int|
                0 <= j < pieces.len() ==> says(#[trigger] pieces[j], mux, leaving[j])
            &&& unshifted(next)
            &&& flowing(next, Some(one))
        },
{
    law_a_push_settles_the_packet_before(mux, before, packet);
}

/// The last packet, where it waited, leaves on a finish, with the last
/// duration that was known.
pub proof fn law_a_finish_settles_the_last_packet(mux: Mux, before: Option<Waiting>)
    requires
        flowing(mux, before),
    ensures
        mux.finished() matches Some((Ok(pieces), next)) ==> {
            let waited = left_waiting(before);
            pieces == if waited.len() > 0 {
                let dts = waited[0].dts.unwrap();
                seq![
                    mux.alone(
                        mux.sequence as int,
                        mux.shift_for(dts),
                        waited[0],
                        dts as int,
                        match mux.last_duration {
                            Some(last) => last as int,
                            None => 0,
                        },
                    ),
                ]
            } else {
                Seq::empty()
            }
        },
{
    let list = mux.pending;
    let waited = left_waiting(before);
    if mux.finished() matches Some((Ok(_), _)) {
        let times = resolved(list, true)->Some_0->Ok_0;
        let count = mux.going(times, true) as int;
        lemma_first_known(list);
        let start = Mux { pending: list.skip(count), ..mux };
        let samples = list.take(count);
        lemma_emit(start, samples, times, 0);
        if waited.len() > 0 {
            reveal_with_fuel(first_known, 2);
            let dts = waited[0].dts.unwrap();
            assert(times =~= seq![dts]);
            assert(samples =~= waited);
            let last = match mux.last_duration {
                Some(last) => last,
                None => 0,
            };
            lemma_one_leaves(start, samples, times, 0, last);
            assert(samples.drop_first() =~= Seq::empty());
        } else {
            assert(samples =~= Seq::empty());
        }
    }
}

} // verus!
