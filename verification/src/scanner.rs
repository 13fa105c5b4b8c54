//! Cutting an arriving byte stream into segments, a chunk at a time.
//!
//! Feeds on an arbitrary byte stream (a pipe, a socket, a file read
//! forwards) and cuts it at top-level box boundaries: one **init segment**,
//! everything before the first `moof` and including a `moov`, then one
//! **fragment** per `moof` and the boxes through its `mdat`. Each `moof` is
//! read far enough to say its `mfhd` sequence number (§8.8.5) and whether
//! its first sample is a sync sample (§8.8.7, §8.8.8), so a caller can cut
//! groups on real keyframes rather than assume them.
//!
//! Trailing boxes after the last fragment, which for ffmpeg means the `mfra`
//! it writes even into a pipe (§8.8.9), are collected aside and not emitted:
//! a live subscriber has no use for a random access index of something it is
//! watching go past.
//!
//! **What it will hold.** Unlike the reader, a scanner has no file to seek
//! in: a box it must emit, `mdat` included, is a box it has to keep in
//! memory until it is whole. That is a real bound and it is
//! [`Limits::max_buffered_box`], which is a default rather than a law: a
//! stream of one-second fragments at a high bitrate is a different number
//! from a stream of one frame each.
//!
//! **A box of declared size zero** (§4.2) runs to the end of the stream.
//! That is exactly what some muxers write for the `mdat` of a stream going
//! into a pipe, where the length is not known when the header is written. It
//! is accepted: the box stays open, its bytes accumulate, and
//! [`Scanner::finish`] closes it and emits what it held. Nothing after it
//! can exist.
//!
//! No I/O: [`Scanner::push`] takes bytes, [`Scanner::poll`] yields segments,
//! [`Scanner::finish`] says whether the stream ended on a clean boundary.

use std::collections::VecDeque;

use vstd::prelude::*;
use vstd::slice::slice_subrange;

use crate::be::{be24, be32, lemma_same32, put};
use crate::boxes::{
    all_fit, boxed_spec, children, children_spec, fits, full_box_lacking, kids_of, lacking,
    law_built_header_reads_back, law_header_needs_no_more, lemma_boxed_len, parse_header,
    parse_header_spec, BoxHeader, BoxSize, Bytes, Child, Kid,
};
use crate::codes::{MDAT, MFHD, MOOF, MOOV, TFHD, TRAF, TRUN};
use crate::error::{settled, Error, Result};
use crate::fragment::{four_if, read_tfhd, set_in, tfhd_spec, NON_SYNC};
use crate::limits::{Limits, MAX_CHILDREN};

verus! {

// ------------------------------------------------------------------ //
// What one moof says.
// ------------------------------------------------------------------ //
/// What one `moof` says about its fragment, without reading its samples.
#[derive(Clone, Copy, Debug, PartialEq, Eq)]
pub struct MoofSummary {
    /// The `mfhd` sequence number (§8.8.5).
    pub sequence: Option<u32>,
    /// Whether the first sample of the first track fragment that declares
    /// sample flags is a sync sample. `None` when neither a `tfhd` default
    /// nor a `trun` decides it, which is the case where the answer is in the
    /// `moov`'s `trex`.
    pub first_sample_keyframe: Option<bool>,
}

/// The first sample's flags as the first run of a track fragment decides
/// them (§8.8.8): its `first_sample_flags`, else the first sample's own,
/// else the `tfhd` default.
pub open spec fn run_first_flags(body: Seq<u8>, at: u64, default: Option<u32>) -> Result<
    Option<u32>,
> {
    let flags = be24(body, 1);
    let count = be32(body, 4);
    let first_at: nat = 8 + four_if(set_in(flags, 0x01));
    let size_at = first_at + four_if(set_in(flags, 0x100));
    let own_at = size_at + four_if(set_in(flags, 0x200));
    if body.len() < 4 {
        Err(full_box_lacking(at, 0, body.len()))
    } else if body.len() < 8 {
        Err(lacking(at, 4, 4))
    } else if body.len() < first_at {
        Err(lacking(at, 8, 4))
    } else if set_in(flags, 0x04) {
        if body.len() < first_at + 4 {
            Err(lacking(at, first_at, 4))
        } else {
            Ok(Some(be32(body, first_at as int)))
        }
    } else if set_in(flags, 0x400) && count > 0 {
        if body.len() < size_at {
            Err(lacking(at, first_at, 4))
        } else if body.len() < own_at {
            Err(lacking(at, size_at, 4))
        } else if body.len() < own_at + 4 {
            Err(lacking(at, own_at, 4))
        } else {
            Ok(Some(be32(body, own_at as int)))
        }
    } else {
        Ok(default)
    }
}

/// The first sample's flags among some children of a `traf`, the `tfhd`
/// default being what it is so far. The first run decides.
pub open spec fn flags_among(list: Seq<Kid>, default: Option<u32>) -> Result<Option<u32>>
    decreases list.len(),
{
    if list.len() == 0 {
        Ok(default)
    } else if list[0].kind == TFHD {
        match tfhd_spec(list[0].body, list[0].at) {
            Err(err) => Err(err),
            Ok(tfhd) => flags_among(list.drop_first(), tfhd.default_flags),
        }
    } else if list[0].kind == TRUN {
        run_first_flags(list[0].body, list[0].at, default)
    } else {
        flags_among(list.drop_first(), default)
    }
}

/// The first sample's flags within one `traf`.
pub open spec fn traf_flags_spec(traf: Kid) -> Result<Option<u32>> {
    match children_spec(traf.body, traf.at, MAX_CHILDREN) {
        Err(err) => Err(err),
        Ok(list) => flags_among(list, None),
    }
}

/// A `mfhd`'s sequence number.
pub open spec fn sequence_spec(body: Seq<u8>, at: u64) -> Result<u32> {
    if body.len() < 4 {
        Err(full_box_lacking(at, 0, body.len()))
    } else if body.len() < 8 {
        Err(lacking(at, 4, 4))
    } else {
        Ok(be32(body, 4))
    }
}

/// What some children of a `moof` add to what is known of it. Only the first
/// `traf` that yields an answer is consulted.
pub open spec fn summary_after(known: MoofSummary, list: Seq<Kid>) -> Result<MoofSummary>
    decreases list.len(),
{
    if list.len() == 0 {
        Ok(known)
    } else if list[0].kind == MFHD {
        match sequence_spec(list[0].body, list[0].at) {
            Err(err) => Err(err),
            Ok(sequence) => summary_after(
                MoofSummary { sequence: Some(sequence), ..known },
                list.drop_first(),
            ),
        }
    } else if list[0].kind == TRAF && known.first_sample_keyframe is None {
        match traf_flags_spec(list[0]) {
            Err(err) => Err(err),
            Ok(None) => summary_after(known, list.drop_first()),
            Ok(Some(flags)) => summary_after(
                MoofSummary { first_sample_keyframe: Some(!set_in(flags, NON_SYNC)), ..known },
                list.drop_first(),
            ),
        }
    } else {
        summary_after(known, list.drop_first())
    }
}

/// What a complete `moof` box says about its fragment.
pub open spec fn moof_summary_spec(moof: Seq<u8>, at: u64) -> Result<MoofSummary> {
    match parse_header_spec(moof, at) {
        Err(err) => Err(err),
        Ok(None) => Err(Error::truncated("a moof shorter than a box header").at(at)),
        Ok(Some(header)) => match children_spec(
            moof.skip(header.header_len as int),
            (at + header.header_len) as u64,
            MAX_CHILDREN,
        ) {
            Err(err) => Err(err),
            Ok(list) => summary_after(
                MoofSummary { sequence: None, first_sample_keyframe: None },
                list,
            ),
        },
    }
}

/// A complete `moof` box, header included, read for its summary.
///
/// The first sample's flags follow §8.8.8's precedence: the `trun`'s
/// `first_sample_flags` when present, else the first sample's own per-sample
/// flags, else the `tfhd` default (§8.8.7). Only the first `traf` that
/// yields an answer is consulted.
pub fn moof_summary(moof: &[u8], at: u64) -> (summary: Result<MoofSummary>)
    requires
        at + moof.len() <= u64::MAX,
    ensures
        settled(summary),
        summary == moof_summary_spec(moof@, at),
{
    let header = match parse_header(moof, at)? {
        Some(header) => header,
        None => return Err(Error::truncated("a moof shorter than a box header").at(at)),
    };
    let head: usize = header.header_len as usize;
    let body = slice_subrange(moof, head, moof.len());
    assert(body@ =~= moof@.skip(head as int));
    let inner = children(body, at + header.header_len)?;
    let mut known = MoofSummary { sequence: None, first_sample_keyframe: None };
    let ghost list = kids_of(inner@);
    let mut index: usize = 0;
    assert(list.skip(0) =~= list);
    while index < inner.len()
        invariant
            index <= inner@.len(),
            list == kids_of(inner@),
            all_fit(inner@),
            moof_summary_spec(moof@, at) == summary_after(known, list.skip(index as int)),
        decreases inner@.len() - index,
    {
        let kid = inner[index];
        assert(list.skip(index as int)[0] == kid@);
        assert(list.skip(index as int).drop_first() =~= list.skip(index + 1));
        if kid.is(&MFHD) {
            let mut bytes = Bytes::at(kid.body, kid.at);
            bytes.full_box()?;
            known.sequence = Some(bytes.u32()?);
        } else if kid.is(&TRAF) && known.first_sample_keyframe.is_none() {
            match traf_first_sample_flags(&kid)? {
                Some(flags) => {
                    known.first_sample_keyframe = Some(flags & NON_SYNC == 0);
                },
                None => {},
            }
        }
        index = index + 1;
    }
    Ok(known)
}

/// The first sample's flags within one `traf`, per §8.8.8's precedence.
fn traf_first_sample_flags(traf: &Child<'_>) -> (flags: Result<Option<u32>>)
    requires
        traf.at + traf.body.len() <= u64::MAX,
    ensures
        settled(flags),
        flags == traf_flags_spec(traf@),
{
    let mut default: Option<u32> = None;
    let inner = children(traf.body, traf.at)?;
    let ghost list = kids_of(inner@);
    let mut index: usize = 0;
    assert(list.skip(0) =~= list);
    while index < inner.len()
        invariant
            index <= inner@.len(),
            list == kids_of(inner@),
            all_fit(inner@),
            traf_flags_spec(traf@) == flags_among(list.skip(index as int), default),
        decreases inner@.len() - index,
    {
        let kid = inner[index];
        assert(list.skip(index as int)[0] == kid@);
        assert(list.skip(index as int).drop_first() =~= list.skip(index + 1));
        if kid.is(&TFHD) {
            default = read_tfhd(kid.body, kid.at)?.default_flags;
        } else if kid.is(&TRUN) {
            let mut bytes = Bytes::at(kid.body, kid.at);
            let (_, flags) = bytes.full_box()?;
            let count: u32 = bytes.u32()?;
            if flags & 0x01 != 0 {
                bytes.skip(4)?;  // data_offset
            }
            if flags & 0x04 != 0 {
                return Ok(Some(bytes.u32()?));  // first_sample_flags
            }
            if flags & 0x400 != 0 && count > 0 {
                if flags & 0x100 != 0 {
                    bytes.skip(4)?;  // sample_duration
                }
                if flags & 0x200 != 0 {
                    bytes.skip(4)?;  // sample_size
                }
                return Ok(Some(bytes.u32()?));
            }
            // The first run decides; without flags of its own the tfhd
            // default, or nothing, stands.

            return Ok(default);
        }
        index = index + 1;
    }
    Ok(default)
}

// ------------------------------------------------------------------ //
// The segments.
// ------------------------------------------------------------------ //
/// One cut of the stream.
#[derive(Clone, Debug)]
pub enum Segment {
    /// Everything before the first `moof`: `ftyp`, `moov`, and any boxes
    /// between them. A late subscriber needs exactly these bytes before any
    /// fragment.
    Init(Init),
    /// One `moof` and the boxes through its `mdat`.
    Fragment(Fragment),
}

/// The init segment.
#[derive(Clone, Debug)]
pub struct Init {
    /// The segment bytes, verbatim.
    pub bytes: Vec<u8>,
    /// Absolute stream offset of the first byte.
    pub offset: u64,
}

/// One movie fragment (§8.8.4).
#[derive(Clone, Debug)]
pub struct Fragment {
    /// The fragment bytes, `moof` through `mdat`, verbatim.
    pub bytes: Vec<u8>,
    /// Absolute stream offset of the first byte, which is also the number
    /// [`Track::fragment_samples_at`] wants.
    ///
    /// [`Track::fragment_samples_at`]: crate::track::Track::fragment_samples_at
    pub offset: u64,
    /// The `mfhd` sequence number, when the fragment carries one (§8.8.5).
    pub sequence: Option<u32>,
    /// Whether the first sample is a sync sample. `None` when the sample
    /// flags live only in the `moov`'s `trex` defaults, which this scanner
    /// does not track.
    pub keyframe: Option<bool>,
}

/// A segment by what it holds.
pub enum Cut {
    Init { bytes: Seq<u8>, offset: u64 },
    Fragment { bytes: Seq<u8>, offset: u64, summary: MoofSummary },
}

impl Cut {
    /// The bytes of the segment.
    pub open spec fn bytes(self) -> Seq<u8> {
        match self {
            Cut::Init { bytes, .. } => bytes,
            Cut::Fragment { bytes, .. } => bytes,
        }
    }

    /// Where in the stream they begin.
    pub open spec fn offset(self) -> u64 {
        match self {
            Cut::Init { offset, .. } => offset,
            Cut::Fragment { offset, .. } => offset,
        }
    }
}

impl View for Segment {
    type V = Cut;

    open spec fn view(&self) -> Cut {
        match *self {
            Segment::Init(init) => Cut::Init { bytes: init.bytes@, offset: init.offset },
            Segment::Fragment(fragment) => Cut::Fragment {
                bytes: fragment.bytes@,
                offset: fragment.offset,
                summary: MoofSummary {
                    sequence: fragment.sequence,
                    first_sample_keyframe: fragment.keyframe,
                },
            },
        }
    }
}

/// A list of segments by what they hold.
pub open spec fn cuts_of(list: Seq<Segment>) -> Seq<Cut> {
    Seq::new(list.len(), |i: int| list[i]@)
}

/// How far into a stream a scanner is.
#[derive(Clone, Copy, Debug, PartialEq, Eq, Structural)]
pub enum Phase {
    /// Accumulating boxes before the first `moof`.
    Init,
    /// Cutting `moof`..`mdat` fragments.
    Fragments,
    /// Accumulating trailing boxes after the last fragment.
    Trailer,
}

/// Which pile the bytes of a box with no declared length go on.
#[derive(Clone, Copy, Debug, PartialEq, Eq, Structural)]
pub enum OpenEnded {
    No,
    Init,
    Fragment,
    Trailer,
}

// ------------------------------------------------------------------ //
// The scanner as a state and what moves it.
// ------------------------------------------------------------------ //
/// A scanner by what it holds.
pub struct Scan {
    /// Bytes that are not part of a whole box yet.
    pub buf: Seq<u8>,
    /// Absolute stream offset of `buf[0]`.
    pub base: u64,
    pub phase: Phase,
    /// Segments nobody has asked for yet.
    pub out: Seq<Cut>,
    /// The init segment being collected.
    pub init: Seq<u8>,
    pub saw_moov: bool,
    /// The fragment being collected; starts with its `moof`.
    pub frag: Seq<u8>,
    pub frag_start: u64,
    /// Length of the current fragment's `moof` box within `frag`.
    pub frag_moof_len: nat,
    pub trailer: Seq<u8>,
    /// Set once a box of declared size zero has opened: everything from then
    /// on belongs to it.
    pub open_ended: OpenEnded,
    /// Where in the stream that box begins.
    pub open_start: u64,
    pub limits: Limits,
}

/// Segments that lie end to end in the stream, the last ending at `end`.
pub open spec fn end_to_end(out: Seq<Cut>, end: int) -> bool {
    &&& forall|i: int|
        0 <= i < out.len() - 1 ==> (#[trigger] out[i]).offset() + out[i].bytes().len() == out[i
            + 1].offset()
    &&& out.len() > 0 ==> out.last().offset() + out.last().bytes().len() == end
}

/// Segments of which only the first can be an init segment.
pub open spec fn init_first(out: Seq<Cut>) -> bool {
    forall|i: int| 0 < i < out.len() ==> (#[trigger] out[i]) is Fragment
}

impl Scan {
    /// A scanner that has seen nothing.
    pub open spec fn fresh(limits: Limits) -> Scan {
        Scan {
            buf: Seq::empty(),
            base: 0,
            phase: Phase::Init,
            out: Seq::empty(),
            init: Seq::empty(),
            saw_moov: false,
            frag: Seq::empty(),
            frag_start: 0,
            frag_moof_len: 0,
            trailer: Seq::empty(),
            open_ended: OpenEnded::No,
            open_start: 0,
            limits,
        }
    }

    /// What holds of a scanner at every moment: it collects only what its
    /// phase is about, it knows where in the stream that began, and the
    /// segments it has cut lie end to end up to there.
    pub open spec fn sane(self) -> bool {
        &&& self.base + self.buf.len() <= u64::MAX
        &&& match self.phase {
            Phase::Init => {
                &&& self.out.len() == 0
                &&& self.frag.len() == 0
                &&& self.trailer.len() == 0
                &&& self.init.len() == self.base
            },
            Phase::Fragments => {
                &&& self.init.len() == 0
                &&& self.trailer.len() == 0
                &&& self.frag.len() > 0 ==> {
                    &&& self.frag_start + self.frag.len() == self.base
                    &&& self.frag_moof_len <= self.frag.len()
                }
                &&& self.frag.len() <= self.base
            },
            Phase::Trailer => {
                &&& self.init.len() == 0
                &&& self.frag.len() == 0
                &&& self.trailer.len() <= self.base
            },
        }
        &&& self.open_ended != OpenEnded::No ==> self.open_start <= self.base
        &&& match self.open_ended {
            OpenEnded::No => true,
            OpenEnded::Init => self.buf.len() == 0 && self.phase == Phase::Init,
            OpenEnded::Fragment => self.buf.len() == 0 && self.phase == Phase::Fragments
                && self.frag.len() > 0,
            OpenEnded::Trailer => self.buf.len() == 0 && self.phase == Phase::Trailer,
        }
        &&& init_first(self.out)
        &&& end_to_end(
            self.out,
            self.base - self.init.len() - self.frag.len() - self.trailer.len(),
        )
    }

    /// The refusal of an open-ended box of more bytes than the bound.
    pub open spec fn bound(self) -> Result<()> {
        if self.base - self.open_start > self.limits.max_buffered_box {
            Err(
                Error::unsupported("a box larger than this scanner will hold in memory").at(
                    self.base,
                ),
            )
        } else {
            Ok(())
        }
    }

    /// A box without a declared length, opened: what there is of it has been
    /// taken off what is buffered, and what comes belongs to it.
    pub open spec fn opened(self, pile: OpenEnded, start: u64) -> (Result<bool>, Scan) {
        let next = Scan { open_ended: pile, open_start: start, ..self };
        match next.bound() {
            Err(err) => (Err(err), next),
            Ok(_) => (Ok(false), next),
        }
    }

    /// A `moof` of declared size zero is open, and is all of the fragment.
    pub open spec fn in_open_moof(self) -> bool {
        self.open_ended == OpenEnded::Fragment && self.frag_moof_len == self.frag.len()
    }

    /// The first `size` bytes taken off what is buffered.
    pub open spec fn consumed(self, size: nat) -> Scan {
        Scan { buf: self.buf.skip(size as int), base: (self.base + size) as u64, ..self }
    }

    /// The fragment being collected, emitted. One whose `moof` cannot be
    /// read stays where it is.
    pub open spec fn closed(self) -> (Result<()>, Scan) {
        if self.frag.len() == 0 {
            (Err(Error::truncated("a fragment with no moof").at(self.frag_start)), self)
        } else {
            match moof_summary_spec(self.frag.take(self.frag_moof_len as int), self.frag_start) {
                Err(err) => (Err(err), self),
                Ok(summary) => (
                    Ok(()),
                    Scan {
                        frag: Seq::empty(),
                        frag_moof_len: 0,
                        out: self.out.push(
                            Cut::Fragment {
                                bytes: self.frag,
                                offset: self.frag_start,
                                summary,
                            },
                        ),
                        ..self
                    },
                ),
            }
        }
    }

    /// One look at a box before the first `moof`.
    pub open spec fn init_step(self, header: BoxHeader, size: nat) -> (Result<bool>, Scan) {
        let open = header.size == BoxSize::ToEnd;
        if header.kind == MOOF {
            if !self.saw_moov {
                (Err(Error::format("a moof before any moov").at(self.base)), self)
            } else {
                (
                    Ok(true),
                    Scan {
                        init: Seq::empty(),
                        phase: Phase::Fragments,
                        out: self.out.push(
                            Cut::Init {
                                bytes: self.init,
                                offset: (self.base - self.init.len()) as u64,
                            },
                        ),
                        ..self
                    },
                )
            }
        } else if !open && self.buf.len() < size {
            (Ok(false), self)
        } else {
            let next = Scan {
                saw_moov: self.saw_moov || header.kind == MOOV,
                init: self.init + self.buf.take(size as int),
                ..self.consumed(size)
            };
            if open {
                next.opened(OpenEnded::Init, self.base)
            } else {
                (Ok(true), next)
            }
        }
    }

    /// One look at a box of a fragment.
    pub open spec fn fragment_step(self, header: BoxHeader, size: nat) -> (Result<bool>, Scan) {
        let open = header.size == BoxSize::ToEnd;
        if self.frag.len() == 0 && header.kind != MOOF {
            (Ok(true), Scan { phase: Phase::Trailer, ..self })
        } else if self.frag.len() > 0 && header.kind == MOOF {
            (Err(Error::format("a moof before the previous fragment's mdat").at(self.base)), self)
        } else if !open && self.buf.len() < size {
            (Ok(false), self)
        } else {
            let next = Scan {
                frag: self.frag + self.buf.take(size as int),
                frag_start: if self.frag.len() == 0 {
                    self.base
                } else {
                    self.frag_start
                },
                frag_moof_len: if self.frag.len() == 0 {
                    size
                } else {
                    self.frag_moof_len
                },
                ..self.consumed(size)
            };
            if open {
                next.opened(OpenEnded::Fragment, self.base)
            } else if header.kind == MDAT {
                match next.closed() {
                    (Err(err), next) => (Err(err), next),
                    (Ok(_), next) => (Ok(true), next),
                }
            } else {
                (Ok(true), next)
            }
        }
    }

    /// One look at a box of the trailer.
    pub open spec fn trailer_step(self, header: BoxHeader, size: nat) -> (Result<bool>, Scan) {
        let open = header.size == BoxSize::ToEnd;
        if header.kind == MOOF {
            (Err(Error::format("a moof after the stream's trailer began").at(self.base)), self)
        } else if !open && self.buf.len() < size {
            (Ok(false), self)
        } else {
            let next = Scan {
                trailer: self.trailer + self.buf.take(size as int),
                ..self.consumed(size)
            };
            if open {
                next.opened(OpenEnded::Trailer, self.base)
            } else {
                (Ok(true), next)
            }
        }
    }

    /// One look at what is buffered: whether to look again, or why not.
    pub open spec fn step(self) -> (Result<bool>, Scan) {
        match parse_header_spec(self.buf, self.base) {
            Err(err) => (Err(err), self),
            Ok(None) => (Ok(false), self),
            Ok(Some(header)) => {
                let size = match header.size {
                    BoxSize::Exact(size) => size as nat,
                    BoxSize::ToEnd => self.buf.len(),
                };
                if header.size is Exact && size > self.limits.max_buffered_box {
                    (
                        Err(
                            Error::unsupported(
                                "a box larger than this scanner will hold in memory",
                            ).at(self.base).in_box(header.kind),
                        ),
                        self,
                    )
                } else {
                    match self.phase {
                        Phase::Init => self.init_step(header, size),
                        Phase::Fragments => self.fragment_step(header, size),
                        Phase::Trailer => self.trailer_step(header, size),
                    }
                }
            },
        }
    }

    /// How many phases are still ahead.
    pub open spec fn ahead(self) -> nat {
        match self.phase {
            Phase::Init => 2,
            Phase::Fragments => 1,
            Phase::Trailer => 0,
        }
    }

    /// As many whole boxes as there are, cut off what is buffered.
    #[verifier::opaque]
    pub open spec fn scanned(self) -> (Result<()>, Scan)
        decreases self.buf.len(), self.ahead(),
    {
        match self.step() {
            (Err(err), next) => (Err(err), next),
            (Ok(false), next) => (Ok(()), next),
            (Ok(true), next) => next.scanned(),
        }
    }

    /// More stream bytes.
    pub open spec fn pushed(self, chunk: Seq<u8>) -> (Result<()>, Scan) {
        let base = (self.base + chunk.len()) as u64;
        match self.open_ended {
            OpenEnded::No => (Scan { buf: self.buf + chunk, ..self }).scanned(),
            OpenEnded::Init => {
                let next = Scan { init: self.init + chunk, base, ..self };
                (next.bound(), next)
            },
            OpenEnded::Fragment => {
                let next = Scan {
                    frag: self.frag + chunk,
                    frag_moof_len: if self.in_open_moof() {
                        self.frag.len() + chunk.len()
                    } else {
                        self.frag_moof_len
                    },
                    base,
                    ..self
                };
                (next.bound(), next)
            },
            OpenEnded::Trailer => {
                let next = Scan { trailer: self.trailer + chunk, base, ..self };
                (next.bound(), next)
            },
        }
    }

    /// The end of the stream.
    pub open spec fn finished(self) -> (Result<()>, Scan) {
        match self.open_ended {
            OpenEnded::Fragment => match self.closed() {
                (Err(err), next) => (Err(err), next),
                (Ok(_), next) => (Ok(()), Scan { open_ended: OpenEnded::No, ..next }),
            },
            OpenEnded::No => (
                if self.frag.len() > 0 {
                    Err(
                        Error::truncated("the stream ended inside a fragment, with no mdat").at(
                            self.frag_start,
                        ),
                    )
                } else if self.buf.len() > 0 {
                    Err(Error::truncated("the stream ended inside a box").at(self.base))
                } else if self.phase == Phase::Init {
                    Err(
                        Error::truncated("the stream ended before any movie fragment").at(
                            self.base,
                        ),
                    )
                } else {
                    Ok(())
                },
                self,
            ),
            OpenEnded::Trailer => (Ok(()), Scan { open_ended: OpenEnded::No, ..self }),
            OpenEnded::Init => (
                Err(
                    Error::truncated(
                        "the stream ended inside an open-ended box before any fragment",
                    ).at(self.base),
                ),
                self,
            ),
        }
    }

    /// The segments less the one that was asked for.
    pub open spec fn polled(self) -> Scan {
        if self.out.len() == 0 {
            self
        } else {
            Scan { out: self.out.drop_first(), ..self }
        }
    }
}

// ------------------------------------------------------------------ //
// The scanner.
// ------------------------------------------------------------------ //
/// The incremental segmenter.
pub struct Scanner {
    buf: Vec<u8>,
    base: u64,
    phase: Phase,
    out: VecDeque<Segment>,
    init: Vec<u8>,
    saw_moov: bool,
    frag: Vec<u8>,
    frag_start: u64,
    frag_moof_len: usize,
    trailer: Vec<u8>,
    open_ended: OpenEnded,
    open_start: u64,
    limits: Limits,
}

impl View for Scanner {
    type V = Scan;

    closed spec fn view(&self) -> Scan {
        Scan {
            buf: self.buf@,
            base: self.base,
            phase: self.phase,
            out: cuts_of(self.out@),
            init: self.init@,
            saw_moov: self.saw_moov,
            frag: self.frag@,
            frag_start: self.frag_start,
            frag_moof_len: self.frag_moof_len as nat,
            trailer: self.trailer@,
            open_ended: self.open_ended,
            open_start: self.open_start,
            limits: self.limits,
        }
    }
}

/// Takes the first `count` bytes off a buffer.
fn cut(buf: &mut Vec<u8>, count: usize) -> (head: Vec<u8>)
    requires
        count <= old(buf)@.len(),
    ensures
        head@ == old(buf)@.take(count as int),
        final(buf)@ == old(buf)@.skip(count as int),
{
    let ghost before = buf@;
    let mut rest: Vec<u8> = buf.split_off(count);
    core::mem::swap(buf, &mut rest);
    assert(rest@ =~= before.take(count as int));
    assert(buf@ =~= before.skip(count as int));
    rest
}

impl Scanner {
    /// A scanner with the default bounds.
    pub fn new() -> (scanner: Self)
        ensures
            scanner@ == Scan::fresh(Limits::usual()),
            scanner@.sane(),
    {
        Self::with_limits(Limits::default())
    }

    /// A scanner with a caller's own bounds.
    pub fn with_limits(limits: Limits) -> (scanner: Self)
        ensures
            scanner@ == Scan::fresh(limits),
            scanner@.sane(),
    {
        let scanner = Scanner {
            buf: Vec::new(),
            base: 0,
            phase: Phase::Init,
            out: VecDeque::new(),
            init: Vec::new(),
            saw_moov: false,
            frag: Vec::new(),
            frag_start: 0,
            frag_moof_len: 0,
            trailer: Vec::new(),
            open_ended: OpenEnded::No,
            open_start: 0,
            limits,
        };
        proof {
            assert(scanner@.buf =~= Seq::empty());
            assert(scanner@.out =~= Seq::empty());
            assert(scanner@.init =~= Seq::empty());
            assert(scanner@.frag =~= Seq::empty());
            assert(scanner@.trailer =~= Seq::empty());
        }
        scanner
    }

    /// Feeds more stream bytes; complete segments queue for
    /// [`poll`](Self::poll).
    pub fn push(&mut self, chunk: &[u8]) -> (done: Result<()>)
        requires
            old(self)@.sane(),
            old(self)@.base + old(self)@.buf.len() + chunk.len() <= u64::MAX,
        ensures
            settled(done),
            (done, final(self)@) == old(self)@.pushed(chunk@),
            final(self)@.sane(),
    {
        match self.open_ended {
            OpenEnded::No => {
                put(&mut self.buf, chunk);
                self.scan()
            },
            OpenEnded::Init => {
                put(&mut self.init, chunk);
                self.base = self.base + chunk.len() as u64;
                self.bound()
            },
            OpenEnded::Fragment => {
                let moof_only: bool = self.frag_moof_len == self.frag.len();
                put(&mut self.frag, chunk);
                if moof_only {
                    self.frag_moof_len = self.frag.len();
                }
                self.base = self.base + chunk.len() as u64;
                self.bound()
            },
            OpenEnded::Trailer => {
                put(&mut self.trailer, chunk);
                self.base = self.base + chunk.len() as u64;
                self.bound()
            },
        }
    }

    /// Declares end of stream.
    ///
    /// A box of declared size zero ends here, and the fragment that held it
    /// is emitted. Anything else in flight is a truncation: a partial box
    /// header, a `moof` with no `mdat` after it, or a stream that never
    /// reached a fragment at all.
    pub fn finish(&mut self) -> (done: Result<()>)
        requires
            old(self)@.sane(),
        ensures
            settled(done),
            (done, final(self)@) == old(self)@.finished(),
            final(self)@.sane(),
    {
        match self.open_ended {
            OpenEnded::Fragment => {
                // §4.2's open-ended box closes at the end of the stream, so
                // the fragment it was part of is whole now.
                proof {
                    lemma_closed_sane(self@);
                }
                self.close_fragment()?;
                self.open_ended = OpenEnded::No;
                return Ok(());
            },
            OpenEnded::Trailer => {
                // The trailer is kept aside, so there is nothing to emit.
                self.open_ended = OpenEnded::No;
                return Ok(());
            },
            OpenEnded::Init => {
                return Err(
                    Error::truncated(
                        "the stream ended inside an open-ended box before any fragment",
                    ).at(self.base),
                );
            },
            OpenEnded::No => {},
        }
        if self.frag.len() > 0 {
            return Err(
                Error::truncated("the stream ended inside a fragment, with no mdat").at(
                    self.frag_start,
                ),
            );
        }
        if self.buf.len() > 0 {
            return Err(Error::truncated("the stream ended inside a box").at(self.base));
        }
        if matches!(self.phase, Phase::Init) {
            return Err(
                Error::truncated("the stream ended before any movie fragment").at(self.base),
            );
        }
        Ok(())
    }

    /// Cuts as many complete boxes off the head of `buf` as it holds.
    fn scan(&mut self) -> (done: Result<()>)
        requires
            old(self)@.sane(),
            old(self)@.open_ended == OpenEnded::No,
        ensures
            settled(done),
            (done, final(self)@) == old(self)@.scanned(),
            final(self)@.sane(),
    {
        loop
            invariant
                self@.sane(),
                self@.open_ended == OpenEnded::No,
                self@.scanned() == old(self)@.scanned(),
            decreases self@.buf.len(), self@.ahead(),
        {
            proof {
                reveal(Scan::scanned);
            }
            let more: bool = self.step()?;
            if !more {
                return Ok(());
            }
        }
    }

    /// One look at the head of `buf`: whether there is more to look at.
    fn step(&mut self) -> (more: Result<bool>)
        requires
            old(self)@.sane(),
            old(self)@.open_ended == OpenEnded::No,
        ensures
            settled(more),
            (more, final(self)@) == old(self)@.step(),
            final(self)@.sane(),
            more == Ok::<bool, Error>(true) ==> final(self)@.open_ended == OpenEnded::No,
    {
        proof {
            lemma_step_sane(self@);
        }
        let header = match parse_header(self.buf.as_slice(), self.base)? {
            Some(header) => header,
            None => return Ok(false),
        };
        let size: u64 = match header.size {
            BoxSize::Exact(size) => {
                if size > self.limits.max_buffered_box {
                    return Err(
                        Error::unsupported(
                            "a box larger than this scanner will hold in memory",
                        ).at(self.base).in_box(header.kind),
                    );
                }
                size
            },
            // Everything left, and everything still to come.
            BoxSize::ToEnd => self.buf.len() as u64,
        };
        match self.phase {
            Phase::Init => self.init_step(&header, size),
            Phase::Fragments => self.fragment_step(&header, size),
            Phase::Trailer => self.trailer_step(&header, size),
        }
    }

    fn init_step(&mut self, header: &BoxHeader, size: u64) -> (more: Result<bool>)
        requires
            old(self)@.sane(),
            old(self)@.phase == Phase::Init,
            header.size is ToEnd ==> size == old(self)@.buf.len(),
        ensures
            settled(more),
            (more, final(self)@) == old(self)@.init_step(*header, size as nat),
    {
        let open_ended: bool = header.size == BoxSize::ToEnd;
        if header.is(&MOOF) {
            if !self.saw_moov {
                return Err(Error::format("a moof before any moov").at(self.base));
            }
            let offset: u64 = self.base - self.init.len() as u64;
            let mut bytes: Vec<u8> = Vec::new();
            core::mem::swap(&mut bytes, &mut self.init);
            let ghost before = self.out@;
            let segment = Segment::Init(Init { bytes, offset });
            let ghost made = segment@;
            self.out.push_back(segment);
            self.phase = Phase::Fragments;
            proof {
                assert(cuts_of(self.out@) =~= cuts_of(before).push(made));
                assert(self.init@ =~= Seq::empty());
            }
            // The moof itself is handled by the next look.
            return Ok(true);
        }
        let held: usize = self.buf.len();
        if !open_ended && (held as u64) < size {
            return Ok(false);
        }
        if header.is(&MOOV) {
            self.saw_moov = true;
        }
        let start: u64 = self.base;
        let mut head = cut(&mut self.buf, size as usize);
        let ghost before = self.init@;
        self.init.append(&mut head);
        self.base = self.base + size;
        assert(self.init@ =~= before + old(self)@.buf.take(size as int));
        if open_ended {
            self.open_ended = OpenEnded::Init;
            self.open_start = start;
            self.bound()?;
            return Ok(false);
        }
        Ok(true)
    }

    fn fragment_step(&mut self, header: &BoxHeader, size: u64) -> (more: Result<bool>)
        requires
            old(self)@.sane(),
            old(self)@.phase == Phase::Fragments,
            header.size is ToEnd ==> size == old(self)@.buf.len(),
        ensures
            settled(more),
            (more, final(self)@) == old(self)@.fragment_step(*header, size as nat),
    {
        let open_ended: bool = header.size == BoxSize::ToEnd;
        let starts: bool = self.frag.len() == 0;
        if starts && !header.is(&MOOF) {
            // The stream's trailer has begun (ffmpeg: mfra).
            self.phase = Phase::Trailer;
            return Ok(true);
        }
        if !starts && header.is(&MOOF) {
            return Err(Error::format("a moof before the previous fragment's mdat").at(self.base));
        }
        let held: usize = self.buf.len();
        if !open_ended && (held as u64) < size {
            return Ok(false);
        }
        if starts {
            self.frag_start = self.base;
            self.frag_moof_len = size as usize;
        }
        let start: u64 = self.base;
        let mut head = cut(&mut self.buf, size as usize);
        let ghost before = self.frag@;
        self.frag.append(&mut head);
        self.base = self.base + size;
        assert(self.frag@ =~= before + old(self)@.buf.take(size as int));
        if open_ended {
            // An mdat that runs to the end of the stream: the fragment
            // closes when the stream does.
            self.open_ended = OpenEnded::Fragment;
            self.open_start = start;
            self.bound()?;
            return Ok(false);
        }
        if header.is(&MDAT) {
            self.close_fragment()?;
        }
        Ok(true)
    }

    fn trailer_step(&mut self, header: &BoxHeader, size: u64) -> (more: Result<bool>)
        requires
            old(self)@.sane(),
            old(self)@.phase == Phase::Trailer,
            header.size is ToEnd ==> size == old(self)@.buf.len(),
        ensures
            settled(more),
            (more, final(self)@) == old(self)@.trailer_step(*header, size as nat),
    {
        let open_ended: bool = header.size == BoxSize::ToEnd;
        if header.is(&MOOF) {
            return Err(Error::format("a moof after the stream's trailer began").at(self.base));
        }
        let held: usize = self.buf.len();
        if !open_ended && (held as u64) < size {
            return Ok(false);
        }
        let start: u64 = self.base;
        let mut head = cut(&mut self.buf, size as usize);
        let ghost before = self.trailer@;
        self.trailer.append(&mut head);
        self.base = self.base + size;
        assert(self.trailer@ =~= before + old(self)@.buf.take(size as int));
        if open_ended {
            self.open_ended = OpenEnded::Trailer;
            self.open_start = start;
            self.bound()?;
            return Ok(false);
        }
        Ok(true)
    }

    /// The next complete segment, if one is ready.
    pub fn poll(&mut self) -> (segment: Option<Segment>)
        requires
            old(self)@.sane(),
        ensures
            match segment {
                Some(segment) => old(self)@.out.len() > 0 && segment@ == old(self)@.out[0],
                None => old(self)@.out.len() == 0,
            },
            final(self)@ == old(self)@.polled(),
            final(self)@.sane(),
    {
        let segment = self.out.pop_front();
        proof {
            if segment is Some {
                assert(self@.out =~= old(self)@.out.drop_first());
                law_polling_keeps_a_scanner_sane(old(self)@);
            }
        }
        segment
    }

    /// Cumulative count of bytes fully consumed into segments or the
    /// trailer. Bytes still buffered are not counted.
    pub fn consumed(&self) -> (count: u64)
        ensures
            count == self@.base,
    {
        self.base
    }

    /// Trailing boxes after the last fragment, so far: `mfra` and kin. Not
    /// part of any segment, because a live subscriber cannot use them.
    pub fn trailer(&self) -> (trailer: &[u8])
        ensures
            trailer@ == self@.trailer,
    {
        self.trailer.as_slice()
    }

    /// Holds the box that is open to the bound on one.
    fn bound(&self) -> (bounded: Result<()>)
        requires
            self@.open_start <= self@.base,
        ensures
            settled(bounded),
            bounded == self@.bound(),
    {
        if self.base - self.open_start > self.limits.max_buffered_box {
            return Err(
                Error::unsupported("a box larger than this scanner will hold in memory").at(
                    self.base,
                ),
            );
        }
        Ok(())
    }

    fn close_fragment(&mut self) -> (done: Result<()>)
        requires
            old(self)@.frag.len() > 0 ==> old(self)@.frag_moof_len <= old(self)@.frag.len()
                && old(self)@.frag_start + old(self)@.frag.len() <= u64::MAX,
        ensures
            settled(done),
            (done, final(self)@) == old(self)@.closed(),
    {
        if self.frag.len() == 0 {
            return Err(Error::truncated("a fragment with no moof").at(self.frag_start));
        }
        let moof = slice_subrange(self.frag.as_slice(), 0, self.frag_moof_len);
        assert(moof@ =~= self.frag@.take(self.frag_moof_len as int));
        let summary: MoofSummary = moof_summary(moof, self.frag_start)?;
        let mut bytes: Vec<u8> = Vec::new();
        core::mem::swap(&mut bytes, &mut self.frag);
        let fragment = Fragment {
            bytes,
            offset: self.frag_start,
            sequence: summary.sequence,
            keyframe: summary.first_sample_keyframe,
        };
        self.frag_moof_len = 0;
        let ghost before = self.out@;
        let segment = Segment::Fragment(fragment);
        let ghost made = segment@;
        self.out.push_back(segment);
        proof {
            assert(cuts_of(self.out@) =~= cuts_of(before).push(made));
            assert(self.frag@ =~= Seq::empty());
        }
        Ok(())
    }
}

impl Default for Scanner {
    fn default() -> (scanner: Self)
        ensures
            scanner@ == Scan::fresh(Limits::usual()),
            scanner@.sane(),
    {
        Self::new()
    }
}

/// Asking for a segment leaves the rest of them, and the scanner, in order.
pub proof fn law_polling_keeps_a_scanner_sane(scan: Scan)
    requires
        scan.sane(),
    ensures
        scan.polled().sane(),
{
    let rest = scan.out.drop_first();
    if scan.out.len() > 0 {
        assert forall|i: int| 0 < i < rest.len() implies (#[trigger] rest[i]) is Fragment by {
            assert(rest[i] == scan.out[i + 1]);
        }
        assert forall|i: int| 0 <= i < rest.len() - 1 implies (#[trigger] rest[i]).offset()
            + rest[i].bytes().len() == rest[i + 1].offset() by {
            assert(rest[i] == scan.out[i + 1]);
            assert(rest[i + 1] == scan.out[i + 2]);
        }
        if rest.len() > 0 {
            assert(rest.last() == scan.out.last());
        }
    }
}

/// Segments in order with one more behind them are in order.
proof fn lemma_one_more(out: Seq<Cut>, cut: Cut, end: int)
    requires
        end_to_end(out, cut.offset() as int),
        init_first(out),
        out.len() > 0 ==> cut is Fragment,
        end == cut.offset() + cut.bytes().len(),
    ensures
        end_to_end(out.push(cut), end),
        init_first(out.push(cut)),
{
    let more = out.push(cut);
    assert forall|i: int| 0 <= i < more.len() - 1 implies (#[trigger] more[i]).offset()
        + more[i].bytes().len() == more[i + 1].offset() by {
        if i == out.len() - 1 {
            assert(out.last() == more[i]);
        } else {
            assert(more[i] == out[i] && more[i + 1] == out[i + 1]);
        }
    }
    assert forall|i: int| 0 < i < more.len() implies (#[trigger] more[i]) is Fragment by {
        if i < out.len() {
            assert(more[i] == out[i]);
        }
    }
}

proof fn lemma_closed_sane(scan: Scan)
    requires
        scan.phase == Phase::Fragments,
        scan.frag.len() > 0,
        (Scan { open_ended: OpenEnded::No, ..scan }).sane(),
    ensures
        (Scan { open_ended: OpenEnded::No, ..scan.closed().1 }).sane(),
{
    match moof_summary_spec(scan.frag.take(scan.frag_moof_len as int), scan.frag_start) {
        Ok(summary) => {
            lemma_one_more(
                scan.out,
                Cut::Fragment { bytes: scan.frag, offset: scan.frag_start, summary },
                scan.base as int,
            );
        },
        Err(_) => {},
    }
}

/// A look at what is buffered keeps a scanner sane, and only the last look
/// opens a box without an end.
#[verifier::rlimit(40)]
proof fn lemma_step_sane(scan: Scan)
    requires
        scan.sane(),
        scan.open_ended == OpenEnded::No,
    ensures
        scan.step().1.sane(),
        scan.step().0 == Ok::<bool, Error>(true) ==> scan.step().1.open_ended == OpenEnded::No,
{
    if let Ok(Some(header)) = parse_header_spec(scan.buf, scan.base) {
        let size = match header.size {
            BoxSize::Exact(size) => size as nat,
            BoxSize::ToEnd => scan.buf.len(),
        };
        if scan.phase == Phase::Init && header.kind == MOOF {
            lemma_one_more(
                scan.out,
                Cut::Init { bytes: scan.init, offset: (scan.base - scan.init.len()) as u64 },
                scan.base as int,
            );
        }
        if scan.phase == Phase::Fragments && size <= scan.buf.len() && (scan.frag.len() == 0) == (
        header.kind == MOOF) {
            let next = Scan {
                frag: scan.frag + scan.buf.take(size as int),
                frag_start: if scan.frag.len() == 0 {
                    scan.base
                } else {
                    scan.frag_start
                },
                frag_moof_len: if scan.frag.len() == 0 {
                    size
                } else {
                    scan.frag_moof_len
                },
                ..scan.consumed(size)
            };
            assert(next.sane());
            lemma_closed_sane(next);
        }
    }
}

// ------------------------------------------------------------------ //
// What holds of the whole.
// ------------------------------------------------------------------ //
/// The bytes of segments, one behind another.
pub open spec fn flat(out: Seq<Cut>) -> Seq<u8>
    decreases out.len(),
{
    if out.len() == 0 {
        Seq::empty()
    } else {
        flat(out.drop_last()) + out.last().bytes()
    }
}

impl Scan {
    /// Everything a scanner has, in stream order.
    pub open spec fn held(self) -> Seq<u8> {
        flat(self.out) + self.init + self.frag + self.trailer + self.buf
    }

    /// The scanner with more bytes buffered and not looked at.
    pub open spec fn with(self, more: Seq<u8>) -> Scan {
        Scan { buf: self.buf + more, ..self }
    }

    /// The scanner with more segments nobody has asked for, in front.
    pub open spec fn behind(self, front: Seq<Cut>) -> Scan {
        Scan { out: front + self.out, ..self }
    }

    /// Several chunks, one after another, up to the first that is refused.
    pub open spec fn all_pushed(self, chunks: Seq<Seq<u8>>) -> (Result<()>, Scan)
        decreases chunks.len(),
    {
        if chunks.len() == 0 {
            (Ok(()), self)
        } else {
            match self.all_pushed(chunks.drop_last()) {
                (Err(err), next) => (Err(err), next),
                (Ok(_), next) => next.pushed(chunks.last()),
            }
        }
    }
}

proof fn lemma_flat_push(out: Seq<Cut>, cut: Cut)
    ensures
        flat(out.push(cut)) == flat(out) + cut.bytes(),
{
    assert(out.push(cut).drop_last() =~= out);
}

proof fn lemma_closed_held(scan: Scan)
    requires
        scan.init.len() == 0,
    ensures
        scan.closed().1.held() == scan.held(),
        scan.closed().1.buf == scan.buf,
        scan.closed().1.base == scan.base,
{
    if scan.frag.len() > 0 {
        if let Ok(summary) = moof_summary_spec(
            scan.frag.take(scan.frag_moof_len as int),
            scan.frag_start,
        ) {
            lemma_flat_push(
                scan.out,
                Cut::Fragment { bytes: scan.frag, offset: scan.frag_start, summary },
            );
            assert(scan.closed().1.held() =~= scan.held());
        }
    }
}

/// Bytes that are a pile and then a buffer stay so when the head of the
/// buffer goes on the pile.
proof fn lemma_pile(front: Seq<u8>, pile: Seq<u8>, buf: Seq<u8>, size: int)
    requires
        0 <= size <= buf.len(),
    ensures
        front + (pile + buf.take(size)) + buf.skip(size) == front + pile + buf,
{
    assert(front + (pile + buf.take(size)) + buf.skip(size) =~= front + pile + buf);
}

proof fn lemma_init_step_held(scan: Scan, header: BoxHeader, size: nat)
    requires
        scan.sane(),
        scan.phase == Phase::Init,
        header.size == BoxSize::ToEnd ==> size == scan.buf.len(),
    ensures
        scan.init_step(header, size).1.held() == scan.held(),
        ({
            let next = scan.init_step(header, size).1;
            next.base + next.buf.len() == scan.base + scan.buf.len()
        }),
{
    let none = Seq::<u8>::empty();
    assert(scan.frag =~= none && scan.trailer =~= none);
    if header.kind == MOOF {
        lemma_flat_push(
            scan.out,
            Cut::Init { bytes: scan.init, offset: (scan.base - scan.init.len()) as u64 },
        );
        assert(flat(scan.out) + scan.init + none =~= flat(scan.out) + scan.init);
    } else if size <= scan.buf.len() {
        lemma_pile(flat(scan.out), scan.init, scan.buf, size as int);
        let pile = scan.init + scan.buf.take(size as int);
        assert(flat(scan.out) + pile + none + none =~= flat(scan.out) + pile);
        assert(flat(scan.out) + scan.init + none + none =~= flat(scan.out) + scan.init);
    }
}

proof fn lemma_fragment_step_held(scan: Scan, header: BoxHeader, size: nat)
    requires
        scan.sane(),
        scan.phase == Phase::Fragments,
        header.size == BoxSize::ToEnd ==> size == scan.buf.len(),
    ensures
        scan.fragment_step(header, size).1.held() == scan.held(),
        ({
            let next = scan.fragment_step(header, size).1;
            next.base + next.buf.len() == scan.base + scan.buf.len()
        }),
{
    let none = Seq::<u8>::empty();
    assert(scan.init =~= none && scan.trailer =~= none);
    if size <= scan.buf.len() {
        let next = Scan {
            frag: scan.frag + scan.buf.take(size as int),
            frag_start: if scan.frag.len() == 0 {
                scan.base
            } else {
                scan.frag_start
            },
            frag_moof_len: if scan.frag.len() == 0 {
                size
            } else {
                scan.frag_moof_len
            },
            ..scan.consumed(size)
        };
        lemma_pile(flat(scan.out) + none, scan.frag, scan.buf, size as int);
        assert(flat(scan.out) + none + next.frag + none =~= flat(scan.out) + none + next.frag);
        assert(flat(scan.out) + none + scan.frag + none =~= flat(scan.out) + none + scan.frag);
        assert(next.held() == scan.held());
        lemma_closed_held(next);
    }
}

proof fn lemma_trailer_step_held(scan: Scan, header: BoxHeader, size: nat)
    requires
        scan.sane(),
        scan.phase == Phase::Trailer,
        header.size == BoxSize::ToEnd ==> size == scan.buf.len(),
    ensures
        scan.trailer_step(header, size).1.held() == scan.held(),
        ({
            let next = scan.trailer_step(header, size).1;
            next.base + next.buf.len() == scan.base + scan.buf.len()
        }),
{
    if size <= scan.buf.len() {
        lemma_pile(
            flat(scan.out) + scan.init + scan.frag,
            scan.trailer,
            scan.buf,
            size as int,
        );
    }
}

proof fn lemma_step_held(scan: Scan)
    requires
        scan.sane(),
        scan.open_ended == OpenEnded::No,
    ensures
        scan.step().1.held() == scan.held(),
        scan.step().1.base + scan.step().1.buf.len() == scan.base + scan.buf.len(),
{
    if let Ok(Some(header)) = parse_header_spec(scan.buf, scan.base) {
        let size = match header.size {
            BoxSize::Exact(size) => size as nat,
            BoxSize::ToEnd => scan.buf.len(),
        };
        match scan.phase {
            Phase::Init => lemma_init_step_held(scan, header, size),
            Phase::Fragments => lemma_fragment_step_held(scan, header, size),
            Phase::Trailer => lemma_trailer_step_held(scan, header, size),
        }
    }
}

proof fn lemma_scanned_held(scan: Scan)
    requires
        scan.sane(),
        scan.open_ended == OpenEnded::No,
    ensures
        scan.scanned().1.held() == scan.held(),
        scan.scanned().1.base + scan.scanned().1.buf.len() == scan.base + scan.buf.len(),
    decreases scan.buf.len(), scan.ahead(),
{
    reveal(Scan::scanned);
    lemma_step_sane(scan);
    lemma_step_held(scan);
    if let (Ok(true), next) = scan.step() {
        lemma_scanned_held(next);
    }
}

/// Nothing is lost, made up or moved: whatever becomes of a chunk, refused
/// or not, the segments, the piles and the buffer of the scanner hold, in
/// stream order, what they held before and then the chunk.
#[verifier::rlimit(40)]
pub proof fn law_nothing_is_lost(scan: Scan, chunk: Seq<u8>)
    requires
        scan.sane(),
        scan.base + scan.buf.len() + chunk.len() <= u64::MAX,
    ensures
        ({
            let next = scan.pushed(chunk).1;
            &&& next.held() == scan.held() + chunk
            &&& next.base + next.buf.len() == scan.base + scan.buf.len() + chunk.len()
        }),
{
    if scan.open_ended == OpenEnded::No {
        let fed = Scan { buf: scan.buf + chunk, ..scan };
        assert(fed.sane());
        lemma_scanned_held(fed);
        assert(fed.held() =~= scan.held() + chunk);
    } else {
        assert(scan.pushed(chunk).1.held() =~= scan.held() + chunk);
    }
}

/// The end of the stream loses nothing either.
pub proof fn law_finishing_loses_nothing(scan: Scan)
    requires
        scan.sane(),
    ensures
        scan.finished().1.held() == scan.held(),
        scan.finished().1.base == scan.base,
{
    if scan.open_ended == OpenEnded::Fragment {
        lemma_closed_held(scan);
    }
}

proof fn lemma_step_extends(scan: Scan, more: Seq<u8>)
    requires
        scan.step().0 == Ok::<bool, Error>(true),
    ensures
        scan.with(more).step() == (Ok::<bool, Error>(true), scan.step().1.with(more)),
{
    let wide = scan.with(more);
    law_header_needs_no_more(scan.buf, more, scan.base);
    if let Ok(Some(header)) = parse_header_spec(scan.buf, scan.base) {
        let size = match header.size {
            BoxSize::Exact(size) => size as nat,
            BoxSize::ToEnd => scan.buf.len(),
        };
        if size <= scan.buf.len() {
            assert(wide.buf.take(size as int) =~= scan.buf.take(size as int));
            assert(wide.buf.skip(size as int) =~= scan.buf.skip(size as int) + more);
        }
    }
}

/// A look that leaves nothing more to look at, and opens no box without an
/// end, changes nothing.
proof fn lemma_step_waits(scan: Scan)
    requires
        scan.open_ended == OpenEnded::No,
        scan.step().0 == Ok::<bool, Error>(false),
        scan.step().1.open_ended == OpenEnded::No,
    ensures
        scan.step().1 == scan,
{
}

#[verifier::rlimit(40)]
proof fn lemma_step_opens(scan: Scan, more: Seq<u8>)
    requires
        scan.sane(),
        scan.open_ended == OpenEnded::No,
        scan.base + scan.buf.len() + more.len() <= u64::MAX,
        scan.step().0 == Ok::<bool, Error>(false),
        scan.step().1.open_ended != OpenEnded::No,
    ensures
        scan.with(more).scanned() == scan.step().1.pushed(more),
{
    let wide = scan.with(more);
    law_header_needs_no_more(scan.buf, more, scan.base);
    reveal_with_fuel(Scan::scanned, 2);
    if let Ok(Some(header)) = parse_header_spec(scan.buf, scan.base) {
        assert(header.size == BoxSize::ToEnd);
        assert(wide.buf.take(wide.buf.len() as int) =~= wide.buf);
        assert(scan.buf.take(scan.buf.len() as int) =~= scan.buf);
        assert(wide.buf.skip(wide.buf.len() as int) =~= Seq::empty());
        assert(scan.buf.skip(scan.buf.len() as int) =~= Seq::empty());
        assert(scan.init + wide.buf =~= scan.init + scan.buf + more);
        assert(scan.frag + wide.buf =~= scan.frag + scan.buf + more);
        assert(scan.trailer + wide.buf =~= scan.trailer + scan.buf + more);
    }
}

/// What is refused of a part of a stream is refused of the whole.
#[verifier::rlimit(40)]
proof fn lemma_step_refuses(scan: Scan, more: Seq<u8>)
    requires
        scan.sane(),
        scan.open_ended == OpenEnded::No,
        scan.base + scan.buf.len() + more.len() <= u64::MAX,
        scan.step().0 is Err,
    ensures
        scan.with(more).step().0 is Err,
{
    let wide = scan.with(more);
    law_header_needs_no_more(scan.buf, more, scan.base);
    if let Ok(Some(header)) = parse_header_spec(scan.buf, scan.base) {
        let size = match header.size {
            BoxSize::Exact(size) => size as nat,
            BoxSize::ToEnd => scan.buf.len(),
        };
        if size <= scan.buf.len() {
            assert(wide.buf.take(size as int) =~= scan.buf.take(size as int));
        }
    }
}

#[verifier::rlimit(40)]
proof fn lemma_scanned_extends(scan: Scan, more: Seq<u8>)
    requires
        scan.sane(),
        scan.open_ended == OpenEnded::No,
        scan.base + scan.buf.len() + more.len() <= u64::MAX,
    ensures
        scan.scanned().0 is Ok ==> scan.with(more).scanned() == scan.scanned().1.pushed(more),
        scan.scanned().0 is Err ==> scan.with(more).scanned().0 is Err,
    decreases scan.buf.len(), scan.ahead(),
{
    reveal(Scan::scanned);
    lemma_step_sane(scan);
    lemma_step_held(scan);
    match scan.step() {
        (Ok(true), next) => {
            lemma_step_extends(scan, more);
            lemma_scanned_extends(next, more);
        },
        (Ok(false), next) => {
            if next.open_ended == OpenEnded::No {
                lemma_step_waits(scan);
            } else {
                lemma_step_opens(scan, more);
            }
        },
        _ => {
            lemma_step_refuses(scan, more);
        },
    }
}

/// A stream cuts the same way whatever size the chunks are: a chunk that was
/// taken and then another come to what the two of them together come to, the
/// same outcome and the same scanner; and a chunk that is refused is refused
/// with whatever follows it.
#[verifier::rlimit(40)]
pub proof fn law_chunks_do_not_matter(scan: Scan, one: Seq<u8>, two: Seq<u8>)
    requires
        scan.sane(),
        scan.base + scan.buf.len() + one.len() + two.len() <= u64::MAX,
    ensures
        scan.pushed(one).0 is Ok ==> scan.pushed(one + two) == scan.pushed(one).1.pushed(two),
        scan.pushed(one).0 is Err ==> scan.pushed(one + two).0 is Err,
{
    if scan.open_ended == OpenEnded::No {
        let fed = Scan { buf: scan.buf + one, ..scan };
        assert(fed.with(two).buf =~= scan.buf + (one + two));
        assert(scan.pushed(one) == fed.scanned());
        assert(scan.pushed(one + two) == fed.with(two).scanned());
        assert(fed.sane());
        lemma_scanned_extends(fed, two);
    } else {
        lemma_open_box_grows(scan, one, two);
    }
}

proof fn lemma_open_box_grows(scan: Scan, one: Seq<u8>, two: Seq<u8>)
    requires
        scan.sane(),
        scan.base + scan.buf.len() + one.len() + two.len() <= u64::MAX,
        scan.open_ended != OpenEnded::No,
    ensures
        scan.pushed(one).0 is Ok ==> scan.pushed(one + two) == scan.pushed(one).1.pushed(two),
        scan.pushed(one).0 is Err ==> scan.pushed(one + two).0 is Err,
{
    match scan.open_ended {
        OpenEnded::No => {},
        OpenEnded::Init => assert(scan.init + one + two =~= scan.init + (one + two)),
        OpenEnded::Fragment => assert(scan.frag + one + two =~= scan.frag + (one + two)),
        OpenEnded::Trailer => assert(scan.trailer + one + two =~= scan.trailer + (one + two)),
    }
}

/// Bytes of several chunks, one behind another.
pub open spec fn joined_chunks(chunks: Seq<Seq<u8>>) -> Seq<u8>
    decreases chunks.len(),
{
    if chunks.len() == 0 {
        Seq::empty()
    } else {
        joined_chunks(chunks.drop_last()) + chunks.last()
    }
}

proof fn lemma_pushed_sane(scan: Scan, chunk: Seq<u8>)
    requires
        scan.sane(),
        scan.base + scan.buf.len() + chunk.len() <= u64::MAX,
    ensures
        scan.pushed(chunk).1.sane(),
{
    if scan.open_ended == OpenEnded::No {
        lemma_scanned_sane(Scan { buf: scan.buf + chunk, ..scan });
    }
}

proof fn lemma_scanned_sane(scan: Scan)
    requires
        scan.sane(),
        scan.open_ended == OpenEnded::No,
    ensures
        scan.scanned().1.sane(),
    decreases scan.buf.len(), scan.ahead(),
{
    reveal(Scan::scanned);
    lemma_step_sane(scan);
    if let (Ok(true), next) = scan.step() {
        lemma_scanned_sane(next);
    }
}

/// The same of any number of chunks: where all their bytes in one chunk are
/// taken, every one of them is, and they leave the scanner that the one
/// chunk leaves; and where they are taken one after another, so are all
/// their bytes in one.
pub proof fn law_any_chunking_is_the_same(scan: Scan, chunks: Seq<Seq<u8>>)
    requires
        scan.sane(),
        chunks.len() > 0,
        scan.base + scan.buf.len() + joined_chunks(chunks).len() <= u64::MAX,
    ensures
        scan.pushed(joined_chunks(chunks)).0 is Ok || scan.all_pushed(chunks).0 is Ok
            ==> scan.all_pushed(chunks) == scan.pushed(joined_chunks(chunks)),
    decreases chunks.len(),
{
    let most = chunks.drop_last();
    if chunks.len() == 1 {
        assert(joined_chunks(most) =~= Seq::empty());
        assert(joined_chunks(chunks) =~= chunks.last());
        assert(scan.all_pushed(most) == (Ok::<(), Error>(()), scan));
    } else {
        law_any_chunking_is_the_same(scan, most);
        law_chunks_do_not_matter(scan, joined_chunks(most), chunks.last());
    }
}

#[verifier::rlimit(40)]
proof fn lemma_scanned_behind(scan: Scan, front: Seq<Cut>)
    ensures
        scan.behind(front).scanned() == (scan.scanned().0, scan.scanned().1.behind(front)),
    decreases scan.buf.len(), scan.ahead(),
{
    reveal(Scan::scanned);
    let wide = scan.behind(front);
    assert forall|cut: Cut| #[trigger]
        (front + scan.out).push(cut) == front + scan.out.push(cut) by {
        assert((front + scan.out).push(cut) =~= front + scan.out.push(cut));
    }
    assert(wide.step() == (scan.step().0, scan.step().1.behind(front)));
    if let (Ok(true), next) = scan.step() {
        lemma_scanned_behind(next, front);
    }
}

/// When segments are asked for does not matter: those still waiting change
/// neither what becomes of a chunk nor what comes behind them.
pub proof fn law_polling_does_not_matter(scan: Scan, front: Seq<Cut>, chunk: Seq<u8>)
    ensures
        scan.behind(front).pushed(chunk) == (
            scan.pushed(chunk).0,
            scan.pushed(chunk).1.behind(front),
        ),
{
    lemma_scanned_behind(Scan { buf: scan.buf + chunk, ..scan }, front);
}

/// Whether a box is one a scanner will hold.
pub open spec fn holdable(limits: Limits, payload: Seq<u8>) -> bool {
    fits(payload) && 8 + payload.len() <= limits.max_buffered_box
}

/// A box before the first `moof` goes on the init segment whole, whatever is
/// buffered behind it.
pub proof fn law_a_box_joins_the_init_segment(
    scan: Scan,
    kind: [u8; 4],
    payload: Seq<u8>,
    rest: Seq<u8>,
)
    requires
        scan.sane(),
        scan.open_ended == OpenEnded::No,
        scan.phase == Phase::Init,
        kind != MOOF,
        holdable(scan.limits, payload),
        scan.buf == boxed_spec(kind, payload) + rest,
    ensures
        scan.scanned() == (Scan {
            buf: rest,
            base: (scan.base + 8 + payload.len()) as u64,
            init: scan.init + boxed_spec(kind, payload),
            saw_moov: scan.saw_moov || kind == MOOV,
            ..scan
        }).scanned(),
{
    reveal(Scan::scanned);
    law_built_header_reads_back(kind, payload, rest, scan.base);
    let size = (8 + payload.len()) as int;
    assert(scan.buf.take(size) =~= boxed_spec(kind, payload));
    assert(scan.buf.skip(size) =~= rest);
}

/// The first `moof` cuts the init segment off, whole and from the start of
/// the stream.
pub proof fn law_the_first_moof_cuts_the_init_segment(scan: Scan, payload: Seq<u8>, rest: Seq<u8>)
    requires
        scan.sane(),
        scan.open_ended == OpenEnded::No,
        scan.phase == Phase::Init,
        scan.saw_moov,
        holdable(scan.limits, payload),
        scan.buf == boxed_spec(MOOF, payload) + rest,
    ensures
        scan.scanned() == (Scan {
            phase: Phase::Fragments,
            out: seq![Cut::Init { bytes: scan.init, offset: 0 }],
            init: Seq::empty(),
            ..scan
        }).scanned(),
{
    reveal(Scan::scanned);
    law_built_header_reads_back(MOOF, payload, rest, scan.base);
    assert(scan.out.push(Cut::Init { bytes: scan.init, offset: 0 }) =~= seq![
        Cut::Init { bytes: scan.init, offset: 0 },
    ]);
}

/// A `moof` starts a fragment.
proof fn lemma_a_moof_starts(scan: Scan, moof: Seq<u8>, rest: Seq<u8>)
    requires
        scan.sane(),
        scan.open_ended == OpenEnded::No,
        scan.phase == Phase::Fragments,
        scan.frag.len() == 0,
        holdable(scan.limits, moof),
        scan.buf == boxed_spec(MOOF, moof) + rest,
    ensures
        scan.step() == (
            Ok::<bool, Error>(true),
            Scan {
                buf: rest,
                base: (scan.base + 8 + moof.len()) as u64,
                frag: boxed_spec(MOOF, moof),
                frag_start: scan.base,
                frag_moof_len: 8 + moof.len(),
                ..scan
            },
        ),
{
    let head = boxed_spec(MOOF, moof);
    let size = (8 + moof.len()) as int;
    law_built_header_reads_back(MOOF, moof, rest, scan.base);
    assert(scan.buf.take(size) =~= head);
    assert(scan.buf.skip(size) =~= rest);
    assert(scan.frag + head =~= head);
}

/// An `mdat` ends it.
proof fn lemma_an_mdat_ends(scan: Scan, moof: Seq<u8>, mdat: Seq<u8>, rest: Seq<u8>)
    requires
        scan.sane(),
        scan.open_ended == OpenEnded::No,
        scan.phase == Phase::Fragments,
        scan.frag == boxed_spec(MOOF, moof),
        scan.frag_moof_len == scan.frag.len(),
        holdable(scan.limits, mdat),
        scan.frag.len() > 0,
        moof_summary_spec(scan.frag, scan.frag_start) is Ok,
        scan.buf == boxed_spec(MDAT, mdat) + rest,
    ensures
        scan.step() == (
            Ok::<bool, Error>(true),
            Scan {
                buf: rest,
                base: (scan.base + 8 + mdat.len()) as u64,
                out: scan.out.push(
                    Cut::Fragment {
                        bytes: scan.frag + boxed_spec(MDAT, mdat),
                        offset: scan.frag_start,
                        summary: moof_summary_spec(scan.frag, scan.frag_start)->Ok_0,
                    },
                ),
                frag: Seq::empty(),
                frag_moof_len: 0,
                ..scan
            },
        ),
{
    let data = boxed_spec(MDAT, mdat);
    let size = (8 + mdat.len()) as int;
    law_built_header_reads_back(MDAT, mdat, rest, scan.base);
    assert(scan.buf.take(size) =~= data);
    assert(scan.buf.skip(size) =~= rest);
    assert((scan.frag + data).take(scan.frag_moof_len as int) =~= scan.frag);
}

/// A `moof` and the `mdat` after it come out as one fragment, verbatim,
/// where they were in the stream, with what the `moof` says of itself.
#[verifier::rlimit(40)]
pub proof fn law_a_fragment_is_cut(scan: Scan, moof: Seq<u8>, mdat: Seq<u8>, rest: Seq<u8>)
    requires
        scan.sane(),
        scan.open_ended == OpenEnded::No,
        scan.phase == Phase::Fragments,
        scan.frag.len() == 0,
        holdable(scan.limits, moof),
        holdable(scan.limits, mdat),
        moof_summary_spec(boxed_spec(MOOF, moof), scan.base) is Ok,
        scan.buf == boxed_spec(MOOF, moof) + boxed_spec(MDAT, mdat) + rest,
    ensures
        scan.scanned() == (Scan {
            buf: rest,
            base: (scan.base + 16 + moof.len() + mdat.len()) as u64,
            out: scan.out.push(
                Cut::Fragment {
                    bytes: boxed_spec(MOOF, moof) + boxed_spec(MDAT, mdat),
                    offset: scan.base,
                    summary: moof_summary_spec(boxed_spec(MOOF, moof), scan.base)->Ok_0,
                },
            ),
            frag: Seq::empty(),
            frag_start: scan.base,
            frag_moof_len: 0,
            ..scan
        }).scanned(),
{
    let head = boxed_spec(MOOF, moof);
    let data = boxed_spec(MDAT, mdat);
    assert(scan.buf =~= head + (data + rest));
    lemma_boxed_len(MOOF, moof);
    let next = Scan {
        buf: data + rest,
        base: (scan.base + 8 + moof.len()) as u64,
        frag: head,
        frag_start: scan.base,
        frag_moof_len: 8 + moof.len(),
        ..scan
    };
    let last = Scan {
        buf: rest,
        base: (scan.base + 16 + moof.len() + mdat.len()) as u64,
        out: scan.out.push(
            Cut::Fragment {
                bytes: head + data,
                offset: scan.base,
                summary: moof_summary_spec(head, scan.base)->Ok_0,
            },
        ),
        frag: Seq::empty(),
        frag_start: scan.base,
        frag_moof_len: 0,
        ..scan
    };
    lemma_a_moof_starts(scan, moof, data + rest);
    lemma_scans_on(scan, next);
    assert(next.sane()) by {
        lemma_step_sane(scan);
    }
    lemma_an_mdat_ends(next, moof, mdat, rest);
    lemma_scans_on(next, last);
}

/// A look that leaves more to look at is the first of the looks.
proof fn lemma_scans_on(scan: Scan, next: Scan)
    requires
        scan.step() == (Ok::<bool, Error>(true), next),
    ensures
        scan.scanned() == next.scanned(),
{
    reveal(Scan::scanned);
}

/// What is still waiting to be asked for does not matter at the end of the
/// stream either.
pub proof fn law_polling_does_not_matter_at_the_end(scan: Scan, front: Seq<Cut>)
    ensures
        scan.behind(front).finished() == (scan.finished().0, scan.finished().1.behind(front)),
{
    assert forall|cut: Cut| #[trigger]
        (front + scan.out).push(cut) == front + scan.out.push(cut) by {
        assert((front + scan.out).push(cut) =~= front + scan.out.push(cut));
    }
}

/// What holds of the segments of a scanner nobody has asked: the first is
/// the init segment, from the start of the stream, and the trailer comes
/// after a fragment.
pub open spec fn begun(scan: Scan) -> bool {
    match scan.phase {
        Phase::Init => true,
        Phase::Fragments => {
            &&& scan.out.len() >= 1
            &&& scan.out[0] is Init
            &&& scan.out[0].offset() == 0
            &&& scan.out.len() == 1 && scan.frag.len() == 0 ==> (parse_header_spec(
                scan.buf,
                scan.base,
            ) matches Ok(Some(header)) && header.kind == MOOF)
        },
        Phase::Trailer => {
            &&& scan.out.len() >= 2
            &&& scan.out[0] is Init
            &&& scan.out[0].offset() == 0
        },
    }
}

#[verifier::rlimit(40)]
proof fn lemma_step_begun(scan: Scan)
    requires
        scan.sane(),
        scan.open_ended == OpenEnded::No,
        begun(scan),
    ensures
        begun(scan.step().1),
{
    if scan.phase == Phase::Fragments {
        if let Ok(Some(header)) = parse_header_spec(scan.buf, scan.base) {
            assert(begun(scan.fragment_step(header, match header.size {
                BoxSize::Exact(size) => size as nat,
                BoxSize::ToEnd => scan.buf.len(),
            }).1));
        }
    }
}

proof fn lemma_scanned_begun(scan: Scan)
    requires
        scan.sane(),
        scan.open_ended == OpenEnded::No,
        begun(scan),
    ensures
        begun(scan.scanned().1),
    decreases scan.buf.len(), scan.ahead(),
{
    reveal(Scan::scanned);
    lemma_step_sane(scan);
    lemma_step_begun(scan);
    if let (Ok(true), next) = scan.step() {
        lemma_scanned_begun(next);
    }
}

proof fn lemma_pushed_begun(scan: Scan, chunk: Seq<u8>)
    requires
        scan.sane(),
        scan.base + scan.buf.len() + chunk.len() <= u64::MAX,
        begun(scan),
    ensures
        begun(scan.pushed(chunk).1),
{
    law_header_needs_no_more(scan.buf, chunk, scan.base);
    if scan.open_ended == OpenEnded::No {
        let fed = Scan { buf: scan.buf + chunk, ..scan };
        assert(fed.sane());
        lemma_scanned_begun(fed);
    }
}

/// A run of chunks that were all taken: the scanner is in order, holds the
/// stream, and its segments have begun.
proof fn lemma_run(limits: Limits, chunks: Seq<Seq<u8>>)
    requires
        joined_chunks(chunks).len() <= u64::MAX,
        Scan::fresh(limits).all_pushed(chunks).0 is Ok,
    ensures
        ({
            let scan = Scan::fresh(limits).all_pushed(chunks).1;
            &&& scan.sane()
            &&& begun(scan)
            &&& scan.held() == joined_chunks(chunks)
            &&& scan.base + scan.buf.len() == joined_chunks(chunks).len()
        }),
    decreases chunks.len(),
{
    let fresh = Scan::fresh(limits);
    if chunks.len() == 0 {
        assert(fresh.held() =~= Seq::empty());
    } else {
        let most = chunks.drop_last();
        lemma_run(limits, most);
        let before = fresh.all_pushed(most).1;
        lemma_pushed_sane(before, chunks.last());
        lemma_pushed_begun(before, chunks.last());
        law_nothing_is_lost(before, chunks.last());
    }
}

/// Where a segment begins is how long those before it are.
proof fn lemma_offsets_add_up(out: Seq<Cut>, end: int, i: int)
    requires
        end_to_end(out, end),
        out.len() > 0,
        out[0].offset() == 0,
        0 <= i < out.len(),
    ensures
        out[i].offset() == flat(out.take(i)).len(),
    decreases i,
{
    if i > 0 {
        lemma_offsets_add_up(out, end, i - 1);
        assert(out[i - 1].offset() + out[i - 1].bytes().len() == out[i - 1 + 1].offset());
        assert(out.take(i).drop_last() =~= out.take(i - 1));
        assert(out.take(i).last() == out[i - 1]);
    } else {
        assert(out.take(0) =~= Seq::empty());
    }
}

/// A stream that ended cleanly was one init segment and at least one
/// fragment, end to end from its start, and then the trailer: they are the
/// stream, every byte of it is accounted for, and ending it again changes
/// nothing.
pub proof fn law_a_clean_end(limits: Limits, chunks: Seq<Seq<u8>>)
    requires
        joined_chunks(chunks).len() <= u64::MAX,
        Scan::fresh(limits).all_pushed(chunks).0 is Ok,
        Scan::fresh(limits).all_pushed(chunks).1.finished().0 is Ok,
    ensures
        ({
            let end = Scan::fresh(limits).all_pushed(chunks).1.finished().1;
            &&& end.out.len() >= 2
            &&& end.out[0] is Init
            &&& forall|i: int| 0 < i < end.out.len() ==> (#[trigger] end.out[i]) is Fragment
            &&& flat(end.out) + end.trailer == joined_chunks(chunks)
            &&& forall|i: int|
                0 <= i < end.out.len() ==> (#[trigger] end.out[i]).offset() == flat(
                    end.out.take(i),
                ).len()
            &&& end.base == joined_chunks(chunks).len()
            &&& end.finished() == (Ok::<(), Error>(()), end)
        }),
{
    let scan = Scan::fresh(limits).all_pushed(chunks).1;
    let end = scan.finished().1;
    lemma_run(limits, chunks);
    law_finishing_loses_nothing(scan);
    if scan.open_ended == OpenEnded::Fragment {
        lemma_closed_sane(scan);
    }
    assert(end.sane());
    assert(end.open_ended == OpenEnded::No);
    let none = Seq::<u8>::empty();
    assert(end.buf =~= none && end.init =~= none && end.frag =~= none);
    assert(end.held() =~= flat(end.out) + end.trailer);
    assert forall|i: int| 0 <= i < end.out.len() implies (#[trigger] end.out[i]).offset() == flat(
        end.out.take(i),
    ).len() by {
        lemma_offsets_add_up(
            end.out,
            end.base - end.init.len() - end.frag.len() - end.trailer.len(),
            i,
        );
    }
}

/// How many bytes at the head of a stream are whole boxes.
pub open spec fn whole_len(stream: Seq<u8>) -> nat
    decreases stream.len(),
{
    match parse_header_spec(stream, 0) {
        Ok(Some(header)) => match header.size {
            BoxSize::Exact(size) => if size == 0 || size > stream.len() {
                0
            } else {
                size as nat + whole_len(stream.skip(size as int))
            },
            BoxSize::ToEnd => 0,
        },
        _ => 0,
    }
}

/// Whether every box of a stream, as far as it has come, says how long it
/// is.
pub open spec fn all_say_how_long(stream: Seq<u8>) -> bool
    decreases stream.len(),
{
    match parse_header_spec(stream, 0) {
        Ok(Some(header)) => match header.size {
            BoxSize::Exact(size) => if size == 0 || size > stream.len() {
                true
            } else {
                all_say_how_long(stream.skip(size as int))
            },
            BoxSize::ToEnd => false,
        },
        _ => true,
    }
}

/// Where a header is read changes nothing but where its errors are.
proof fn lemma_header_anywhere(data: Seq<u8>, at: u64)
    ensures
        parse_header_spec(data, at) matches Ok(header) ==> parse_header_spec(data, 0) == Ok::<
            _,
            Error,
        >(header),
{
}

#[verifier::rlimit(40)]
proof fn lemma_scanned_whole(scan: Scan)
    requires
        scan.sane(),
        scan.open_ended == OpenEnded::No,
        scan.scanned().0 is Ok,
        all_say_how_long(scan.buf),
    ensures
        scan.scanned().1.base == scan.base + whole_len(scan.buf),
    decreases scan.buf.len(), scan.ahead(),
{
    reveal(Scan::scanned);
    lemma_step_sane(scan);
    lemma_step_held(scan);
    lemma_header_anywhere(scan.buf, scan.base);
    match scan.step() {
        (Ok(true), next) => {
            lemma_scanned_whole(next);
        },
        _ => {},
    }
}

/// The longest run of whole boxes is one, and no longer one is.
proof fn lemma_whole_is_longest(stream: Seq<u8>, p: int)
    requires
        0 <= p <= stream.len(),
    ensures
        whole_len(stream) <= stream.len(),
        whole_len(stream.take(whole_len(stream) as int)) == whole_len(stream),
        whole_len(stream.take(p)) == p ==> p <= whole_len(stream),
    decreases stream.len(),
{
    let n = whole_len(stream) as int;
    let part = stream.take(p);
    assert(stream =~= part + stream.skip(p));
    law_header_needs_no_more(part, stream.skip(p), 0);
    if whole_len(part) == p && p > 0 {
        let size = parse_header_spec(part, 0)->Ok_0.unwrap().size->Exact_0 as int;
        assert(part.skip(size) =~= stream.skip(size).take(p - size));
        lemma_whole_is_longest(stream.skip(size), p - size);
    }
    if let Ok(Some(header)) = parse_header_spec(stream, 0) {
        if let BoxSize::Exact(exact) = header.size {
            let size = exact as int;
            if 0 < size <= stream.len() {
                let rest = stream.skip(size);
                lemma_whole_is_longest(rest, 0);
                assert(n == size + whole_len(rest));
                let head = stream.take(n);
                assert(stream =~= head + stream.skip(n));
                law_header_needs_no_more(head, stream.skip(n), 0);
                lemma_same32(head, 0, stream, 0);
                assert(!(parse_header_spec(head, 0) matches Ok(None)));
                assert(head.skip(size) =~= rest.take(n - size));
            }
        }
    }
    if n == 0 {
        assert(stream.take(0).len() == 0);
    }
}

/// What has been consumed of a stream whose boxes say how long they are is
/// the longest run of whole boxes at its head; the rest is buffered.
pub proof fn law_consumed_is_whole_boxes(limits: Limits, chunks: Seq<Seq<u8>>, p: int)
    requires
        joined_chunks(chunks).len() <= u64::MAX,
        Scan::fresh(limits).all_pushed(chunks).0 is Ok,
        all_say_how_long(joined_chunks(chunks)),
        0 <= p <= joined_chunks(chunks).len(),
    ensures
        ({
            let scan = Scan::fresh(limits).all_pushed(chunks).1;
            let stream = joined_chunks(chunks);
            &&& scan.base == whole_len(stream)
            &&& whole_len(stream.take(scan.base as int)) == scan.base
            &&& whole_len(stream.take(p)) == p ==> p <= scan.base
            &&& scan.base + scan.buf.len() == stream.len()
        }),
{
    let fresh = Scan::fresh(limits);
    let stream = joined_chunks(chunks);
    lemma_run(limits, chunks);
    lemma_whole_is_longest(stream, p);
    if chunks.len() > 0 {
        law_any_chunking_is_the_same(fresh, chunks);
        let fed = Scan { buf: fresh.buf + stream, ..fresh };
        assert(fed.buf =~= stream);
        assert(fed.sane());
        lemma_scanned_whole(fed);
    }
}

} // verus!
