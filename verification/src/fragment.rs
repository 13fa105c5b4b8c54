//! Movie fragments: `moof`, `traf`, `tfhd`, `tfdt`, `trun` (§8.8).
//!
//! # Where a run's data is
//!
//! This is the clause implementations get wrong, so it is written out once
//! here and tested in three shapes. §8.8.7 gives `tfhd` two flags and a
//! default:
//!
//! 1. `base-data-offset-present` (0x000001): the `base_data_offset` field
//!    says where, as an offset in the file.
//! 2. otherwise `default-base-is-moof` (0x020000): the base is the first
//!    byte of the enclosing `moof` box.
//! 3. otherwise: for **the first** track fragment of the movie fragment,
//!    the base is the first byte of the enclosing `moof`; for **each one
//!    after it**, the base is the end of the data the preceding track
//!    fragment described.
//!
//! §8.8.8 then chains the runs inside one track fragment: a `trun` with
//! `data-offset-present` starts at `base + data_offset`, and one without
//! starts where the previous run's data ended, or at the base when it is
//! the first.
//!
//! # Composition offsets
//!
//! §8.8.8's `sample_composition_time_offset` is unsigned in a version 0
//! `trun` and signed in a version 1 one. ffmpeg writes negative offsets into
//! version 0 boxes, and a reader that believes the standard there reports a
//! sample two billion ticks in the future. Both versions are read signed,
//! which is what ffmpeg's own reader does and what [`crate::track`] does
//! with the matching `ctts` field. A file that genuinely meant an offset
//! above 2^31 ticks would be misread, and no muxer writes one: at a 90 kHz
//! timescale that is thirteen hours of reordering.

use vstd::prelude::*;
use vstd::slice::slice_subrange;

use crate::be::{
    as_signed32, as_signed64, be24, be32, be64, get24, get32, lemma_same24, lemma_same32,
    signed32, signed64,
};
use crate::boxes::{
    all_fit, child_of, child_size, children_spec, first_of, full_box_lacking, kids, kids_from,
    kids_of, lacking, law_children_lie_inside, lies_in, parse_header, parse_header_spec,
    table_len, BoxSize, Bytes, Child, Kid,
};
use crate::codes::{MOOF, TFDT, TFHD, TRAF, TRUN};
use crate::error::{seen, settled, Error, Result};
use crate::limits::{reserved, Limits};
use crate::time::{clamp64, plus};
use crate::track::{number, numbered, Sample, Track, TrexDefaults};

verus! {

/// The `sample_is_non_sync_sample` bit of §8.8.3's sample flags: clear on a
/// sync sample.
pub const NON_SYNC: u32 = 0x0001_0000;

/// Whether a bit of a flags field is set.
pub open spec fn set_in(flags: u32, bit: u32) -> bool {
    flags & bit != 0
}

/// How many bytes an optional field of four bytes takes.
pub open spec fn four_if(present: bool) -> nat {
    if present {
        4
    } else {
        0
    }
}

/// What a `tfhd` settles for its track fragment (§8.8.7).
#[derive(Clone, Copy, Debug, PartialEq, Eq)]
pub struct Tfhd {
    pub track_id: u32,
    /// The explicit `base_data_offset`, when the flag said there is one.
    pub base_data_offset: Option<u64>,
    /// Whether `default-base-is-moof` was set.
    pub base_is_moof: bool,
    pub default_duration: Option<u32>,
    pub default_size: Option<u32>,
    pub default_flags: Option<u32>,
}

impl Tfhd {
    pub open spec fn base_spec(self, moof_start: u64, first: bool, previous_end: u64) -> u64 {
        match self.base_data_offset {
            Some(explicit) => explicit,
            None => if self.base_is_moof || first {
                moof_start
            } else {
                previous_end
            },
        }
    }

    /// Where this track fragment's data begins, given where the `moof`
    /// begins, whether this is the movie fragment's first track fragment,
    /// and where the previous one's data ended.
    ///
    /// The three cases of §8.8.7, in the order the clause states them.
    pub fn base(&self, moof_start: u64, first: bool, previous_end: u64) -> (base: u64)
        ensures
            base == self.base_spec(moof_start, first, previous_end),
    {
        match self.base_data_offset {
            Some(explicit) => explicit,
            None => if self.base_is_moof {
                moof_start
            } else if first {
                moof_start
            } else {
                previous_end
            },
        }
    }
}

/// One `trun` entry, as the flags said to read it (§8.8.8).
#[derive(Clone, Copy, Debug, PartialEq, Eq, Structural)]
pub struct Entry {
    pub duration: u32,
    pub size: u32,
    pub flags: u32,
    pub composition_offset: i32,
}

/// The fields of a `tfhd`, in the order they are written; the first one the
/// bytes do not hold is where a short one ends.
pub open spec fn tfhd_spec(body: Seq<u8>, at: u64) -> Result<Tfhd> {
    let flags = be24(body, 1);
    let base_at: nat = 8;
    let index_at: nat = base_at + if set_in(flags, 0x01) {
        8nat
    } else {
        0
    };
    let duration_at = index_at + four_if(set_in(flags, 0x02));
    let size_at = duration_at + four_if(set_in(flags, 0x08));
    let flags_at = size_at + four_if(set_in(flags, 0x10));
    let end = flags_at + four_if(set_in(flags, 0x20));
    if body.len() < 4 {
        Err(full_box_lacking(at, 0, body.len()))
    } else if body.len() < base_at {
        Err(lacking(at, 4, 4))
    } else if body.len() < index_at {
        Err(lacking(at, base_at, 8))
    } else if body.len() < duration_at {
        Err(lacking(at, index_at, 4))
    } else if body.len() < size_at {
        Err(lacking(at, duration_at, 4))
    } else if body.len() < flags_at {
        Err(lacking(at, size_at, 4))
    } else if body.len() < end {
        Err(lacking(at, flags_at, 4))
    } else {
        Ok(
            Tfhd {
                track_id: be32(body, 4),
                base_data_offset: if set_in(flags, 0x01) {
                    Some(be64(body, 8))
                } else {
                    None
                },
                base_is_moof: set_in(flags, 0x02_0000),
                default_duration: if set_in(flags, 0x08) {
                    Some(be32(body, duration_at as int))
                } else {
                    None
                },
                default_size: if set_in(flags, 0x10) {
                    Some(be32(body, size_at as int))
                } else {
                    None
                },
                default_flags: if set_in(flags, 0x20) {
                    Some(be32(body, flags_at as int))
                } else {
                    None
                },
            },
        )
    }
}

/// One `tfhd` read (§8.8.7).
pub fn read_tfhd(body: &[u8], at: u64) -> (tfhd: Result<Tfhd>)
    requires
        at + body.len() <= u64::MAX,
    ensures
        tfhd == tfhd_spec(body@, at),
{
    let mut bytes = Bytes::at(body, at);
    let (_, flags) = bytes.full_box()?;
    let track_id: u32 = bytes.u32()?;
    let base_data_offset = if flags & 0x01 != 0 {
        Some(bytes.u64()?)
    } else {
        None
    };
    if flags & 0x02 != 0 {
        bytes.skip(4)?;  // sample_description_index
    }
    let default_duration = if flags & 0x08 != 0 {
        Some(bytes.u32()?)
    } else {
        None
    };
    let default_size = if flags & 0x10 != 0 {
        Some(bytes.u32()?)
    } else {
        None
    };
    let default_flags = if flags & 0x20 != 0 {
        Some(bytes.u32()?)
    } else {
        None
    };
    Ok(
        Tfhd {
            track_id,
            base_data_offset,
            base_is_moof: flags & 0x02_0000 != 0,
            default_duration,
            default_size,
            default_flags,
        },
    )
}

pub open spec fn tfdt_spec(body: Seq<u8>, at: u64) -> Result<i64> {
    if body.len() < 4 {
        Err(full_box_lacking(at, 0, body.len()))
    } else if body[0] == 1 {
        if body.len() < 12 {
            Err(lacking(at, 4, 8))
        } else {
            Ok(signed64(be64(body, 4)))
        }
    } else if body.len() < 8 {
        Err(lacking(at, 4, 4))
    } else {
        Ok(be32(body, 4) as i64)
    }
}

/// A `tfdt`'s `baseMediaDecodeTime`, either width (§8.8.12).
pub fn read_tfdt(body: &[u8], at: u64) -> (time: Result<i64>)
    requires
        at + body.len() <= u64::MAX,
    ensures
        time == tfdt_spec(body@, at),
{
    let mut bytes = Bytes::at(body, at);
    let (version, _) = bytes.full_box()?;
    if version == 1 {
        Ok(as_signed64(bytes.u64()?))
    } else {
        Ok(bytes.u32()? as i64)
    }
}

/// How many bytes each row of a `trun` takes.
pub open spec fn row_len(flags: u32) -> nat {
    four_if(set_in(flags, 0x100)) + four_if(set_in(flags, 0x200)) + four_if(
        set_in(flags, 0x400),
    ) + four_if(set_in(flags, 0x800))
}

/// What a field an entry does not carry itself falls back to: the `tfhd`'s
/// default, and past that the `trex`'s.
pub open spec fn fallback(own: Option<u32>, trex: u32) -> u32 {
    match own {
        Some(own) => own,
        None => trex,
    }
}

/// The first sample's flags of a `trun`, where it has them, given where they
/// would be.
pub open spec fn first_flags(body: Seq<u8>, at: nat) -> Option<u32> {
    if set_in(be24(body, 1), 0x04) {
        Some(be32(body, at as int))
    } else {
        None
    }
}

/// The row of a `trun` that begins at `pos`.
pub open spec fn trun_entry(
    body: Seq<u8>,
    pos: nat,
    first: Option<u32>,
    tfhd: Tfhd,
    trex: TrexDefaults,
) -> Entry {
    let flags = be24(body, 1);
    let size_at = pos + four_if(set_in(flags, 0x100));
    let flags_at = size_at + four_if(set_in(flags, 0x200));
    let offset_at = flags_at + four_if(set_in(flags, 0x400));
    Entry {
        duration: if set_in(flags, 0x100) {
            be32(body, pos as int)
        } else {
            fallback(tfhd.default_duration, trex.duration)
        },
        size: if set_in(flags, 0x200) {
            be32(body, size_at as int)
        } else {
            fallback(tfhd.default_size, trex.size)
        },
        flags: if first is Some {
            first.unwrap()
        } else if set_in(flags, 0x400) {
            be32(body, flags_at as int)
        } else {
            fallback(tfhd.default_flags, trex.flags)
        },
        composition_offset: if set_in(flags, 0x800) {
            signed32(be32(body, offset_at as int))
        } else {
            0
        },
    }
}

/// How many entries a `trun` has, or why it is refused.
pub open spec fn trun_count_spec(body: Seq<u8>, at: u64, limits: Limits) -> Result<usize> {
    let flags = be24(body, 1);
    let count = be32(body, 4) as nat;
    let row = row_len(flags);
    if body.len() < 4 {
        Err(full_box_lacking(at, 0, body.len()))
    } else if body.len() < 8 {
        Err(lacking(at, 4, 4))
    } else if body.len() < first_flags_at(flags) {
        Err(lacking(at, 8, 4))
    } else if body.len() < rows_at(flags) {
        Err(lacking(at, first_flags_at(flags), 4))
    } else if count > limits.max_samples {
        Err(Error::format("more samples than this reader will hold").at(at).in_box(TRUN))
    } else if table_len(count, row) > body.len() - rows_at(flags) {
        Err(Error::format("a trun longer than the box holding it").at(at).in_box(TRUN))
    } else {
        Ok(count as usize)
    }
}

/// Where the first sample's flags of a `trun` are, when it has them.
pub open spec fn first_flags_at(flags: u32) -> nat {
    8 + four_if(set_in(flags, 0x01))
}

/// Where the rows of a `trun` begin.
pub open spec fn rows_at(flags: u32) -> nat {
    first_flags_at(flags) + four_if(set_in(flags, 0x04))
}

/// Where the data of a `trun` is, from its track fragment's base.
pub open spec fn data_offset_spec(body: Seq<u8>) -> Option<i64> {
    if set_in(be24(body, 1), 0x01) {
        Some(signed32(be32(body, 8)) as i64)
    } else {
        None
    }
}

/// The entries of a `trun` of `count` rows.
pub open spec fn rows_spec(body: Seq<u8>, count: nat, tfhd: Tfhd, trex: TrexDefaults) -> Seq<
    Entry,
> {
    let flags = be24(body, 1);
    Seq::new(
        count,
        |i: int|
            trun_entry(
                body,
                (rows_at(flags) + i * row_len(flags)) as nat,
                if i == 0 {
                    first_flags(body, first_flags_at(flags))
                } else {
                    None
                },
                tfhd,
                trex,
            ),
    )
}

/// What a `trun` says: where its data is, and its entries.
pub open spec fn trun_spec(
    body: Seq<u8>,
    at: u64,
    tfhd: Tfhd,
    trex: TrexDefaults,
    limits: Limits,
) -> Result<(Option<i64>, Seq<Entry>)> {
    match trun_count_spec(body, at, limits) {
        Err(err) => Err(err),
        Ok(count) => Ok((data_offset_spec(body), rows_spec(body, count as nat, tfhd, trex))),
    }
}

/// A run that was read, with its entries as a sequence.
pub open spec fn run_seen(run: Result<(Option<i64>, Vec<Entry>)>) -> Result<
    (Option<i64>, Seq<Entry>),
> {
    match run {
        Ok((offset, entries)) => Ok((offset, entries@)),
        Err(err) => Err(err),
    }
}

/// The error of a run whose entries the allocator has no room for.
pub open spec fn no_room() -> Error {
    Error::format("a trun larger than memory")
}

proof fn lemma_row_inside(index: nat, count: nat, row: nat, left: nat)
    requires
        index < count,
        count * row <= left,
    ensures
        index * row + row <= left,
        (index + 1) * row == index * row + row,
{
    assert((index + 1) * row <= count * row) by (nonlinear_arith)
        requires
            index + 1 <= count,
    ;
    assert((index + 1) * row == index * row + row) by (nonlinear_arith);
}

/// How many bytes each row of a `trun` takes: every optional per-sample
/// field the flags turned on.
fn row_width(flags: u32) -> (width: usize)
    ensures
        width == row_len(flags),
{
    let mut width: usize = 0;
    if flags & 0x100 != 0 {
        width = width + 4;
    }
    if flags & 0x200 != 0 {
        width = width + 4;
    }
    if flags & 0x400 != 0 {
        width = width + 4;
    }
    if flags & 0x800 != 0 {
        width = width + 4;
    }
    width
}

/// How many entries a `trun` has, refused when the bytes do not hold them:
/// the entries a table claims are checked against the bytes it has before a
/// single one is allocated.
pub fn trun_count(body: &[u8], at: u64, limits: &Limits) -> (count: Result<usize>)
    requires
        at + body.len() <= u64::MAX,
    ensures
        count == trun_count_spec(body@, at, *limits),
{
    let mut bytes = Bytes::at(body, at);
    let (_version, flags) = bytes.full_box()?;
    let count: usize = bytes.u32()? as usize;
    if flags & 0x01 != 0 {
        bytes.skip(4)?;  // data_offset
    }
    if flags & 0x04 != 0 {
        bytes.skip(4)?;  // first_sample_flags
    }
    let width: usize = row_width(flags);
    if count > limits.max_samples {
        return Err(Error::format("more samples than this reader will hold").at(at).in_box(TRUN));
    }
    let least: usize = if width == 0 {
        1
    } else {
        width
    };
    let left: usize = bytes.left();
    let fits: bool = match count.checked_mul(least) {
        Some(want) => want <= left,
        None => false,
    };
    if !fits {
        return Err(Error::format("a trun longer than the box holding it").at(at).in_box(TRUN));
    }
    Ok(count)
}

/// The row of a `trun` that begins at `pos`.
fn trun_row(
    body: &[u8],
    pos: usize,
    flags: u32,
    first: Option<u32>,
    tfhd: &Tfhd,
    trex: &TrexDefaults,
) -> (entry: Entry)
    requires
        flags == be24(body@, 1),
        pos + row_len(flags) <= body.len(),
    ensures
        entry == trun_entry(body@, pos as nat, first, *tfhd, *trex),
{
    let mut pos: usize = pos;
    let duration: u32 = if flags & 0x100 != 0 {
        pos = pos + 4;
        get32(body, pos - 4)
    } else {
        tfhd.default_duration.unwrap_or(trex.duration)
    };
    let size: u32 = if flags & 0x200 != 0 {
        pos = pos + 4;
        get32(body, pos - 4)
    } else {
        tfhd.default_size.unwrap_or(trex.size)
    };
    let own: Option<u32> = if flags & 0x400 != 0 {
        pos = pos + 4;
        Some(get32(body, pos - 4))
    } else {
        None
    };
    // Version 0 is unsigned on paper and signed in every file ffmpeg wrote;
    // see this module's head.
    let composition_offset: i32 = if flags & 0x800 != 0 {
        as_signed32(get32(body, pos))
    } else {
        0
    };
    let entry_flags: u32 = match (first, own) {
        (Some(first), _) => first,
        (_, Some(own)) => own,
        _ => tfhd.default_flags.unwrap_or(trex.flags),
    };
    Entry { duration, size, flags: entry_flags, composition_offset }
}

/// The rows of a `trun` whose count has been checked, put into `room`.
pub fn trun_rows(
    body: &[u8],
    count: usize,
    tfhd: &Tfhd,
    trex: &TrexDefaults,
    room: Vec<Entry>,
) -> (run: (Option<i64>, Vec<Entry>))
    requires
        8 <= body.len(),
        rows_at(be24(body@, 1)) + table_len(count as nat, row_len(be24(body@, 1))) <= body.len(),
        room@.len() == 0,
    ensures
        run.0 == data_offset_spec(body@),
        run.1@ == rows_spec(body@, count as nat, *tfhd, *trex),
{
    let flags: u32 = get24(body, 1);
    let mut pos: usize = 8;
    let data_offset: Option<i64> = if flags & 0x01 != 0 {
        pos = pos + 4;
        Some(as_signed32(get32(body, 8)) as i64)
    } else {
        None
    };
    let first_flags: Option<u32> = if flags & 0x04 != 0 {
        let first: u32 = get32(body, pos);
        pos = pos + 4;
        Some(first)
    } else {
        None
    };
    let width: usize = row_width(flags);
    let ghost owed = rows_spec(body@, count as nat, *tfhd, *trex);
    let ghost left = (body@.len() - rows_at(flags)) as nat;
    assert(count * width <= left) by {
        assert(width == 0 ==> count * width == 0) by (nonlinear_arith);
    }
    let mut out: Vec<Entry> = room;
    let mut index: usize = 0;
    assert(0 * width == 0);
    while index < count
        invariant
            index <= count,
            out@.len() == index,
            owed == rows_spec(body@, count as nat, *tfhd, *trex),
            flags == be24(body@, 1),
            width == row_len(flags),
            pos == rows_at(flags) + index * width,
            left == body.len() - rows_at(flags),
            count * width <= left,
            first_flags == self::first_flags(body@, first_flags_at(flags)),
            forall|i: int| 0 <= i < index ==> #[trigger] out@[i] == owed[i],
        decreases count - index,
    {
        proof {
            lemma_row_inside(index as nat, count as nat, width as nat, left);
        }
        let first: Option<u32> = if index == 0 {
            first_flags
        } else {
            None
        };
        let entry = trun_row(body, pos, flags, first, tfhd, trex);
        assert(entry == owed[index as int]);
        out.push(entry);
        pos = pos + width;
        index = index + 1;
    }
    assert(out@ =~= owed);
    (data_offset, out)
}

/// A `trun`'s entries and where its data starts, relative to the track
/// fragment's base (§8.8.8).
///
/// Where the entries the box does hold are more than the allocator has room
/// for, that is the error; it never is for a run of none.
pub fn read_trun(
    body: &[u8],
    at: u64,
    tfhd: &Tfhd,
    trex: &TrexDefaults,
    limits: &Limits,
) -> (run: Result<(Option<i64>, Vec<Entry>)>)
    requires
        at + body.len() <= u64::MAX,
    ensures
        ({
            let owed = trun_spec(body@, at, *tfhd, *trex, *limits);
            run_seen(run) == owed || ((owed matches Ok((_, entries)) && entries.len() > 0) && run
                == Err::<(Option<i64>, Vec<Entry>), Error>(no_room()))
        }),
{
    let count: usize = trun_count(body, at, limits)?;
    let room: Vec<Entry> = reserved(count, "a trun larger than memory")?;
    Ok(trun_rows(body, count, tfhd, trex, room))
}

// ------------------------------------------------------------------ //
// The samples of a movie fragment.
// ------------------------------------------------------------------ //
/// How many bytes the first `n` entries of a run are.
pub open spec fn bytes_before(entries: Seq<Entry>, n: nat) -> nat
    decreases n,
{
    if n == 0 {
        0
    } else {
        bytes_before(entries, (n - 1) as nat) + entries[n - 1].size as nat
    }
}

/// How many ticks the first `n` entries of a run last.
pub open spec fn ticks_before(entries: Seq<Entry>, n: nat) -> nat
    decreases n,
{
    if n == 0 {
        0
    } else {
        ticks_before(entries, (n - 1) as nat) + entries[n - 1].duration as nat
    }
}

/// The sample the entry `i` of a run is, the run's data beginning at `at`
/// and its decode time at `clock`.
pub open spec fn run_sample(entries: Seq<Entry>, i: nat, at: u64, clock: i64) -> Sample {
    let entry = entries[i as int];
    let dts = clamp64(clock + ticks_before(entries, i));
    Sample {
        index: 0,
        offset: (at + bytes_before(entries, i)) as u64,
        size: entry.size,
        dts,
        pts: clamp64(dts + entry.composition_offset),
        duration: entry.duration as i64,
        keyframe: !set_in(entry.flags, NON_SYNC),
    }
}

/// The samples of a run, placed and timed: each begins where the one before
/// it ended, in the file and on the clock.
pub open spec fn run_samples(entries: Seq<Entry>, at: u64, clock: i64) -> Seq<Sample> {
    Seq::new(entries.len(), |i: int| run_sample(entries, i as nat, at, clock))
}

/// What has been read of a movie fragment: the samples, where their data
/// ended, and the decode time that comes next.
pub struct Reach {
    pub samples: Seq<Sample>,
    pub end: u64,
    pub clock: i64,
}

/// A run behind what was read of its track fragment so far. Samples of a
/// track that is not `mine` are passed over, though their data is not.
pub open spec fn run_after(
    reach: Reach,
    run: (Option<i64>, Seq<Entry>),
    base: u64,
    mine: bool,
    trun_at: u64,
    limits: Limits,
) -> Result<Reach> {
    let from = match run.0 {
        Some(offset) => base + offset,
        None => reach.end as int,
    };
    let end = from + bytes_before(run.1, run.1.len());
    let samples = if mine {
        reach.samples + run_samples(run.1, from as u64, reach.clock)
    } else {
        reach.samples
    };
    if from < 0 || from > u64::MAX {
        Err(Error::format("a trun whose data offset leaves the file").at(trun_at))
    } else if end > u64::MAX {
        Err(Error::format("a sample that runs past the file").at(trun_at))
    } else if samples.len() > limits.max_samples {
        Err(Error::format("more samples than this reader will hold"))
    } else {
        Ok(
            Reach {
                samples,
                end: end as u64,
                clock: clamp64(reach.clock + ticks_before(run.1, run.1.len())),
            },
        )
    }
}

/// The runs of a track fragment, one behind another, among its children.
pub open spec fn runs_after(
    reach: Reach,
    list: Seq<Kid>,
    tfhd: Tfhd,
    trex: TrexDefaults,
    base: u64,
    mine: bool,
    limits: Limits,
) -> Result<Reach>
    decreases list.len(),
{
    if list.len() == 0 {
        Ok(reach)
    } else if list[0].kind != TRUN {
        runs_after(reach, list.drop_first(), tfhd, trex, base, mine, limits)
    } else {
        match trun_spec(list[0].body, list[0].at, tfhd, trex, limits) {
            Err(err) => Err(err),
            Ok(run) => match run_after(reach, run, base, mine, list[0].at, limits) {
                Err(err) => Err(err),
                Ok(reach) => runs_after(reach, list.drop_first(), tfhd, trex, base, mine, limits),
            },
        }
    }
}

/// Whether a track fragment is of the track a read is after.
pub open spec fn wanted(want: Option<u32>, track_id: u32) -> bool {
    match want {
        Some(id) => id == track_id,
        None => true,
    }
}

/// The decode time a track fragment starts at: its own, where its children
/// state one; else the clock's, which is no other track's.
pub open spec fn start_spec(inner: Seq<Kid>, mine: bool, clock: i64) -> Result<i64> {
    match first_of(inner, TFDT) {
        None => Ok(
            if mine {
                clock
            } else {
                0
            },
        ),
        Some(tfdt) => tfdt_spec(tfdt.body, tfdt.at),
    }
}

/// What a track fragment adds, `previous` being where the one before it
/// ended and `clock` the decode time it carries on from unless it states its
/// own. The clock of another track is not this one's.
pub open spec fn traf_spec(
    traf: Kid,
    moof_start: u64,
    first: bool,
    previous: u64,
    want: Option<u32>,
    trex: TrexDefaults,
    clock: i64,
    limits: Limits,
) -> Result<Reach> {
    match children_spec(traf.body, traf.at, limits.max_children) {
        Err(err) => Err(err),
        Ok(inner) => match first_of(inner, TFHD) {
            None => Err(Error::format("a traf with no tfhd").at(traf.at)),
            Some(head) => match tfhd_spec(head.body, head.at) {
                Err(err) => Err(err),
                Ok(tfhd) => {
                    let mine = wanted(want, tfhd.track_id);
                    match start_spec(inner, mine, clock) {
                        Err(err) => Err(err),
                        Ok(start) => {
                            let base = tfhd.base_spec(moof_start, first, previous);
                            let empty = Reach { samples: Seq::empty(), end: base, clock: start };
                            match runs_after(empty, inner, tfhd, trex, base, mine, limits) {
                                Err(err) => Err(err),
                                Ok(reach) => Ok(
                                    Reach {
                                        clock: if mine {
                                            reach.clock
                                        } else {
                                            clock
                                        },
                                        ..reach
                                    },
                                ),
                            }
                        },
                    }
                },
            },
        },
    }
}

/// The track fragments of a movie fragment, one behind another, among its
/// children.
pub open spec fn trafs_after(
    reach: Reach,
    first: bool,
    list: Seq<Kid>,
    moof_start: u64,
    want: Option<u32>,
    trex: TrexDefaults,
    limits: Limits,
) -> Result<Reach>
    decreases list.len(),
{
    if list.len() == 0 {
        Ok(reach)
    } else if list[0].kind != TRAF {
        trafs_after(reach, first, list.drop_first(), moof_start, want, trex, limits)
    } else {
        match traf_spec(
            list[0],
            moof_start,
            first,
            reach.end,
            want,
            trex,
            reach.clock,
            limits,
        ) {
            Err(err) => Err(err),
            Ok(more) => trafs_after(
                Reach { samples: reach.samples + more.samples, ..more },
                false,
                list.drop_first(),
                moof_start,
                want,
                trex,
                limits,
            ),
        }
    }
}

/// The samples of one `moof` body and the decode time after them.
pub open spec fn moof_spec(
    body: Seq<u8>,
    moof_start: u64,
    body_at: u64,
    want: Option<u32>,
    trex: TrexDefaults,
    clock: i64,
    limits: Limits,
) -> Result<Reach> {
    match children_spec(body, body_at, limits.max_children) {
        Err(err) => Err(err),
        Ok(list) => trafs_after(
            Reach { samples: Seq::empty(), end: moof_start, clock },
            true,
            list,
            moof_start,
            want,
            trex,
            limits,
        ),
    }
}

/// What one `moof` said, for the track a reader is after.
struct Read {
    samples: Vec<Sample>,
    /// Where the data of the last track fragment ended, which is where the
    /// next one carries on from under §8.8.7's third case.
    end: u64,
    /// The decode time after the last sample.
    clock: i64,
}

impl View for Read {
    type V = Reach;

    closed spec fn view(&self) -> Reach {
        Reach { samples: self.samples@, end: self.end, clock: self.clock }
    }
}

/// A read by what it holds.
spec fn read_seen(read: Result<Read>) -> Result<Reach> {
    match read {
        Ok(read) => Ok(read@),
        Err(err) => Err(err),
    }
}

/// The position `offset` away from `base`, where there is one.
fn moved(base: u64, offset: i64) -> (at: Option<u64>)
    ensures
        match at {
            Some(at) => at == base + offset,
            None => base + offset < 0 || base + offset > u64::MAX,
        },
{
    let at: i128 = base as i128 + offset as i128;
    if at < 0 || at > u64::MAX as i128 {
        None
    } else {
        Some(at as u64)
    }
}

pub proof fn lemma_bytes_grow(entries: Seq<Entry>, n: nat, m: nat)
    requires
        n <= m,
    ensures
        bytes_before(entries, n) <= bytes_before(entries, m),
    decreases m - n,
{
    if n < m {
        lemma_bytes_grow(entries, n, (m - 1) as nat);
    }
}

/// Places and times the samples of one run behind what was read before it.
fn read_run(
    prior: Read,
    data_offset: Option<i64>,
    entries: &[Entry],
    base: u64,
    mine: bool,
    trun_at: u64,
    limits: &Limits,
) -> (out: Result<Read>)
    ensures
        read_seen(out) == run_after(
            prior@,
            (data_offset, entries@),
            base,
            mine,
            trun_at,
            *limits,
        ),
{
    let ghost before = prior@;
    let mut read = prior;
    // §8.8.8: a run with an offset is placed from the base, and one without
    // carries on from where the last run's data ended.
    let mut at: u64 = match data_offset {
        Some(offset) => match moved(base, offset) {
            Some(at) => at,
            None => return Err(
                Error::format("a trun whose data offset leaves the file").at(trun_at),
            ),
        },
        None => read.end,
    };
    let ghost from = at;
    let mut index: usize = 0;
    assert(before.samples + run_samples(entries@, from, before.clock).take(0) =~= before.samples);
    while index < entries.len()
        invariant
            index <= entries@.len(),
            before == prior@,
            from == match data_offset {
                Some(offset) => base + offset,
                None => before.end as int,
            },
            at == from + bytes_before(entries@, index as nat),
            read.clock == clamp64(before.clock + ticks_before(entries@, index as nat)),
            read.samples@ == if mine {
                before.samples + run_samples(entries@, from, before.clock).take(index as int)
            } else {
                before.samples
            },
        decreases entries@.len() - index,
    {
        let entry: Entry = entries[index];
        if mine {
            let sample = Sample {
                index: 0,
                offset: at,
                size: entry.size,
                dts: read.clock,
                pts: plus(read.clock, entry.composition_offset as i64),
                duration: entry.duration as i64,
                keyframe: entry.flags & NON_SYNC == 0,
            };
            assert(sample == run_samples(entries@, from, before.clock)[index as int]);
            read.samples.push(sample);
            assert(read.samples@ =~= before.samples + run_samples(
                entries@,
                from,
                before.clock,
            ).take(index + 1));
        }
        at = match at.checked_add(entry.size as u64) {
            Some(at) => at,
            None => {
                proof {
                    lemma_bytes_grow(entries@, (index + 1) as nat, entries@.len());
                    assert(from + bytes_before(entries@, entries@.len()) > u64::MAX);
                }
                return Err(Error::format("a sample that runs past the file").at(trun_at));
            },
        };
        read.clock = plus(read.clock, entry.duration as i64);
        index = index + 1;
    }
    assert(run_samples(entries@, from, before.clock).take(entries@.len() as int)
        =~= run_samples(entries@, from, before.clock));
    if read.samples.len() > limits.max_samples {
        return Err(Error::format("more samples than this reader will hold"));
    }
    read.end = at;
    Ok(read)
}

/// Whether the allocator can refuse a run among a track fragment's children:
/// one that the box was found to hold, that has entries, and that comes
/// behind runs that were all read and placed.
pub open spec fn runs_no_room(
    reach: Reach,
    list: Seq<Kid>,
    tfhd: Tfhd,
    trex: TrexDefaults,
    base: u64,
    mine: bool,
    limits: Limits,
) -> bool
    decreases list.len(),
{
    if list.len() == 0 {
        false
    } else if list[0].kind != TRUN {
        runs_no_room(reach, list.drop_first(), tfhd, trex, base, mine, limits)
    } else {
        match trun_spec(list[0].body, list[0].at, tfhd, trex, limits) {
            Err(_) => false,
            Ok(run) => run.1.len() > 0 || match run_after(
                reach,
                run,
                base,
                mine,
                list[0].at,
                limits,
            ) {
                Err(_) => false,
                Ok(reach) => runs_no_room(
                    reach,
                    list.drop_first(),
                    tfhd,
                    trex,
                    base,
                    mine,
                    limits,
                ),
            },
        }
    }
}

/// Whether the allocator can refuse a track fragment: one whose children, `tfhd`
/// and `tfdt` were read, for one of its runs.
pub open spec fn traf_no_room(
    traf: Kid,
    moof_start: u64,
    first: bool,
    previous: u64,
    want: Option<u32>,
    trex: TrexDefaults,
    clock: i64,
    limits: Limits,
) -> bool {
    &&& children_spec(traf.body, traf.at, limits.max_children) matches Ok(inner)
    &&& first_of(inner, TFHD) matches Some(head)
    &&& tfhd_spec(head.body, head.at) matches Ok(tfhd)
    &&& {
        let mine = wanted(want, tfhd.track_id);
        let base = tfhd.base_spec(moof_start, first, previous);
        match start_spec(inner, mine, clock) {
            Err(_) => false,
            Ok(start) => runs_no_room(
                Reach { samples: Seq::empty(), end: base, clock: start },
                inner,
                tfhd,
                trex,
                base,
                mine,
                limits,
            ),
        }
    }
}

/// Whether the allocator can refuse one of the track fragments among the
/// children of a movie fragment, those before it having been read.
pub open spec fn trafs_no_room(
    reach: Reach,
    first: bool,
    list: Seq<Kid>,
    moof_start: u64,
    want: Option<u32>,
    trex: TrexDefaults,
    limits: Limits,
) -> bool
    decreases list.len(),
{
    if list.len() == 0 {
        false
    } else if list[0].kind != TRAF {
        trafs_no_room(reach, first, list.drop_first(), moof_start, want, trex, limits)
    } else {
        ||| traf_no_room(
            list[0],
            moof_start,
            first,
            reach.end,
            want,
            trex,
            reach.clock,
            limits,
        )
        ||| match traf_spec(
            list[0],
            moof_start,
            first,
            reach.end,
            want,
            trex,
            reach.clock,
            limits,
        ) {
            Err(_) => false,
            Ok(more) => trafs_no_room(
                Reach { samples: reach.samples + more.samples, ..more },
                false,
                list.drop_first(),
                moof_start,
                want,
                trex,
                limits,
            ),
        }
    }
}

/// Whether the allocator can refuse a movie fragment.
pub open spec fn moof_no_room(
    body: Seq<u8>,
    moof_start: u64,
    body_at: u64,
    want: Option<u32>,
    trex: TrexDefaults,
    clock: i64,
    limits: Limits,
) -> bool {
    children_spec(body, body_at, limits.max_children) matches Ok(list) && trafs_no_room(
        Reach { samples: Seq::empty(), end: moof_start, clock },
        true,
        list,
        moof_start,
        want,
        trex,
        limits,
    )
}

/// The samples of one `traf`, for one track or for whichever track it is of.
fn read_traf(
    traf: &Child<'_>,
    moof_start: u64,
    first: bool,
    previous_end: u64,
    want: Option<u32>,
    defaults: &TrexDefaults,
    clock: i64,
    limits: &Limits,
) -> (read: Result<Read>)
    requires
        traf.at + traf.body.len() <= u64::MAX,
    ensures
        settled(read),
        read_seen(read) == traf_spec(
            traf@,
            moof_start,
            first,
            previous_end,
            want,
            *defaults,
            clock,
            *limits,
        ) || (read_seen(read) == Err::<Reach, Error>(no_room()) && traf_no_room(
            traf@,
            moof_start,
            first,
            previous_end,
            want,
            *defaults,
            clock,
            *limits,
        )),
{
    let inner = kids(traf.body, traf.at, limits)?;
    let tfhd = match child_of(inner.as_slice(), &TFHD) {
        Some(tfhd) => tfhd,
        None => return Err(Error::format("a traf with no tfhd").at(traf.at)),
    };
    let tfhd: Tfhd = read_tfhd(tfhd.body, tfhd.at)?;
    let mine: bool = match want {
        Some(id) => id == tfhd.track_id,
        None => true,
    };
    // A track fragment of another track still moves the place the next one
    // starts from, so its runs are read even when its samples are not
    // wanted.
    let start: i64 = match child_of(inner.as_slice(), &TFDT) {
        Some(tfdt) => read_tfdt(tfdt.body, tfdt.at)?,
        None => if mine {
            clock
        } else {
            0
        },
    };
    let base: u64 = tfhd.base(moof_start, first, previous_end);
    let mut read = Read { samples: Vec::new(), end: base, clock: start };
    let ghost list = kids_of(inner@);
    let mut index: usize = 0;
    assert(list.skip(0) =~= list);
    assert(read@ == (Reach { samples: Seq::empty(), end: base, clock: start }));
    let ghost owed = runs_after(read@, list, tfhd, *defaults, base, mine, *limits);
    let ghost tight = runs_no_room(read@, list, tfhd, *defaults, base, mine, *limits);
    while index < inner.len()
        invariant
            index <= inner@.len(),
            list == kids_of(inner@),
            all_fit(inner@),
            children_spec(traf.body@, traf.at, limits.max_children) == Ok::<_, Error>(list),
            runs_after(read@, list.skip(index as int), tfhd, *defaults, base, mine, *limits)
                == owed,
            runs_no_room(read@, list.skip(index as int), tfhd, *defaults, base, mine, *limits)
                ==> tight,
            tight ==> traf_no_room(
                traf@,
                moof_start,
                first,
                previous_end,
                want,
                *defaults,
                clock,
                *limits,
            ),
            owed is Err ==> traf_spec(
                traf@,
                moof_start,
                first,
                previous_end,
                want,
                *defaults,
                clock,
                *limits,
            ) == owed,
        decreases inner@.len() - index,
    {
        let trun = inner[index];
        assert(list.skip(index as int)[0] == trun@);
        assert(list.skip(index as int).drop_first() =~= list.skip(index + 1));
        if trun.is(&TRUN) {
            assert(list[index as int].kind == TRUN);
            let (data_offset, entries) = read_trun(trun.body, trun.at, &tfhd, defaults, limits)?;
            read = read_run(read, data_offset, entries.as_slice(), base, mine, trun.at, limits)?;
        }
        index = index + 1;
    }
    if !mine {
        read.clock = clock;
    }
    Ok(read)
}

/// The samples of one `moof` body, for one track or for whichever track
/// fragments the `moof` holds.
///
/// `decode` is the running decode time, carried across fragments and reset
/// by any `tfdt` for the track in question; it stands still when the `moof`
/// is refused. `moof_start` is where the `moof` box begins, which is the
/// base §8.8.7 falls back to; `body_at` is where its body begins, for
/// errors.
pub fn samples_of_moof(
    moof_body: &[u8],
    moof_start: u64,
    body_at: u64,
    want: Option<u32>,
    defaults: &TrexDefaults,
    decode: &mut i64,
    limits: &Limits,
) -> (samples: Result<Vec<Sample>>)
    requires
        body_at + moof_body.len() <= u64::MAX,
    ensures
        settled(samples),
        ({
            let owed = moof_spec(
                moof_body@,
                moof_start,
                body_at,
                want,
                *defaults,
                *old(decode),
                *limits,
            );
            match samples {
                Ok(samples) => owed matches Ok(reach) && samples@ == reach.samples && *final(decode)
                    == reach.clock,
                Err(err) => {
                    &&& *final(decode) == *old(decode)
                    &&& owed == Err::<Reach, Error>(err) || (err == no_room() && moof_no_room(
                        moof_body@,
                        moof_start,
                        body_at,
                        want,
                        *defaults,
                        *old(decode),
                        *limits,
                    ))
                },
            }
        }),
{
    let mut out: Vec<Sample> = Vec::new();
    let mut previous_end: u64 = moof_start;
    let mut clock: i64 = *decode;
    let mut first: bool = true;
    let inner = kids(moof_body, body_at, limits)?;
    let ghost list = kids_of(inner@);
    proof {
        assert(list.skip(0) =~= list);
    }
    let ghost owed = moof_spec(
        moof_body@,
        moof_start,
        body_at,
        want,
        *defaults,
        clock,
        *limits,
    );
    let mut index: usize = 0;
    while index < inner.len()
        invariant
            index <= inner@.len(),
            *decode == *old(decode),
            list == kids_of(inner@),
            all_fit(inner@),
            children_spec(moof_body@, body_at, limits.max_children) == Ok::<_, Error>(list),
            owed == moof_spec(
                moof_body@,
                moof_start,
                body_at,
                want,
                *defaults,
                *old(decode),
                *limits,
            ),
            trafs_after(
                Reach { samples: out@, end: previous_end, clock },
                first,
                list.skip(index as int),
                moof_start,
                want,
                *defaults,
                *limits,
            ) == owed,
            trafs_no_room(
                Reach { samples: out@, end: previous_end, clock },
                first,
                list.skip(index as int),
                moof_start,
                want,
                *defaults,
                *limits,
            ) ==> moof_no_room(
                moof_body@,
                moof_start,
                body_at,
                want,
                *defaults,
                *old(decode),
                *limits,
            ),
        decreases inner@.len() - index,
    {
        let traf = inner[index];
        assert(list.skip(index as int)[0] == traf@);
        assert(list.skip(index as int).drop_first() =~= list.skip(index + 1));
        if traf.is(&TRAF) {
            assert(list[index as int].kind == TRAF);
            let mut read = read_traf(
                &traf,
                moof_start,
                first,
                previous_end,
                want,
                defaults,
                clock,
                limits,
            )?;
            previous_end = read.end;
            clock = read.clock;
            first = false;
            out.append(&mut read.samples);
        }
        index = index + 1;
    }
    *decode = clock;
    Ok(out)
}

/// Where the body of the `moof` that opens a fragment begins and ends.
pub open spec fn moof_bounds(fragment: Seq<u8>, at: u64) -> Result<(nat, nat)> {
    match parse_header_spec(fragment, at) {
        Err(err) => Err(err),
        Ok(None) => Err(Error::truncated("a fragment shorter than a box header").at(at)),
        Ok(Some(header)) => {
            let size = match header.size {
                BoxSize::Exact(size) => size as nat,
                BoxSize::ToEnd => fragment.len(),
            };
            if header.kind != MOOF {
                Err(
                    Error::format("a fragment that does not open with a moof").at(at).in_box(
                        header.kind,
                    ),
                )
            } else if size > usize::MAX {
                Err(Error::format("a moof wider than memory").at(at))
            } else if size > fragment.len() {
                Err(Error::truncated("a moof that overruns its fragment").at(at))
            } else {
                Ok((header.header_len as nat, size))
            }
        },
    }
}

/// The samples of one complete fragment.
pub open spec fn fragment_spec(
    fragment: Seq<u8>,
    at: u64,
    track_id: u32,
    defaults: TrexDefaults,
) -> Result<Seq<Sample>> {
    match moof_bounds(fragment, at) {
        Err(err) => Err(err),
        Ok((head, size)) => match moof_spec(
            fragment.subrange(head as int, size as int),
            at,
            (at + head) as u64,
            Some(track_id),
            defaults,
            0,
            Limits::usual(),
        ) {
            Err(err) => Err(err),
            Ok(reach) => Ok(numbered(reach.samples)),
        },
    }
}

/// Whether the allocator can refuse a fragment.
pub open spec fn fragment_no_room(
    fragment: Seq<u8>,
    at: u64,
    track_id: u32,
    defaults: TrexDefaults,
) -> bool {
    moof_bounds(fragment, at) matches Ok((head, size)) && moof_no_room(
        fragment.subrange(head as int, size as int),
        at,
        (at + head) as u64,
        Some(track_id),
        defaults,
        0,
        Limits::usual(),
    )
}

/// The samples of one complete `moof`+`mdat` fragment, with `offset` counted
/// from the stream position `at`, which is where the fragment's first byte
/// sits.
///
/// A fragment with no `tfdt` states no decode time of its own, so its
/// samples are timed from zero; a caller reading a stream of such fragments
/// has to carry the clock itself.
pub fn samples_of_fragment(fragment: &[u8], at: u64, track: &Track) -> (samples: Result<
    Vec<Sample>,
>)
    requires
        at + fragment.len() <= u64::MAX,
    ensures
        settled(samples),
        seen(samples) == fragment_spec(fragment@, at, track.track_id, track.defaults) || (
        seen(samples) == Err::<Seq<Sample>, Error>(no_room()) && fragment_no_room(
            fragment@,
            at,
            track.track_id,
            track.defaults,
        )),
{
    let limits = Limits::default();
    let header = match parse_header(fragment, at)? {
        Some(header) => header,
        None => return Err(Error::truncated("a fragment shorter than a box header").at(at)),
    };
    if !header.is(&MOOF) {
        return Err(
            Error::format("a fragment that does not open with a moof").at(at).in_box(header.kind),
        );
    }
    let size: usize = match header.size {
        BoxSize::Exact(size) => {
            if size > usize::MAX as u64 {
                return Err(Error::format("a moof wider than memory").at(at));
            }
            size as usize
        },
        BoxSize::ToEnd => fragment.len(),
    };
    if size > fragment.len() {
        return Err(Error::truncated("a moof that overruns its fragment").at(at));
    }
    let head: usize = header.header_len as usize;
    let mut decode: i64 = 0;
    let mut samples = samples_of_moof(
        slice_subrange(fragment, head, size),
        at,
        at + header.header_len,
        Some(track.track_id),
        &track.defaults,
        &mut decode,
        &limits,
    )?;
    number(&mut samples);
    Ok(samples)
}

/// One sample's bytes of a fragment that begins at `at` in its stream.
pub open spec fn sample_bytes_spec(fragment: Seq<u8>, at: u64, sample: Sample) -> Result<Seq<u8>> {
    let from = sample.offset - at;
    let to = from + sample.size;
    if from < 0 || from > usize::MAX {
        Err(
            Error::format("a sample placed before the fragment that carries it").at(
                sample.offset,
            ),
        )
    } else if to > usize::MAX {
        Err(Error::format("a sample wider than memory").at(sample.offset))
    } else if to > fragment.len() {
        Err(Error::truncated("a sample that overruns its fragment").at(sample.offset))
    } else {
        Ok(fragment.subrange(from, to))
    }
}

/// One sample's bytes out of the fragment that carries them.
///
/// `at` is where `fragment[0]` sits in the stream, the same number passed to
/// [`Track::fragment_samples_at`]. A sample whose run was placed outside the
/// fragment, which an explicit `base_data_offset` in a standalone segment
/// can do, is refused rather than read from the wrong place.
pub fn sample_bytes<'a>(fragment: &'a [u8], at: u64, sample: &Sample) -> (bytes: Result<&'a [u8]>)
    ensures
        match bytes {
            Ok(bytes) => sample_bytes_spec(fragment@, at, *sample) == Ok::<_, Error>(bytes@),
            Err(err) => sample_bytes_spec(fragment@, at, *sample) == Err::<Seq<u8>, Error>(err),
        },
{
    if sample.offset < at || sample.offset - at > usize::MAX as u64 {
        return Err(
            Error::format("a sample placed before the fragment that carries it").at(
                sample.offset,
            ),
        );
    }
    let from: usize = (sample.offset - at) as usize;
    let to: usize = match from.checked_add(sample.size as usize) {
        Some(to) => to,
        None => return Err(Error::format("a sample wider than memory").at(sample.offset)),
    };
    if to > fragment.len() {
        return Err(Error::truncated("a sample that overruns its fragment").at(sample.offset));
    }
    Ok(slice_subrange(fragment, from, to))
}

// ------------------------------------------------------------------ //
// What holds of the whole.
// ------------------------------------------------------------------ //
/// The samples of a run lie end to end in the file, and each is decoded when
/// the one before it has lasted, as far as the clock can say.
pub proof fn law_run_is_contiguous(entries: Seq<Entry>, at: u64, clock: i64, i: int)
    requires
        0 <= i < entries.len() - 1,
        at + bytes_before(entries, entries.len()) <= u64::MAX,
    ensures
        ({
            let run = run_samples(entries, at, clock);
            &&& run[0].offset == at
            &&& run[0].dts == clock
            &&& run[i + 1].offset == run[i].offset + run[i].size
            &&& run[i + 1].dts == clamp64(run[i].dts + run[i].duration)
        }),
{
    lemma_bytes_grow(entries, (i + 1) as nat, entries.len());
}

/// §8.8.7's three cases: an explicit base wins over the rest, then
/// `default-base-is-moof` and being the first each give the `moof`, and
/// otherwise the data carries on from where the previous track fragment's
/// ended.
pub proof fn law_base_of_a_track_fragment(
    tfhd: Tfhd,
    moof_start: u64,
    first: bool,
    previous_end: u64,
)
    ensures
        ({
            let base = tfhd.base_spec(moof_start, first, previous_end);
            &&& tfhd.base_data_offset is Some ==> base == tfhd.base_data_offset.unwrap()
            &&& tfhd.base_data_offset is None && (tfhd.base_is_moof || first) ==> base
                == moof_start
            &&& tfhd.base_data_offset is None && !tfhd.base_is_moof && !first ==> base
                == previous_end
        }),
{
}

/// A run that states no offset of its own begins where the data before it
/// ended; one that does begins that far from its track fragment's base.
pub proof fn law_where_a_run_begins(
    reach: Reach,
    run: (Option<i64>, Seq<Entry>),
    base: u64,
    trun_at: u64,
    limits: Limits,
)
    requires
        run.1.len() > 0,
    ensures
        run_after(reach, run, base, true, trun_at, limits) matches Ok(after) ==> {
            let start = after.samples[reach.samples.len() as int].offset;
            &&& run.0 is None ==> start == reach.end
            &&& run.0 is Some ==> start == base + run.0.unwrap()
            &&& after.end == start + bytes_before(run.1, run.1.len())
        },
{
}

/// Two different samples of a run share no byte.
pub proof fn law_samples_of_a_run_are_apart(
    entries: Seq<Entry>,
    at: u64,
    clock: i64,
    i: int,
    j: int,
)
    requires
        0 <= i < j < entries.len(),
        at + bytes_before(entries, entries.len()) <= u64::MAX,
    ensures
        ({
            let run = run_samples(entries, at, clock);
            run[i].offset + run[i].size <= run[j].offset
        }),
{
    lemma_bytes_grow(entries, (i + 1) as nat, j as nat);
    lemma_bytes_grow(entries, j as nat, entries.len());
}

/// A `tfdt` states the clock: what a track fragment that has one adds does
/// not depend on the decode time before it.
pub proof fn law_a_tfdt_states_the_clock(
    traf: Kid,
    moof_start: u64,
    first: bool,
    previous: u64,
    trex: TrexDefaults,
    one: i64,
    other: i64,
    limits: Limits,
)
    requires
        children_spec(traf.body, traf.at, limits.max_children) matches Ok(inner) && first_of(
            inner,
            TFDT,
        ) is Some,
    ensures
        traf_spec(traf, moof_start, first, previous, None, trex, one, limits) == traf_spec(
            traf,
            moof_start,
            first,
            previous,
            None,
            trex,
            other,
            limits,
        ),
{
}

/// A track fragment of another track adds no samples and leaves the clock
/// alone.
pub proof fn law_another_track_adds_no_samples(
    traf: Kid,
    moof_start: u64,
    first: bool,
    previous: u64,
    want: u32,
    trex: TrexDefaults,
    clock: i64,
    limits: Limits,
)
    requires
        children_spec(traf.body, traf.at, limits.max_children) matches Ok(inner) && (first_of(
            inner,
            TFHD,
        ) matches Some(head) && (tfhd_spec(head.body, head.at) matches Ok(tfhd) && tfhd.track_id
            != want)),
    ensures
        traf_spec(traf, moof_start, first, previous, Some(want), trex, clock, limits) matches Ok(
            reach,
        ) ==> reach.samples.len() == 0 && reach.clock == clock,
{
    let inner = children_spec(traf.body, traf.at, limits.max_children)->Ok_0;
    let head = first_of(inner, TFHD).unwrap();
    let tfhd = tfhd_spec(head.body, head.at)->Ok_0;
    let base = tfhd.base_spec(moof_start, first, previous);
    let start = match first_of(inner, TFDT) {
        None => Ok(0i64),
        Some(tfdt) => tfdt_spec(tfdt.body, tfdt.at),
    };
    if let Ok(start) = start {
        lemma_not_mine(
            Reach { samples: Seq::empty(), end: base, clock: start },
            inner,
            tfhd,
            trex,
            base,
            limits,
        );
    }
}

proof fn lemma_not_mine(
    reach: Reach,
    list: Seq<Kid>,
    tfhd: Tfhd,
    trex: TrexDefaults,
    base: u64,
    limits: Limits,
)
    ensures
        runs_after(reach, list, tfhd, trex, base, false, limits) matches Ok(after)
            ==> after.samples == reach.samples,
    decreases list.len(),
{
    if list.len() > 0 {
        if list[0].kind != TRUN {
            lemma_not_mine(reach, list.drop_first(), tfhd, trex, base, limits);
        } else if let Ok(run) = trun_spec(list[0].body, list[0].at, tfhd, trex, limits) {
            if let Ok(next) = run_after(reach, run, base, false, list[0].at, limits) {
                lemma_not_mine(next, list.drop_first(), tfhd, trex, base, limits);
            }
        }
    }
}

/// Composition offsets are read as signed whatever the version of the run:
/// the version byte changes nothing.
pub proof fn law_the_version_of_a_run_does_not_matter(
    one: Seq<u8>,
    other: Seq<u8>,
    at: u64,
    tfhd: Tfhd,
    trex: TrexDefaults,
    limits: Limits,
)
    requires
        one.len() == other.len(),
        forall|i: int| 1 <= i < one.len() ==> one[i] == other[i],
    ensures
        trun_spec(one, at, tfhd, trex, limits) == trun_spec(other, at, tfhd, trex, limits),
{
    if one.len() >= 8 {
        lemma_same24(one, 1, other, 1);
        lemma_same32(one, 4, other, 4);
        let flags = be24(one, 1);
        if one.len() >= first_flags_at(flags) && set_in(flags, 0x01) {
            lemma_same32(one, 8, other, 8);
        }
        if one.len() >= rows_at(flags) && set_in(flags, 0x04) {
            lemma_same32(one, first_flags_at(flags) as int, other, first_flags_at(flags) as int);
        }
        if let Ok(count) = trun_count_spec(one, at, limits) {
            let row = row_len(flags);
            let left = (one.len() - rows_at(flags)) as nat;
            assert(count * row <= left) by {
                assert(row == 0 ==> count * row == 0) by (nonlinear_arith);
            }
            assert forall|i: int| 0 <= i < count implies rows_spec(
                one,
                count as nat,
                tfhd,
                trex,
            )[i] == rows_spec(other, count as nat, tfhd, trex)[i] by {
                lemma_row_inside(i as nat, count as nat, row, left);
                assert(0 <= i * row) by (nonlinear_arith)
                    requires
                        0 <= i,
                ;
                let pos = (rows_at(flags) + i * row) as int;
                lemma_row_alike(one, other, pos as nat, flags);
            }
            assert(rows_spec(one, count as nat, tfhd, trex) =~= rows_spec(
                other,
                count as nat,
                tfhd,
                trex,
            ));
        }
    }
}

/// The fields of a row are the same in bytes that agree past the first.
proof fn lemma_row_alike(one: Seq<u8>, other: Seq<u8>, pos: nat, flags: u32)
    requires
        one.len() == other.len(),
        1 <= pos,
        pos + row_len(flags) <= one.len(),
        forall|i: int| 1 <= i < one.len() ==> one[i] == other[i],
    ensures
        ({
            let size_at = pos + four_if(set_in(flags, 0x100));
            let flags_at = size_at + four_if(set_in(flags, 0x200));
            let offset_at = flags_at + four_if(set_in(flags, 0x400));
            &&& set_in(flags, 0x100) ==> be32(one, pos as int) == be32(other, pos as int)
            &&& set_in(flags, 0x200) ==> be32(one, size_at as int) == be32(other, size_at as int)
            &&& set_in(flags, 0x400) ==> be32(one, flags_at as int) == be32(other, flags_at as int)
            &&& set_in(flags, 0x800) ==> be32(one, offset_at as int) == be32(
                other,
                offset_at as int,
            )
        }),
{
    let size_at = pos + four_if(set_in(flags, 0x100));
    let flags_at = size_at + four_if(set_in(flags, 0x200));
    let offset_at = flags_at + four_if(set_in(flags, 0x400));
    if set_in(flags, 0x100) {
        lemma_same32(one, pos as int, other, pos as int);
    }
    if set_in(flags, 0x200) {
        lemma_same32(one, size_at as int, other, size_at as int);
    }
    if set_in(flags, 0x400) {
        lemma_same32(one, flags_at as int, other, flags_at as int);
    }
    if set_in(flags, 0x800) {
        lemma_same32(one, offset_at as int, other, offset_at as int);
    }
}

/// Nothing is allocated from a number a run made up: it has no more entries
/// than its box has bytes.
pub proof fn law_a_run_is_no_longer_than_its_box(body: Seq<u8>, at: u64, limits: Limits)
    ensures
        trun_count_spec(body, at, limits) matches Ok(count) ==> count <= limits.max_samples && count
            <= body.len(),
{
    if let Ok(count) = trun_count_spec(body, at, limits) {
        let row = row_len(be24(body, 1));
        let each = if row == 0 {
            1
        } else {
            row
        };
        assert(count <= count * each) by (nonlinear_arith)
            requires
                each >= 1,
        ;
    }
}

/// Children as they are when their parent is `by` bytes further on.
pub open spec fn kids_further(list: Seq<Kid>, by: int) -> Seq<Kid> {
    Seq::new(list.len(), |i: int| Kid { at: (list[i].at + by) as u64, ..list[i] })
}

/// Samples as they are when their bytes are `by` bytes further on.
pub open spec fn further(samples: Seq<Sample>, by: int) -> Seq<Sample> {
    Seq::new(
        samples.len(),
        |i: int| Sample { offset: (samples[i].offset + by) as u64, ..samples[i] },
    )
}

/// Whether an error is that of data placed past the last position there is.
pub open spec fn leaves_the_file(err: Error) -> bool {
    err matches Error::Format(fault) && (fault.what == "a trun whose data offset leaves the file"
        || fault.what == "a sample that runs past the file")
}

pub open spec fn larger(a: int, b: int) -> int {
    if a < b {
        b
    } else {
        a
    }
}

/// How far the data of the runs among a track fragment's children reaches.
pub open spec fn runs_top(
    reach: Reach,
    list: Seq<Kid>,
    tfhd: Tfhd,
    trex: TrexDefaults,
    base: u64,
    mine: bool,
    limits: Limits,
) -> int
    decreases list.len(),
{
    if list.len() == 0 {
        0
    } else if list[0].kind != TRUN {
        runs_top(reach, list.drop_first(), tfhd, trex, base, mine, limits)
    } else {
        match trun_spec(list[0].body, list[0].at, tfhd, trex, limits) {
            Err(_) => 0,
            Ok(run) => match run_after(reach, run, base, mine, list[0].at, limits) {
                Err(_) => 0,
                Ok(next) => larger(
                    next.end as int,
                    runs_top(next, list.drop_first(), tfhd, trex, base, mine, limits),
                ),
            },
        }
    }
}

/// How far the data of a track fragment reaches.
pub open spec fn traf_top(
    traf: Kid,
    moof_start: u64,
    first: bool,
    previous: u64,
    want: Option<u32>,
    trex: TrexDefaults,
    clock: i64,
    limits: Limits,
) -> int {
    match children_spec(traf.body, traf.at, limits.max_children) {
        Err(_) => 0,
        Ok(inner) => match first_of(inner, TFHD) {
            None => 0,
            Some(head) => match tfhd_spec(head.body, head.at) {
                Err(_) => 0,
                Ok(tfhd) => {
                    let mine = wanted(want, tfhd.track_id);
                    let base = tfhd.base_spec(moof_start, first, previous);
                    match start_spec(inner, mine, clock) {
                        Err(_) => 0,
                        Ok(start) => runs_top(
                            Reach { samples: Seq::empty(), end: base, clock: start },
                            inner,
                            tfhd,
                            trex,
                            base,
                            mine,
                            limits,
                        ),
                    }
                },
            },
        },
    }
}

/// How far the data of the track fragments among a movie fragment's children
/// reaches.
pub open spec fn trafs_top(
    reach: Reach,
    first: bool,
    list: Seq<Kid>,
    moof_start: u64,
    want: Option<u32>,
    trex: TrexDefaults,
    limits: Limits,
) -> int
    decreases list.len(),
{
    if list.len() == 0 {
        0
    } else if list[0].kind != TRAF {
        trafs_top(reach, first, list.drop_first(), moof_start, want, trex, limits)
    } else {
        match traf_spec(
            list[0],
            moof_start,
            first,
            reach.end,
            want,
            trex,
            reach.clock,
            limits,
        ) {
            Err(_) => 0,
            Ok(more) => larger(
                traf_top(
                    list[0],
                    moof_start,
                    first,
                    reach.end,
                    want,
                    trex,
                    reach.clock,
                    limits,
                ),
                trafs_top(
                    Reach { samples: reach.samples + more.samples, ..more },
                    false,
                    list.drop_first(),
                    moof_start,
                    want,
                    trex,
                    limits,
                ),
            ),
        }
    }
}

/// How far the data of a fragment reaches that begins at zero, whichever
/// track the data is of.
pub open spec fn fragment_top(
    fragment: Seq<u8>,
    track_id: u32,
    defaults: TrexDefaults,
) -> int {
    match moof_bounds(fragment, 0) {
        Err(_) => 0,
        Ok((head, size)) => match children_spec(
            fragment.subrange(head as int, size as int),
            head as u64,
            Limits::usual().max_children,
        ) {
            Err(_) => 0,
            Ok(list) => trafs_top(
                Reach { samples: Seq::empty(), end: 0, clock: 0 },
                true,
                list,
                0,
                Some(track_id),
                defaults,
                Limits::usual(),
            ),
        },
    }
}

/// Whether two reads came to the same, but for where the data is, `top` being
/// how far it reaches in the first.
pub open spec fn same_further(
    one: Result<Reach>,
    other: Result<Reach>,
    by: int,
    top: int,
) -> bool {
    one matches Ok(reach) ==> match other {
        Ok(moved) => {
            &&& top + by <= u64::MAX
            &&& moved.samples == further(reach.samples, by)
            &&& moved.end == reach.end + by
            &&& moved.clock == reach.clock
        },
        Err(err) => top + by > u64::MAX && leaves_the_file(err),
    }
}

proof fn lemma_kids_further(rest: Seq<u8>, here: u64, top: u64, max: usize, count: nat, by: int)
    requires
        0 <= by,
        here + by + rest.len() <= u64::MAX,
        top + by <= u64::MAX,
    ensures
        kids_from(rest, here, top, max, count) matches Ok(list) ==> kids_from(
            rest,
            (here + by) as u64,
            (top + by) as u64,
            max,
            count,
        ) == Ok::<_, Error>(kids_further(list, by)),
    decreases rest.len(),
{
    if rest.len() < 8 {
        assert(kids_further(Seq::empty(), by) =~= Seq::empty());
    } else if let Ok(Some(header)) = parse_header_spec(rest, here) {
        assert(parse_header_spec(rest, (here + by) as u64) == Ok::<_, Error>(Some(header)));
        if let Ok(size) = child_size(header, rest.len(), here) {
            if count + 1 <= max && size > 0 {
                let next = (here + size) as u64;
                let more = rest.skip(size as int);
                lemma_kids_further(more, next, top, max, count + 1, by);
                if let Ok(tail) = kids_from(more, next, top, max, count + 1) {
                    let kid = Kid {
                        kind: header.kind,
                        body: rest.subrange(header.header_len as int, size as int),
                        at: (here + header.header_len) as u64,
                    };
                    let moved = Kid { at: (kid.at + by) as u64, ..kid };
                    assert(kids_further(seq![kid] + tail, by) =~= seq![moved] + kids_further(
                        tail,
                        by,
                    ));
                }
            } else if size == 0 {
                assert(kids_further(Seq::empty(), by) =~= Seq::empty());
            }
        }
    }
}

proof fn lemma_first_further(list: Seq<Kid>, kind: [u8; 4], by: int)
    ensures
        match first_of(list, kind) {
            Some(kid) => first_of(kids_further(list, by), kind) == Some(
                Kid { at: (kid.at + by) as u64, ..kid },
            ),
            None => first_of(kids_further(list, by), kind) is None,
        },
    decreases list.len(),
{
    if list.len() > 0 {
        let rest = list.drop_first();
        assert(kids_further(list, by).drop_first() =~= kids_further(rest, by));
        lemma_first_further(rest, kind, by);
    }
}

proof fn lemma_run_further(
    one: Reach,
    other: Reach,
    run: (Option<i64>, Seq<Entry>),
    base: u64,
    mine: bool,
    at: u64,
    limits: Limits,
    by: int,
)
    requires
        0 <= by,
        base + by <= u64::MAX,
        same_further(Ok(one), Ok(other), by, 0),
    ensures
        same_further(
            run_after(one, run, base, mine, at, limits),
            run_after(other, run, (base + by) as u64, mine, (at + by) as u64, limits),
            by,
            match run_after(one, run, base, mine, at, limits) {
                Ok(next) => next.end as int,
                Err(_) => 0,
            },
        ),
{
    let from = match run.0 {
        Some(offset) => base + offset,
        None => one.end as int,
    };
    let end = from + bytes_before(run.1, run.1.len());
    if 0 <= from && end <= u64::MAX && end + by <= u64::MAX {
        let near = run_samples(run.1, from as u64, one.clock);
        let far = run_samples(run.1, (from + by) as u64, one.clock);
        assert forall|i: int| 0 <= i < near.len() implies far[i] == further(near, by)[i] by {
            lemma_bytes_grow(run.1, i as nat, run.1.len());
        }
        assert(far =~= further(near, by));
        assert(further(one.samples + near, by) =~= further(one.samples, by) + further(near, by));
    }
}

proof fn lemma_runs_further(
    one: Reach,
    other: Reach,
    list: Seq<Kid>,
    tfhd: Tfhd,
    trex: TrexDefaults,
    base: u64,
    mine: bool,
    limits: Limits,
    by: int,
)
    requires
        0 <= by,
        base + by <= u64::MAX,
        same_further(Ok(one), Ok(other), by, 0),
    ensures
        same_further(
            runs_after(one, list, tfhd, trex, base, mine, limits),
            runs_after(
                other,
                kids_further(list, by),
                tfhd,
                trex,
                (base + by) as u64,
                mine,
                limits,
            ),
            by,
            runs_top(one, list, tfhd, trex, base, mine, limits),
        ),
    decreases list.len(),
{
    if list.len() > 0 {
        let rest = list.drop_first();
        let far = kids_further(list, by);
        assert(far.drop_first() =~= kids_further(rest, by));
        if list[0].kind != TRUN {
            lemma_runs_further(one, other, rest, tfhd, trex, base, mine, limits, by);
        } else if let Ok(run) = trun_spec(list[0].body, list[0].at, tfhd, trex, limits) {
            assert(trun_spec(far[0].body, far[0].at, tfhd, trex, limits) == Ok::<_, Error>(run));
            lemma_run_further(one, other, run, base, mine, list[0].at, limits, by);
            let near = run_after(one, run, base, mine, list[0].at, limits);
            let moved = run_after(other, run, (base + by) as u64, mine, far[0].at, limits);
            if near is Ok && moved is Ok {
                lemma_runs_further(
                    near->Ok_0,
                    moved->Ok_0,
                    rest,
                    tfhd,
                    trex,
                    base,
                    mine,
                    limits,
                    by,
                );
            }
        }
    }
}

/// Whether the `tfhd` of a track fragment names no place of its own.
pub open spec fn names_no_base(traf: Kid, limits: Limits) -> bool {
    children_spec(traf.body, traf.at, limits.max_children) matches Ok(inner) ==> (first_of(
        inner,
        TFHD,
    ) matches Some(head) ==> (tfhd_spec(head.body, head.at) matches Ok(tfhd)
        ==> tfhd.base_data_offset is None))
}

#[verifier::rlimit(40)]
proof fn lemma_traf_further(
    traf: Kid,
    moof_start: u64,
    first: bool,
    previous: u64,
    want: Option<u32>,
    trex: TrexDefaults,
    clock: i64,
    limits: Limits,
    by: int,
)
    requires
        0 <= by,
        traf.at + by + traf.body.len() <= u64::MAX,
        moof_start + by <= u64::MAX,
        previous + by <= u64::MAX,
        names_no_base(traf, limits),
    ensures
        same_further(
            traf_spec(traf, moof_start, first, previous, want, trex, clock, limits),
            traf_spec(
                Kid { at: (traf.at + by) as u64, ..traf },
                (moof_start + by) as u64,
                first,
                (previous + by) as u64,
                want,
                trex,
                clock,
                limits,
            ),
            by,
            traf_top(traf, moof_start, first, previous, want, trex, clock, limits),
        ),
{
    lemma_kids_further(traf.body, traf.at, traf.at, limits.max_children, 0, by);
    if let Ok(inner) = children_spec(traf.body, traf.at, limits.max_children) {
        lemma_first_further(inner, TFHD, by);
        lemma_first_further(inner, TFDT, by);
        if let Some(head) = first_of(inner, TFHD) {
            if let Ok(tfhd) = tfhd_spec(head.body, head.at) {
                let mine = wanted(want, tfhd.track_id);
                if let Ok(start) = start_spec(inner, mine, clock) {
                    let base = tfhd.base_spec(moof_start, first, previous);
                    let near = Reach { samples: Seq::empty(), end: base, clock: start };
                    let far = Reach { end: (base + by) as u64, ..near };
                    assert(further(near.samples, by) =~= far.samples);
                    lemma_runs_further(near, far, inner, tfhd, trex, base, mine, limits, by);
                }
            }
        }
    }
}

proof fn lemma_trafs_further(
    one: Reach,
    other: Reach,
    first: bool,
    list: Seq<Kid>,
    moof_start: u64,
    want: Option<u32>,
    trex: TrexDefaults,
    limits: Limits,
    by: int,
)
    requires
        0 <= by,
        moof_start + by <= u64::MAX,
        same_further(Ok(one), Ok(other), by, 0),
        forall|i: int|
            0 <= i < list.len() ==> (#[trigger] list[i]).at + by + list[i].body.len() <= u64::MAX,
        forall|i: int| 0 <= i < list.len() ==> names_no_base(#[trigger] list[i], limits),
    ensures
        same_further(
            trafs_after(one, first, list, moof_start, want, trex, limits),
            trafs_after(
                other,
                first,
                kids_further(list, by),
                (moof_start + by) as u64,
                want,
                trex,
                limits,
            ),
            by,
            trafs_top(one, first, list, moof_start, want, trex, limits),
        ),
    decreases list.len(),
{
    if list.len() > 0 {
        let rest = list.drop_first();
        let far = kids_further(list, by);
        assert(far.drop_first() =~= kids_further(rest, by));
        assert forall|i: int| 0 <= i < rest.len() implies (#[trigger] rest[i]).at + by
            + rest[i].body.len() <= u64::MAX && names_no_base(rest[i], limits) by {
            assert(rest[i] == list[i + 1]);
        }
        if list[0].kind != TRAF {
            lemma_trafs_further(one, other, first, rest, moof_start, want, trex, limits, by);
        } else {
            assert(names_no_base(list[0], limits));
            lemma_traf_further(
                list[0],
                moof_start,
                first,
                one.end,
                want,
                trex,
                one.clock,
                limits,
                by,
            );
            let near = traf_spec(
                list[0],
                moof_start,
                first,
                one.end,
                want,
                trex,
                one.clock,
                limits,
            );
            let moved = traf_spec(
                far[0],
                (moof_start + by) as u64,
                first,
                other.end,
                want,
                trex,
                other.clock,
                limits,
            );
            if near is Ok && moved is Ok {
                let (n, m) = (near->Ok_0, moved->Ok_0);
                assert(further(one.samples + n.samples, by) =~= further(one.samples, by) + further(
                    n.samples,
                    by,
                ));
                lemma_trafs_further(
                    Reach { samples: one.samples + n.samples, ..n },
                    Reach { samples: other.samples + m.samples, ..m },
                    false,
                    rest,
                    moof_start,
                    want,
                    trex,
                    limits,
                    by,
                );
            }
        }
    }
}

/// The bytes of a sample are the same wherever its fragment is: with the
/// sample moved as far as the fragment, they are there or not as they were,
/// and are what they were.
pub proof fn law_a_samples_bytes_are_the_same_wherever_it_is(
    fragment: Seq<u8>,
    at: u64,
    sample: Sample,
)
    requires
        sample.offset + at <= u64::MAX,
    ensures
        ({
            let moved = Sample { offset: (sample.offset + at) as u64, ..sample };
            let here = sample_bytes_spec(fragment, 0, sample);
            let there = sample_bytes_spec(fragment, at, moved);
            &&& here is Ok <==> there is Ok
            &&& here is Ok ==> here == there
        }),
{
}

/// Whether no track fragment of a fragment names a place of its own.
pub open spec fn fragment_names_no_base(fragment: Seq<u8>) -> bool {
    moof_bounds(fragment, 0) matches Ok((head, size)) ==> (children_spec(
        fragment.subrange(head as int, size as int),
        head as u64,
        Limits::usual().max_children,
    ) matches Ok(list) ==> forall|i: int|
        0 <= i < list.len() ==> names_no_base(#[trigger] list[i], Limits::usual()))
}

/// A fragment that names no place of its own is read the same wherever it
/// is in its stream: its samples at a position are those it has at zero,
/// moved by the position. It is refused only where that takes data of the
/// fragment past the last position there is.
pub proof fn law_a_fragment_reads_the_same_wherever_it_is(
    fragment: Seq<u8>,
    at: u64,
    track_id: u32,
    defaults: TrexDefaults,
)
    requires
        at + fragment.len() <= u64::MAX,
        fragment_names_no_base(fragment),
    ensures
        fragment_spec(fragment, 0, track_id, defaults) matches Ok(samples) ==> match fragment_spec(
            fragment,
            at,
            track_id,
            defaults,
        ) {
            Ok(moved) => moved == further(samples, at as int) && at + fragment_top(
                fragment,
                track_id,
                defaults,
            ) <= u64::MAX,
            Err(err) => leaves_the_file(err) && at + fragment_top(fragment, track_id, defaults)
                > u64::MAX,
        },
{
    let limits = Limits::usual();
    if let Ok((head, size)) = moof_bounds(fragment, 0) {
        assert(moof_bounds(fragment, at) == Ok::<_, Error>((head, size)));
        let body = fragment.subrange(head as int, size as int);
        lemma_kids_further(body, head as u64, head as u64, limits.max_children, 0, at as int);
        law_children_lie_inside(body, head as u64, limits.max_children);
        if let Ok(list) = children_spec(body, head as u64, limits.max_children) {
            let near = Reach { samples: Seq::empty(), end: 0, clock: 0 };
            let far = Reach { end: at, ..near };
            assert(further(near.samples, at as int) =~= far.samples);
            assert forall|i: int| 0 <= i < list.len() implies (#[trigger] list[i]).at + at
                + list[i].body.len() <= u64::MAX by {
                assert(lies_in(list[i], body, head as int));
            }
            lemma_trafs_further(
                near,
                far,
                true,
                list,
                0,
                Some(track_id),
                defaults,
                limits,
                at as int,
            );
            if let Ok(reach) = moof_spec(
                body,
                0,
                head as u64,
                Some(track_id),
                defaults,
                0,
                limits,
            ) {
                assert(numbered(further(reach.samples, at as int)) =~= further(
                    numbered(reach.samples),
                    at as int,
                ));
            }
        }
    }
}

} // verus!
