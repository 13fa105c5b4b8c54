//! The sample tables of a track that is not fragmented (§8.6, §8.7).
//!
//! A `stbl` says where every sample is and when it is shown, in six tables
//! that each say a part of it: how large the samples are, where the chunks
//! they lie in begin, how many lie in each chunk, how long each lasts, how
//! far its composition time is from its decode time, and which ones a
//! decoder may start at.

use vstd::prelude::*;

use crate::be::{as_signed32, be16, be32, be64, get16, get32, get64, lemma_same32, signed32};
use crate::boxes::{
    all_fit, child_of, count_spec, first_of, full_box_lacking, joined, kids_of, lacking,
    table_len, Bytes, Child, Kid, Walk,
};
use crate::codes::{CO64, CTTS, STCO, STSC, STSS, STSZ, STTS, STZ2};
use crate::error::{seen, settled, Error, Result};
use crate::limits::{reserved, Limits};
use crate::time::{clamp64, plus};
use crate::track::{next_dts_spec, Sample};

verus! {

// ------------------------------------------------------------------ //
// The tables as they are written.
// ------------------------------------------------------------------ //
/// The `entry_count` of a table that follows a `FullBox` opening.
pub open spec fn entry_count_spec(body: Seq<u8>, at: u64, entry_size: nat) -> Result<usize> {
    if body.len() < 4 {
        Err(full_box_lacking(at, 0, body.len()))
    } else {
        count_spec(Walk { data: body, at: 4, base: at }, entry_size)
    }
}

/// The `entry_count` of a table that follows a `FullBox` opening.
pub fn entry_count(body: &[u8], at: u64, entry_size: usize) -> (count: Result<usize>)
    requires
        at + body.len() <= u64::MAX,
    ensures
        count == entry_count_spec(body@, at, entry_size as nat),
{
    let mut bytes = Bytes::at(body, at);
    bytes.full_box()?;
    bytes.count(entry_size)
}

/// Whether a table has the rows it claims, each of so many bytes.
pub open spec fn holds_rows(body: Seq<u8>, count: nat, entry_size: nat) -> bool {
    8 + table_len(count, entry_size) <= body.len()
}

/// `stco`, the 32-bit chunk offsets (§8.7.5).
pub open spec fn offsets32_spec(body: Seq<u8>, at: u64) -> Result<Seq<u64>> {
    match entry_count_spec(body, at, 4) {
        Err(err) => Err(err),
        Ok(count) => Ok(offsets32_rows_spec(body, count as nat)),
    }
}

pub open spec fn offsets32_rows_spec(body: Seq<u8>, count: nat) -> Seq<u64> {
    Seq::new(count, |i: int| be32(body, 8 + i * 4) as u64)
}

/// The rows of an `stco`, put into `room`.
pub fn offsets32_rows(body: &[u8], count: usize, room: Vec<u64>) -> (out: Vec<u64>)
    requires
        holds_rows(body@, count as nat, 4),
        room@.len() == 0,
    ensures
        out@ == offsets32_rows_spec(body@, count as nat),
{
    let mut out: Vec<u64> = room;
    let mut index: usize = 0;
    let len: usize = body.len();
    while index < count
        invariant
            index <= count,
            len == body@.len(),
            8 + count * 4 <= len,
            out@ == offsets32_rows_spec(body@, index as nat),
        decreases count - index,
    {
        out.push(get32(body, 8 + index * 4) as u64);
        index = index + 1;
        assert(out@ =~= offsets32_rows_spec(body@, index as nat));
    }
    out
}

/// `stco`, the 32-bit chunk offsets (§8.7.5).
pub fn offsets32(body: &[u8], at: u64) -> (out: Result<Vec<u64>>)
    requires
        at + body.len() <= u64::MAX,
    ensures
        seen(out) == offsets32_spec(body@, at) || (seen(out) == Err::<Seq<u64>, Error>(
            Error::format("a chunk table larger than memory"),
        ) && (offsets32_spec(body@, at) matches Ok(list) && list.len() > 0)),
{
    let count: usize = entry_count(body, at, 4)?;
    let room: Vec<u64> = reserved(count, "a chunk table larger than memory")?;
    Ok(offsets32_rows(body, count, room))
}

/// `co64`, the 64-bit ones (§8.7.5).
pub open spec fn offsets64_spec(body: Seq<u8>, at: u64) -> Result<Seq<u64>> {
    match entry_count_spec(body, at, 8) {
        Err(err) => Err(err),
        Ok(count) => Ok(offsets64_rows_spec(body, count as nat)),
    }
}

pub open spec fn offsets64_rows_spec(body: Seq<u8>, count: nat) -> Seq<u64> {
    Seq::new(count, |i: int| be64(body, 8 + i * 8))
}

/// The rows of a `co64`, put into `room`.
pub fn offsets64_rows(body: &[u8], count: usize, room: Vec<u64>) -> (out: Vec<u64>)
    requires
        holds_rows(body@, count as nat, 8),
        room@.len() == 0,
    ensures
        out@ == offsets64_rows_spec(body@, count as nat),
{
    let mut out: Vec<u64> = room;
    let mut index: usize = 0;
    let len: usize = body.len();
    while index < count
        invariant
            index <= count,
            len == body@.len(),
            8 + count * 8 <= len,
            out@ == offsets64_rows_spec(body@, index as nat),
        decreases count - index,
    {
        out.push(get64(body, 8 + index * 8));
        index = index + 1;
        assert(out@ =~= offsets64_rows_spec(body@, index as nat));
    }
    out
}

/// `co64`, the 64-bit ones (§8.7.5).
pub fn offsets64(body: &[u8], at: u64) -> (out: Result<Vec<u64>>)
    requires
        at + body.len() <= u64::MAX,
    ensures
        seen(out) == offsets64_spec(body@, at) || (seen(out) == Err::<Seq<u64>, Error>(
            Error::format("a chunk table larger than memory"),
        ) && (offsets64_spec(body@, at) matches Ok(list) && list.len() > 0)),
{
    let count: usize = entry_count(body, at, 8)?;
    let room: Vec<u64> = reserved(count, "a chunk table larger than memory")?;
    Ok(offsets64_rows(body, count, room))
}

/// `stsc`: first chunk, samples per chunk, sample description index
/// (§8.7.4).
pub open spec fn stsc_spec(body: Seq<u8>, at: u64) -> Result<Seq<(u32, u32, u32)>> {
    match entry_count_spec(body, at, 12) {
        Err(err) => Err(err),
        Ok(count) => Ok(stsc_rows_spec(body, count as nat)),
    }
}

pub open spec fn stsc_rows_spec(body: Seq<u8>, count: nat) -> Seq<(u32, u32, u32)> {
    Seq::new(
        count,
        |i: int|
            (be32(body, 8 + i * 12), be32(body, 12 + i * 12), be32(body, 16 + i * 12)),
    )
}

/// The rows of an `stsc`, put into `room`.
pub fn stsc_rows(body: &[u8], count: usize, room: Vec<(u32, u32, u32)>) -> (out: Vec<
    (u32, u32, u32),
>)
    requires
        holds_rows(body@, count as nat, 12),
        room@.len() == 0,
    ensures
        out@ == stsc_rows_spec(body@, count as nat),
{
    let mut out: Vec<(u32, u32, u32)> = room;
    let mut index: usize = 0;
    let len: usize = body.len();
    while index < count
        invariant
            index <= count,
            len == body@.len(),
            8 + count * 12 <= len,
            out@ == stsc_rows_spec(body@, index as nat),
        decreases count - index,
    {
        out.push(
            (
                get32(body, 8 + index * 12),
                get32(body, 12 + index * 12),
                get32(body, 16 + index * 12),
            ),
        );
        index = index + 1;
        assert(out@ =~= stsc_rows_spec(body@, index as nat));
    }
    out
}

/// `stsc`: first chunk, samples per chunk, sample description index
/// (§8.7.4).
pub fn stsc(body: &[u8], at: u64) -> (out: Result<Vec<(u32, u32, u32)>>)
    requires
        at + body.len() <= u64::MAX,
    ensures
        seen(out) == stsc_spec(body@, at) || (seen(out) == Err::<Seq<(u32, u32, u32)>, Error>(
            Error::format("a chunk map larger than memory"),
        ) && (stsc_spec(body@, at) matches Ok(list) && list.len() > 0)),
{
    let count: usize = entry_count(body, at, 12)?;
    let room: Vec<(u32, u32, u32)> = reserved(count, "a chunk map larger than memory")?;
    Ok(stsc_rows(body, count, room))
}

/// `stts`: sample count and delta (§8.6.1.2).
pub open spec fn pairs_spec(body: Seq<u8>, at: u64) -> Result<Seq<(u32, u32)>> {
    match entry_count_spec(body, at, 8) {
        Err(err) => Err(err),
        Ok(count) => Ok(pairs_rows_spec(body, count as nat)),
    }
}

pub open spec fn pairs_rows_spec(body: Seq<u8>, count: nat) -> Seq<(u32, u32)> {
    Seq::new(count, |i: int| (be32(body, 8 + i * 8), be32(body, 12 + i * 8)))
}

/// The rows of an `stts`, put into `room`.
pub fn pairs_rows(body: &[u8], count: usize, room: Vec<(u32, u32)>) -> (out: Vec<(u32, u32)>)
    requires
        holds_rows(body@, count as nat, 8),
        room@.len() == 0,
    ensures
        out@ == pairs_rows_spec(body@, count as nat),
{
    let mut out: Vec<(u32, u32)> = room;
    let mut index: usize = 0;
    let len: usize = body.len();
    while index < count
        invariant
            index <= count,
            len == body@.len(),
            8 + count * 8 <= len,
            out@ == pairs_rows_spec(body@, index as nat),
        decreases count - index,
    {
        out.push((get32(body, 8 + index * 8), get32(body, 12 + index * 8)));
        index = index + 1;
        assert(out@ =~= pairs_rows_spec(body@, index as nat));
    }
    out
}

/// `stts`: sample count and delta (§8.6.1.2).
pub fn pairs(body: &[u8], at: u64) -> (out: Result<Vec<(u32, u32)>>)
    requires
        at + body.len() <= u64::MAX,
    ensures
        seen(out) == pairs_spec(body@, at) || (seen(out) == Err::<Seq<(u32, u32)>, Error>(
            Error::format("a time table larger than memory"),
        ) && (pairs_spec(body@, at) matches Ok(list) && list.len() > 0)),
{
    let count: usize = entry_count(body, at, 8)?;
    let room: Vec<(u32, u32)> = reserved(count, "a time table larger than memory")?;
    Ok(pairs_rows(body, count, room))
}

/// `ctts`: sample count and composition offset (§8.6.1.3), signed in either
/// version.
pub open spec fn ctts_spec(body: Seq<u8>, at: u64) -> Result<Seq<(u32, i32)>> {
    match entry_count_spec(body, at, 8) {
        Err(err) => Err(err),
        Ok(count) => Ok(ctts_rows_spec(body, count as nat)),
    }
}

pub open spec fn ctts_rows_spec(body: Seq<u8>, count: nat) -> Seq<(u32, i32)> {
    Seq::new(count, |i: int| (be32(body, 8 + i * 8), signed32(be32(body, 12 + i * 8))))
}

/// The rows of a `ctts`, put into `room`.
pub fn ctts_rows(body: &[u8], count: usize, room: Vec<(u32, i32)>) -> (out: Vec<(u32, i32)>)
    requires
        holds_rows(body@, count as nat, 8),
        room@.len() == 0,
    ensures
        out@ == ctts_rows_spec(body@, count as nat),
{
    let mut out: Vec<(u32, i32)> = room;
    let mut index: usize = 0;
    let len: usize = body.len();
    while index < count
        invariant
            index <= count,
            len == body@.len(),
            8 + count * 8 <= len,
            out@ == ctts_rows_spec(body@, index as nat),
        decreases count - index,
    {
        out.push((get32(body, 8 + index * 8), as_signed32(get32(body, 12 + index * 8))));
        index = index + 1;
        assert(out@ =~= ctts_rows_spec(body@, index as nat));
    }
    out
}

/// `ctts`, the composition offsets (§8.6.1.3).
///
/// Version 1 signs them on paper and version 0 does not, and ffmpeg writes
/// negative values into a version 0 box anyway. Both are read signed here,
/// which is what ffmpeg's own reader does and what the `trun` path in
/// [`crate::fragment`] does with the matching field.
pub fn ctts(body: &[u8], at: u64) -> (out: Result<Vec<(u32, i32)>>)
    requires
        at + body.len() <= u64::MAX,
    ensures
        seen(out) == ctts_spec(body@, at) || (seen(out) == Err::<Seq<(u32, i32)>, Error>(
            Error::format("a composition table larger than memory"),
        ) && (ctts_spec(body@, at) matches Ok(list) && list.len() > 0)),
{
    let count: usize = entry_count(body, at, 8)?;
    let room: Vec<(u32, i32)> = reserved(count, "a composition table larger than memory")?;
    Ok(ctts_rows(body, count, room))
}

/// `stss`: the numbers of the sync samples, from one (§8.6.2).
pub open spec fn sync_numbers_spec(body: Seq<u8>, at: u64) -> Result<Seq<u32>> {
    match entry_count_spec(body, at, 4) {
        Err(err) => Err(err),
        Ok(count) => Ok(words_spec(body, 8, count as nat)),
    }
}

/// `count` 32-bit numbers from `from` on.
pub open spec fn words_spec(body: Seq<u8>, from: nat, count: nat) -> Seq<u32> {
    Seq::new(count, |i: int| be32(body, from + i * 4))
}

/// `count` 32-bit numbers from `from` on, put into `room`.
pub fn words(body: &[u8], from: usize, count: usize, room: Vec<u32>) -> (out: Vec<u32>)
    requires
        from + count * 4 <= body.len(),
        room@.len() == 0,
    ensures
        out@ == words_spec(body@, from as nat, count as nat),
{
    let mut out: Vec<u32> = room;
    let mut index: usize = 0;
    let len: usize = body.len();
    while index < count
        invariant
            index <= count,
            len == body@.len(),
            from + count * 4 <= len,
            out@ == words_spec(body@, from as nat, index as nat),
        decreases count - index,
    {
        out.push(get32(body, from + index * 4));
        index = index + 1;
        assert(out@ =~= words_spec(body@, from as nat, index as nat));
    }
    out
}

/// `stss`: the numbers of the sync samples, from one (§8.6.2).
pub fn sync_numbers(body: &[u8], at: u64) -> (out: Result<Vec<u32>>)
    requires
        at + body.len() <= u64::MAX,
    ensures
        seen(out) == sync_numbers_spec(body@, at) || (seen(out) == Err::<Seq<u32>, Error>(
            Error::format("a sync table larger than memory"),
        ) && (sync_numbers_spec(body@, at) matches Ok(list) && list.len() > 0)),
{
    let count: usize = entry_count(body, at, 4)?;
    let room: Vec<u32> = reserved(count, "a sync table larger than memory")?;
    Ok(words(body, 8, count, room))
}

/// A sample size table, either one number for all of them or a list
/// (§8.7.3).
#[derive(Clone, Debug)]
pub enum Sizes {
    Uniform { size: u32, count: usize },
    Table(Vec<u32>),
}

/// A size table by what it holds.
pub enum Widths {
    Uniform { size: u32, count: nat },
    Table(Seq<u32>),
}

impl Widths {
    /// How many samples it describes.
    pub open spec fn total(self) -> nat {
        match self {
            Widths::Uniform { count, .. } => count,
            Widths::Table(list) => list.len(),
        }
    }

    /// How large a sample is; nothing, past the end of a list.
    pub open spec fn at(self, i: int) -> u32 {
        match self {
            Widths::Uniform { size, .. } => size,
            Widths::Table(list) => if 0 <= i < list.len() {
                list[i]
            } else {
                0
            },
        }
    }

    /// How many bytes `n` samples from `from` on are.
    pub open spec fn span(self, from: nat, n: nat) -> nat
        decreases n,
    {
        if n == 0 {
            0
        } else {
            self.span(from, (n - 1) as nat) + self.at(from + n - 1) as nat
        }
    }
}

impl View for Sizes {
    type V = Widths;

    open spec fn view(&self) -> Widths {
        match *self {
            Sizes::Uniform { size, count } => Widths::Uniform { size, count: count as nat },
            Sizes::Table(list) => Widths::Table(list@),
        }
    }
}

/// A size table that was read, by what it holds.
pub open spec fn sizes_seen(sizes: Result<Sizes>) -> Result<Widths> {
    match sizes {
        Ok(sizes) => Ok(sizes@),
        Err(err) => Err(err),
    }
}

impl Sizes {
    pub fn count(&self) -> (count: usize)
        ensures
            count == self@.total(),
    {
        match self {
            Sizes::Uniform { count, .. } => *count,
            Sizes::Table(list) => list.len(),
        }
    }

    pub fn get(&self, index: usize) -> (size: u32)
        ensures
            size == self@.at(index as int),
    {
        match self {
            Sizes::Uniform { size, .. } => *size,
            Sizes::Table(list) => if index < list.len() {
                list[index]
            } else {
                0
            },
        }
    }
}

/// The error of a size table the allocator has no room for.
pub open spec fn no_room_for_sizes() -> Error {
    Error::format("a size table larger than memory")
}

pub open spec fn stsz_spec(body: Seq<u8>, at: u64, limits: Limits) -> Result<Widths> {
    if body.len() < 4 {
        Err(full_box_lacking(at, 0, body.len()))
    } else if body.len() < 8 {
        Err(lacking(at, 4, 4))
    } else if be32(body, 4) == 0 {
        match count_spec(Walk { data: body, at: 8, base: at }, 4) {
            Err(err) => Err(err),
            Ok(count) => Ok(Widths::Table(words_spec(body, 12, count as nat))),
        }
    } else if body.len() < 12 {
        Err(lacking(at, 8, 4))
    } else if be32(body, 8) > limits.max_samples {
        Err(Error::format("more samples than this reader will hold"))
    } else {
        Ok(Widths::Uniform { size: be32(body, 4), count: be32(body, 8) as nat })
    }
}

/// `stsz`, one size for all samples or one for each (§8.7.3.2).
pub fn stsz(body: &[u8], at: u64, limits: &Limits) -> (sizes: Result<Sizes>)
    requires
        at + body.len() <= u64::MAX,
    ensures
        sizes_seen(sizes) == stsz_spec(body@, at, *limits) || (sizes_seen(sizes) == Err::<
            Widths,
            Error,
        >(no_room_for_sizes()) && (stsz_spec(body@, at, *limits) matches Ok(Widths::Table(list))
            && list.len() > 0)),
{
    let mut bytes = Bytes::at(body, at);
    bytes.full_box()?;
    let uniform: u32 = bytes.u32()?;
    if uniform != 0 {
        let count: usize = bytes.u32()? as usize;
        if count > limits.max_samples {
            return Err(Error::format("more samples than this reader will hold"));
        }
        return Ok(Sizes::Uniform { size: uniform, count });
    }
    let count: usize = bytes.count(4)?;
    let room: Vec<u32> = reserved(count, "a size table larger than memory")?;
    Ok(Sizes::Table(words(body, 12, count, room)))
}

/// How many bytes the fields of an `stz2` take.
pub open spec fn packed_len(field: u8, count: nat) -> nat {
    if field == 4 {
        count / 2 + count % 2
    } else if field == 8 {
        count
    } else {
        count * 2
    }
}

/// One field of an `stz2`, the fields beginning at `from`.
pub open spec fn packed_at(body: Seq<u8>, from: int, field: u8, i: int) -> u32 {
    if field == 4 {
        if i % 2 == 0 {
            (body[from + i / 2] / 16) as u32
        } else {
            (body[from + i / 2] % 16) as u32
        }
    } else if field == 8 {
        body[from + i] as u32
    } else {
        be16(body, from + i * 2) as u32
    }
}

pub open spec fn packed_spec(body: Seq<u8>, from: int, field: u8, count: nat) -> Seq<u32> {
    Seq::new(count, |i: int| packed_at(body, from, field, i))
}

pub open spec fn stz2_spec(body: Seq<u8>, at: u64) -> Result<Widths> {
    let field = body[7];
    let count = be32(body, 8) as nat;
    let needed = packed_len(field, count);
    if body.len() < 4 {
        Err(full_box_lacking(at, 0, body.len()))
    } else if body.len() < 7 {
        Err(lacking(at, 4, 3))
    } else if body.len() < 8 {
        Err(lacking(at, 7, 1))
    } else if field != 4 && field != 8 && field != 16 {
        Err(Error::format("an stz2 field width that is not 4, 8 or 16").in_box(STZ2))
    } else if body.len() < 12 {
        Err(lacking(at, 8, 4))
    } else if needed > usize::MAX {
        Err(Error::format("a table wider than memory"))
    } else if needed > body.len() - 12 {
        Err(lacking(at, 12, needed))
    } else {
        Ok(Widths::Table(packed_spec(body, 12, field, count)))
    }
}

/// The fields of an `stz2`, put into `room`.
pub fn packed(body: &[u8], field: u8, count: usize, room: Vec<u32>) -> (out: Vec<u32>)
    requires
        field == 4 || field == 8 || field == 16,
        12 + packed_len(field, count as nat) <= body.len(),
        room@.len() == 0,
    ensures
        out@ == packed_spec(body@, 12, field, count as nat),
{
    let mut out: Vec<u32> = room;
    let mut index: usize = 0;
    let len: usize = body.len();
    while index < count
        invariant
            index <= count,
            len == body@.len(),
            field == 4 || field == 8 || field == 16,
            12 + packed_len(field, count as nat) <= len,
            out@ == packed_spec(body@, 12, field, index as nat),
        decreases count - index,
    {
        let size: u32 = if field == 4 {
            let byte: u8 = body[12 + index / 2];
            if index % 2 == 0 {
                (byte / 16) as u32
            } else {
                (byte % 16) as u32
            }
        } else if field == 8 {
            body[12 + index] as u32
        } else {
            get16(body, 12 + index * 2) as u32
        };
        out.push(size);
        index = index + 1;
        assert(out@ =~= packed_spec(body@, 12, field, index as nat));
    }
    out
}

/// `stz2`, the sizes in fields of four, eight or sixteen bits (§8.7.3.3).
pub fn stz2(body: &[u8], at: u64) -> (sizes: Result<Sizes>)
    requires
        at + body.len() <= u64::MAX,
    ensures
        sizes_seen(sizes) == stz2_spec(body@, at) || (sizes_seen(sizes) == Err::<Widths, Error>(
            no_room_for_sizes(),
        ) && (stz2_spec(body@, at) matches Ok(Widths::Table(list)) && list.len() > 0)),
{
    let mut bytes = Bytes::at(body, at);
    bytes.full_box()?;
    bytes.skip(3)?;
    let field: u8 = bytes.u8()?;
    if field != 4 && field != 8 && field != 16 {
        return Err(Error::format("an stz2 field width that is not 4, 8 or 16").in_box(STZ2));
    }
    let count: usize = bytes.u32()? as usize;
    let needed: usize = if field == 4 {
        count / 2 + count % 2
    } else if field == 8 {
        count
    } else {
        match count.checked_mul(2) {
            Some(needed) => needed,
            None => return Err(Error::format("a table wider than memory")),
        }
    };
    bytes.skip(needed)?;
    let room: Vec<u32> = reserved(count, "a size table larger than memory")?;
    Ok(Sizes::Table(packed(body, field, count, room)))
}

// ------------------------------------------------------------------ //
// The samples they add up to.
// ------------------------------------------------------------------ //
/// The tables of a `stbl` that has samples.
pub struct Tables {
    pub sizes: Sizes,
    pub chunks: Vec<u64>,
    pub runs: Vec<(u32, u32, u32)>,
    pub times: Vec<(u32, u32)>,
    pub composition: Vec<(u32, i32)>,
    pub sync: Option<Vec<u32>>,
}

/// The tables by what they hold.
pub struct Charts {
    pub sizes: Widths,
    pub chunks: Seq<u64>,
    pub runs: Seq<(u32, u32, u32)>,
    pub times: Seq<(u32, u32)>,
    pub composition: Seq<(u32, i32)>,
    pub sync: Option<Seq<u32>>,
}

impl View for Tables {
    type V = Charts;

    open spec fn view(&self) -> Charts {
        Charts {
            sizes: self.sizes@,
            chunks: self.chunks@,
            runs: self.runs@,
            times: self.times@,
            composition: self.composition@,
            sync: match self.sync {
                Some(numbers) => Some(numbers@),
                None => None,
            },
        }
    }
}

/// A number counted from one as an index counted from zero, where a zero is
/// taken as a one.
pub open spec fn from_one(number: u32) -> nat {
    if number == 0 {
        0
    } else {
        (number - 1) as nat
    }
}

/// Which chunks the run `i` of a chunk map is about: from its own first
/// chunk up to the next run's, as far as there are chunks.
pub open spec fn run_reach(runs: Seq<(u32, u32, u32)>, i: int, chunks: nat) -> (nat, nat) {
    let first = from_one(runs[i].0);
    let after = if i + 1 < runs.len() {
        from_one(runs[i + 1].0)
    } else {
        chunks
    };
    let last = if after < chunks {
        after
    } else {
        chunks
    };
    (first, if last < first {
        first
    } else {
        last
    })
}

/// Where each chunk of the run `i` begins and how many samples it holds.
pub open spec fn run_chunks(runs: Seq<(u32, u32, u32)>, i: int, chunks: Seq<u64>) -> Seq<
    (u64, u32),
> {
    let (first, last) = run_reach(runs, i, chunks.len());
    Seq::new((last - first) as nat, |k: int| (chunks[first + k], runs[i].1))
}

/// Every chunk from the run `i` on, in the order the map names them: where
/// it begins and how many samples it holds.
pub open spec fn mapped_chunks(runs: Seq<(u32, u32, u32)>, i: nat, chunks: Seq<u64>) -> Seq<
    (u64, u32),
>
    decreases runs.len() - i,
{
    if i >= runs.len() {
        Seq::empty()
    } else {
        run_chunks(runs, i as int, chunks) + mapped_chunks(runs, i + 1, chunks)
    }
}

/// Where the samples of one chunk are, the first of them being the number
/// `from`: one behind another from where the chunk begins.
pub open spec fn chunk_places(base: u64, from: nat, count: nat, sizes: Widths) -> Seq<u64> {
    Seq::new(count, |k: int| (base + sizes.span(from, k as nat)) as u64)
}

/// Where the samples from the number `from` on are, in the chunks given,
/// until there are as many as the size table has.
pub open spec fn places(list: Seq<(u64, u32)>, from: nat, sizes: Widths) -> Result<Seq<u64>>
    decreases list.len(),
{
    if list.len() == 0 || from >= sizes.total() {
        Ok(Seq::empty())
    } else {
        let (base, held) = list[0];
        let count = if held < sizes.total() - from {
            held as nat
        } else {
            (sizes.total() - from) as nat
        };
        if base + sizes.span(from, count) > u64::MAX {
            Err(Error::format("a chunk that runs past the file"))
        } else {
            joined(
                chunk_places(base, from, count, sizes),
                places(list.drop_first(), from + count, sizes),
            )
        }
    }
}

/// What a run-length table says of the sample `i`.
pub open spec fn said_of<T>(table: Seq<(u32, T)>, i: nat) -> Option<T>
    decreases table.len(),
{
    if table.len() == 0 {
        None
    } else if i < table[0].0 {
        Some(table[0].1)
    } else {
        said_of(table.drop_first(), (i - table[0].0) as nat)
    }
}

/// How long the sample `i` lasts; nothing, once the table has run out.
pub open spec fn lasting(times: Seq<(u32, u32)>, i: nat) -> u32 {
    match said_of(times, i) {
        Some(delta) => delta,
        None => 0,
    }
}

/// How long the first `n` samples last.
pub open spec fn elapsed(times: Seq<(u32, u32)>, n: nat) -> nat
    decreases n,
{
    if n == 0 {
        0
    } else {
        elapsed(times, (n - 1) as nat) + lasting(times, (n - 1) as nat) as nat
    }
}

/// How far the composition time of the sample `i` is from its decode time;
/// not at all, once the table has run out.
pub open spec fn composed(composition: Seq<(u32, i32)>, i: nat) -> i32 {
    match said_of(composition, i) {
        Some(offset) => offset,
        None => 0,
    }
}

/// Whether a decoder may start at the sample `i`: always where there is no
/// table of sync samples (§8.6.2), and otherwise where the table has it.
pub open spec fn is_sync(sync: Option<Seq<u32>>, i: nat) -> bool {
    match sync {
        None => true,
        Some(numbers) => listed(numbers, i),
    }
}

/// Whether a table of sync samples has the sample `i`.
pub open spec fn listed(numbers: Seq<u32>, i: nat) -> bool {
    exists|k: int| 0 <= k < numbers.len() && from_one(#[trigger] numbers[k]) == i
}

/// The sample `i`, its bytes being at `at`.
pub open spec fn table_sample(charts: Charts, at: u64, i: nat) -> Sample {
    let dts = clamp64(elapsed(charts.times, i) as int);
    Sample {
        index: (i % 0x1_0000_0000) as u32,
        offset: at,
        size: charts.sizes.at(i as int),
        dts,
        pts: clamp64(dts + composed(charts.composition, i)),
        duration: lasting(charts.times, i) as i64,
        keyframe: is_sync(charts.sync, i),
    }
}

/// Every sample the tables describe.
pub open spec fn assembled(charts: Charts) -> Result<Seq<Sample>> {
    match places(mapped_chunks(charts.runs, 0, charts.chunks), 0, charts.sizes) {
        Err(err) => Err(err),
        Ok(at) => if at.len() != charts.sizes.total() {
            Err(Error::format("the chunk table describes fewer samples than the size table"))
        } else {
            Ok(Seq::new(at.len(), |i: int| table_sample(charts, at[i], i as nat)))
        },
    }
}

/// A sample of which only the place is known.
pub open spec fn placed_sample(sizes: Widths, at: u64, i: nat) -> Sample {
    Sample {
        index: (i % 0x1_0000_0000) as u32,
        offset: at,
        size: sizes.at(i as int),
        dts: 0,
        pts: 0,
        duration: 0,
        keyframe: false,
    }
}

/// Samples of which only the places are known, from the number `from` on.
pub open spec fn placed_samples(sizes: Widths, at: Seq<u64>) -> Seq<Sample> {
    Seq::new(at.len(), |i: int| placed_sample(sizes, at[i], i as nat))
}

pub proof fn lemma_span_grows(sizes: Widths, from: nat, n: nat, m: nat)
    requires
        n <= m,
    ensures
        sizes.span(from, n) <= sizes.span(from, m),
    decreases m - n,
{
    if n < m {
        lemma_span_grows(sizes, from, n, (m - 1) as nat);
    }
}

/// Places the samples of one chunk behind those that were placed before.
fn place_chunk(
    samples: &mut Vec<Sample>,
    base: u64,
    held: u32,
    sizes: &Sizes,
    at: Ghost<Seq<u64>>,
) -> (done: Result<()>)
    requires
        old(samples)@ == placed_samples(sizes@, at@),
        at@.len() <= sizes@.total(),
    ensures
        settled(done),
        ({
            let from = at@.len();
            let count = if held < sizes@.total() - from {
                held as nat
            } else {
                (sizes@.total() - from) as nat
            };
            match done {
                Ok(_) => base + sizes@.span(from, count) <= u64::MAX && final(samples)@
                    == placed_samples(sizes@, at@ + chunk_places(base, from, count, sizes@)),
                Err(err) => base + sizes@.span(from, count) > u64::MAX && err == Error::format(
                    "a chunk that runs past the file",
                ),
            }
        }),
{
    let total: usize = sizes.count();
    let ghost from = at@.len();
    let ghost most = if held < sizes@.total() - from {
        held as nat
    } else {
        (sizes@.total() - from) as nat
    };
    let mut here: u64 = base;
    let mut count: u32 = 0;
    assert(samples@ =~= placed_samples(sizes@, at@ + chunk_places(base, from, 0, sizes@)));
    while count < held && samples.len() < total
        invariant
            from == at@.len(),
            total == sizes@.total(),
            from <= total,
            most == if held < total - from {
                held as nat
            } else {
                (total - from) as nat
            },
            count <= most,
            samples@.len() == from + count,
            here == base + sizes@.span(from, count as nat),
            samples@ == placed_samples(
                sizes@,
                at@ + chunk_places(base, from, count as nat, sizes@),
            ),
        decreases held - count,
    {
        let index: usize = samples.len();
        let size: u32 = sizes.get(index);
        let number: u32 = (index as u64 % 0x1_0000_0000) as u32;
        samples.push(
            Sample {
                index: number,
                offset: here,
                size,
                dts: 0,
                pts: 0,
                duration: 0,
                keyframe: false,
            },
        );
        assert(sizes@.span(from, (count + 1) as nat) == sizes@.span(from, count as nat) + size);
        here = match here.checked_add(size as u64) {
            Some(here) => here,
            None => {
                proof {
                    lemma_span_grows(sizes@, from, (count + 1) as nat, most);
                }
                return Err(Error::format("a chunk that runs past the file"));
            },
        };
        count = count + 1;
        assert(samples@ =~= placed_samples(
            sizes@,
            at@ + chunk_places(base, from, count as nat, sizes@),
        ));
    }
    Ok(())
}

/// An index counted from zero, out of a number counted from one.
fn index_of(number: u32) -> (index: usize)
    ensures
        index == from_one(number),
{
    if number == 0 {
        0
    } else {
        (number - 1) as usize
    }
}

/// Places every sample of the size table in the chunks of the chunk map.
fn place_samples(sizes: &Sizes, chunks: &[u64], runs: &[(u32, u32, u32)], room: Vec<Sample>) -> (
    out: Result<Vec<Sample>>)
    requires
        room@.len() == 0,
    ensures
        settled(out),
        match places(mapped_chunks(runs@, 0, chunks@), 0, sizes@) {
            Ok(at) => out matches Ok(out) && out@ == placed_samples(sizes@, at),
            Err(err) => seen(out) == Err::<Seq<Sample>, Error>(err),
        },
{
    let total: usize = sizes.count();
    let ghost owed = places(mapped_chunks(runs@, 0, chunks@), 0, sizes@);
    let ghost mut at: Seq<u64> = Seq::empty();
    let mut samples: Vec<Sample> = room;
    let mut index: usize = 0;
    assert(samples@ =~= placed_samples(sizes@, at));
    proof {
        if let Ok(all) = owed {
            assert(at + all =~= all);
        }
    }
    while index < runs.len() && samples.len() < total
        invariant
            index <= runs@.len(),
            total == sizes@.total(),
            at.len() <= total,
            samples@ == placed_samples(sizes@, at),
            owed == places(mapped_chunks(runs@, 0, chunks@), 0, sizes@),
            owed == joined(
                at,
                places(mapped_chunks(runs@, index as nat, chunks@), at.len(), sizes@),
            ),
        decreases runs@.len() - index,
    {
        let held: u32 = runs[index].1;
        let first: usize = index_of(runs[index].0);
        let after: usize = if index + 1 < runs.len() {
            index_of(runs[index + 1].0)
        } else {
            chunks.len()
        };
        let last: usize = if after < chunks.len() {
            after
        } else {
            chunks.len()
        };
        let ghost rest = mapped_chunks(runs@, (index + 1) as nat, chunks@);
        let ghost mine = run_chunks(runs@, index as int, chunks@);
        let mut chunk: usize = first;
        assert(mine.skip(0) =~= mine);
        while chunk < last
            invariant
                index < runs@.len(),
                total == sizes@.total(),
                at.len() <= total,
                samples@ == placed_samples(sizes@, at),
                held == runs@[index as int].1,
                mine == run_chunks(runs@, index as int, chunks@),
                first == run_reach(runs@, index as int, chunks@.len()).0,
                first < last ==> last == run_reach(runs@, index as int, chunks@.len()).1,
                first <= chunk,
                first < last ==> chunk <= last,
                first >= last ==> chunk == first && mine.len() == 0,
                last <= chunks@.len(),
                owed == places(mapped_chunks(runs@, 0, chunks@), 0, sizes@),
                owed == joined(at, places(mine.skip(chunk - first) + rest, at.len(), sizes@)),
            decreases last - chunk,
        {
            let ghost list = mine.skip(chunk - first) + rest;
            let ghost before = at;
            let ghost count = if held < total - at.len() {
                held as nat
            } else {
                (total - at.len()) as nat
            };
            assert(list[0] == (chunks@[chunk as int], held));
            assert(list.drop_first() =~= mine.skip(chunk + 1 - first) + rest);
            proof {
                if at.len() >= total {
                    assert(chunk_places(chunks@[chunk as int], at.len(), 0, sizes@)
                        =~= Seq::empty());
                    assert(at + Seq::<u64>::empty() =~= at);
                }
            }
            place_chunk(&mut samples, chunks[chunk], held, sizes, Ghost(at))?;
            proof {
                at = at + chunk_places(chunks@[chunk as int], at.len(), count, sizes@);
                if let Ok(more) = places(list.drop_first(), at.len(), sizes@) {
                    assert(before + (chunk_places(
                        chunks@[chunk as int],
                        before.len(),
                        count,
                        sizes@,
                    ) + more) =~= at + more);
                }
            }
            chunk = chunk + 1;
        }
        assert(mine.skip(chunk - first) + rest =~= rest);
        index = index + 1;
    }
    assert(at + Seq::<u64>::empty() =~= at);
    Ok(samples)
}

/// Samples with their decode times.
pub open spec fn timed(samples: Seq<Sample>, times: Seq<(u32, u32)>) -> Seq<Sample> {
    Seq::new(
        samples.len(),
        |i: int|
            Sample {
                dts: clamp64(elapsed(times, i as nat) as int),
                pts: clamp64(elapsed(times, i as nat) as int),
                duration: lasting(times, i as nat) as i64,
                ..samples[i]
            },
    )
}

/// Samples with their composition offsets on top.
pub open spec fn shifted(samples: Seq<Sample>, composition: Seq<(u32, i32)>) -> Seq<Sample> {
    Seq::new(
        samples.len(),
        |i: int|
            Sample {
                pts: clamp64(samples[i].pts + composed(composition, i as nat)),
                ..samples[i]
            },
    )
}

/// Samples with the ones a decoder may start at marked.
pub open spec fn marked(samples: Seq<Sample>, sync: Option<Seq<u32>>) -> Seq<Sample> {
    Seq::new(samples.len(), |i: int| Sample { keyframe: is_sync(sync, i as nat), ..samples[i] })
}

/// Whether a run-length table, read from `used` samples into its row `row`,
/// says of what is to come what the whole table says from `at` on.
spec fn stands_at<T>(table: Seq<(u32, T)>, at: nat, row: nat, used: nat) -> bool {
    &&& row <= table.len()
    &&& forall|k: nat|
        #![trigger said_of(table, at + k)]
        said_of(table, at + k) == said_of(table.skip(row as int), used + k)
}

proof fn lemma_stands_first<T>(table: Seq<(u32, T)>)
    ensures
        stands_at(table, 0, 0, 0),
{
    assert(table.skip(0) =~= table);
}

proof fn lemma_stands_next_row<T>(table: Seq<(u32, T)>, at: nat, row: nat, used: nat)
    requires
        stands_at(table, at, row, used),
        row < table.len(),
        used >= table[row as int].0,
    ensures
        stands_at(table, at, row + 1, (used - table[row as int].0) as nat),
{
    let rest = table.skip(row as int);
    assert(rest.drop_first() =~= table.skip(row as int + 1));
    assert forall|k: nat| #[trigger]
        said_of(table, at + k) == said_of(
            table.skip(row as int + 1),
            (used - table[row as int].0) as nat + k,
        ) by {
        assert(said_of(table, at + k) == said_of(rest, used + k));
        assert(rest[0] == table[row as int]);
    }
}

proof fn lemma_stands_next_sample<T>(table: Seq<(u32, T)>, at: nat, row: nat, used: nat)
    requires
        stands_at(table, at, row, used),
    ensures
        stands_at(table, at + 1, row, used + 1),
        said_of(table, at) == said_of(table.skip(row as int), used),
{
    assert(said_of(table, at + 0) == said_of(table.skip(row as int), used + 0));
    assert forall|k: nat| #[trigger]
        said_of(table, at + 1 + k) == said_of(table.skip(row as int), used + 1 + k) by {
        assert(at + 1 + k == at + (1 + k));
        assert(said_of(table, at + (1 + k)) == said_of(table.skip(row as int), used + (1 + k)));
    }
}

/// Gives every sample its decode time and its duration.
///
/// A `stts` that ran out leaves the rest of the samples at the last decode
/// time reached, which is what a damaged table deserves and what ffmpeg does
/// with one.
fn time_samples(samples: &mut Vec<Sample>, times: &[(u32, u32)])
    ensures
        final(samples)@ == timed(old(samples)@, times@),
{
    let mut dts: i64 = 0;
    let mut at: usize = 0;
    let mut row: usize = 0;
    let mut used: u32 = 0;
    let ghost owed = timed(samples@, times@);
    proof {
        lemma_stands_first(times@);
    }
    while at < samples.len()
        invariant
            at <= samples@.len(),
            samples@.len() == old(samples)@.len(),
            owed == timed(old(samples)@, times@),
            stands_at(times@, at as nat, row as nat, used as nat),
            dts == clamp64(elapsed(times@, at as nat) as int),
            forall|i: int| 0 <= i < at ==> #[trigger] samples@[i] == owed[i],
            forall|i: int| at <= i < samples@.len() ==> samples@[i] == old(samples)@[i],
        decreases samples@.len() - at,
    {
        while row < times.len() && used >= times[row].0
            invariant
                row <= times@.len(),
                stands_at(times@, at as nat, row as nat, used as nat),
            decreases times@.len() - row,
        {
            proof {
                lemma_stands_next_row(times@, at as nat, row as nat, used as nat);
            }
            used = used - times[row].0;
            row = row + 1;
        }
        proof {
            lemma_stands_next_sample(times@, at as nat, row as nat, used as nat);
        }
        let sample: Sample = samples[at];
        if row < times.len() {
            let delta: u32 = times[row].1;
            assert(times@.skip(row as int)[0] == times@[row as int]);
            assert(lasting(times@, at as nat) == delta);
            samples.set(at, Sample { dts, pts: dts, duration: delta as i64, ..sample });
            dts = plus(dts, delta as i64);
            used = used + 1;
        } else {
            assert(times@.skip(row as int).len() == 0);
            samples.set(at, Sample { dts, pts: dts, duration: 0, ..sample });
            proof {
                lemma_stands_ended(
                    times@,
                    (at + 1) as nat,
                    row as nat,
                    (used + 1) as nat,
                    used as nat,
                );
            }
        }
        at = at + 1;
        assert(elapsed(times@, at as nat) == elapsed(times@, (at - 1) as nat) + lasting(
            times@,
            (at - 1) as nat,
        ));
    }
    assert(samples@ =~= owed);
}

proof fn lemma_stands_ended<T>(table: Seq<(u32, T)>, at: nat, row: nat, used: nat, other: nat)
    requires
        stands_at(table, at, row, used),
        row == table.len(),
    ensures
        stands_at(table, at, row, other),
{
    assert forall|k: nat| #[trigger]
        said_of(table, at + k) == said_of(table.skip(row as int), other + k) by {
        assert(said_of(table, at + k) == said_of(table.skip(row as int), used + k));
    }
}

/// Moves every sample's presentation time by its composition offset.
fn compose_samples(samples: &mut Vec<Sample>, composition: &[(u32, i32)])
    ensures
        final(samples)@ == shifted(old(samples)@, composition@),
{
    let mut at: usize = 0;
    let mut row: usize = 0;
    let mut used: u32 = 0;
    let ghost owed = shifted(samples@, composition@);
    proof {
        lemma_stands_first(composition@);
    }
    while at < samples.len()
        invariant
            at <= samples@.len(),
            samples@.len() == old(samples)@.len(),
            owed == shifted(old(samples)@, composition@),
            stands_at(composition@, at as nat, row as nat, used as nat),
            forall|i: int| 0 <= i < at ==> #[trigger] samples@[i] == owed[i],
            forall|i: int| at <= i < samples@.len() ==> samples@[i] == old(samples)@[i],
        decreases samples@.len() - at,
    {
        while row < composition.len() && used >= composition[row].0
            invariant
                row <= composition@.len(),
                stands_at(composition@, at as nat, row as nat, used as nat),
            decreases composition@.len() - row,
        {
            proof {
                lemma_stands_next_row(composition@, at as nat, row as nat, used as nat);
            }
            used = used - composition[row].0;
            row = row + 1;
        }
        proof {
            lemma_stands_next_sample(composition@, at as nat, row as nat, used as nat);
        }
        if row < composition.len() {
            let sample: Sample = samples[at];
            let offset: i32 = composition[row].1;
            assert(composition@.skip(row as int)[0] == composition@[row as int]);
            samples.set(at, Sample { pts: plus(sample.pts, offset as i64), ..sample });
            used = used + 1;
        } else {
            assert(composition@.skip(row as int).len() == 0);
            proof {
                lemma_stands_ended(
                    composition@,
                    (at + 1) as nat,
                    row as nat,
                    (used + 1) as nat,
                    used as nat,
                );
            }
        }
        at = at + 1;
    }
    assert(samples@ =~= owed);
}

/// Marks every sample a decoder may start at.
fn mark_samples(samples: &mut Vec<Sample>, sync: &Option<Vec<u32>>)
    requires
        forall|i: int| 0 <= i < old(samples)@.len() ==> !(#[trigger] old(samples)@[i]).keyframe,
    ensures
        final(samples)@ == marked(
            old(samples)@,
            match *sync {
                Some(numbers) => Some(numbers@),
                None => None,
            },
        ),
{
    let ghost before = samples@;
    match sync {
        Some(numbers) => {
            let mut index: usize = 0;
            while index < numbers.len()
                invariant
                    index <= numbers@.len(),
                    samples@.len() == before.len(),
                    forall|i: int|
                        0 <= i < before.len() ==> #[trigger] samples@[i] == (Sample {
                            keyframe: listed(numbers@.take(index as int), i as nat),
                            ..before[i]
                        }),
                decreases numbers@.len() - index,
            {
                let number: usize = index_of(numbers[index]);
                let ghost middle = samples@;
                if number < samples.len() {
                    let sample: Sample = samples[number];
                    samples.set(number, Sample { keyframe: true, ..sample });
                }
                proof {
                    let some = numbers@.take(index as int);
                    let more = numbers@.take(index + 1);
                    assert(some.push(numbers@[index as int]) =~= more);
                    assert forall|i: nat| #[trigger] listed(more, i) == (listed(some, i) || number
                        == i) by {
                        assert(from_one(more[index as int]) == number);
                        if listed(some, i) {
                            let k = choose|k: int|
                                0 <= k < some.len() && from_one(#[trigger] some[k]) == i;
                            assert(more[k] == some[k]);
                        }
                        if listed(more, i) && number != i {
                            let k = choose|k: int|
                                0 <= k < more.len() && from_one(#[trigger] more[k]) == i;
                            assert(some[k] == more[k]);
                        }
                    }
                    assert forall|i: int| 0 <= i < before.len() implies #[trigger] samples@[i] == (
                    Sample { keyframe: listed(more, i as nat), ..before[i] }) by {
                        assert(middle[i].keyframe == listed(some, i as nat));
                    }
                }
                index = index + 1;
            }
            assert(numbers@.take(numbers@.len() as int) =~= numbers@);
            assert(samples@ =~= marked(before, Some(numbers@)));
        },
        // No stss at all means every sample is a sync sample (§8.6.2), which
        // is what an all-intra track looks like.
        None => {
            let mut index: usize = 0;
            while index < samples.len()
                invariant
                    index <= samples@.len(),
                    samples@.len() == before.len(),
                    forall|i: int|
                        0 <= i < index ==> #[trigger] samples@[i] == (Sample {
                            keyframe: true,
                            ..before[i]
                        }),
                    forall|i: int| index <= i < samples@.len() ==> samples@[i] == before[i],
                decreases samples@.len() - index,
            {
                let sample: Sample = samples[index];
                samples.set(index, Sample { keyframe: true, ..sample });
                index = index + 1;
            }
            assert(samples@ =~= marked(before, None));
        },
    }
}

/// Every sample a set of tables describes, put into `room`.
pub fn assemble(tables: &Tables, room: Vec<Sample>) -> (samples: Result<Vec<Sample>>)
    requires
        room@.len() == 0,
    ensures
        settled(samples),
        seen(samples) == assembled(tables@),
{
    let mut samples: Vec<Sample> = place_samples(
        &tables.sizes,
        tables.chunks.as_slice(),
        tables.runs.as_slice(),
        room,
    )?;
    if samples.len() != tables.sizes.count() {
        return Err(
            Error::format("the chunk table describes fewer samples than the size table"),
        );
    }
    // Decode times, then the composition offsets on top of them.

    time_samples(&mut samples, tables.times.as_slice());
    compose_samples(&mut samples, tables.composition.as_slice());
    mark_samples(&mut samples, &tables.sync);
    proof {
        if let Ok(list) = assembled(tables@) {
            assert(samples@ =~= list);
        }
    }
    Ok(samples)
}

/// The size table of a `stbl`; none at all is a table of no samples.
pub open spec fn sizes_spec(stbl: Seq<Kid>, limits: Limits) -> Result<Widths> {
    match first_of(stbl, STSZ) {
        Some(kid) => stsz_spec(kid.body, kid.at, limits),
        None => match first_of(stbl, STZ2) {
            Some(kid) => stz2_spec(kid.body, kid.at),
            None => Ok(Widths::Uniform { size: 0, count: 0 }),
        },
    }
}

/// The chunk offsets of a `stbl`.
pub open spec fn chunks_spec(stbl: Seq<Kid>) -> Result<Seq<u64>> {
    match first_of(stbl, STCO) {
        Some(kid) => offsets32_spec(kid.body, kid.at),
        None => match first_of(stbl, CO64) {
            Some(kid) => offsets64_spec(kid.body, kid.at),
            None => Err(Error::format("a track with samples but no chunk offsets")),
        },
    }
}

/// The chunk map of a `stbl`.
pub open spec fn runs_spec(stbl: Seq<Kid>) -> Result<Seq<(u32, u32, u32)>> {
    match first_of(stbl, STSC) {
        Some(kid) => stsc_spec(kid.body, kid.at),
        None => Err(Error::format("a track with samples but no stsc")),
    }
}

pub open spec fn times_spec(stbl: Seq<Kid>) -> Result<Seq<(u32, u32)>> {
    match first_of(stbl, STTS) {
        Some(kid) => pairs_spec(kid.body, kid.at),
        None => Ok(Seq::empty()),
    }
}

pub open spec fn composition_spec(stbl: Seq<Kid>) -> Result<Seq<(u32, i32)>> {
    match first_of(stbl, CTTS) {
        Some(kid) => ctts_spec(kid.body, kid.at),
        None => Ok(Seq::empty()),
    }
}

pub open spec fn sync_spec(stbl: Seq<Kid>) -> Result<Option<Seq<u32>>> {
    match first_of(stbl, STSS) {
        Some(kid) => match sync_numbers_spec(kid.body, kid.at) {
            Ok(numbers) => Ok(Some(numbers)),
            Err(err) => Err(err),
        },
        None => Ok(None),
    }
}

/// The tables of a `stbl`, the size table being known.
pub open spec fn charts_spec(stbl: Seq<Kid>, sizes: Widths) -> Result<Charts> {
    match chunks_spec(stbl) {
        Err(err) => Err(err),
        Ok(chunks) => match runs_spec(stbl) {
            Err(err) => Err(err),
            Ok(runs) => match times_spec(stbl) {
                Err(err) => Err(err),
                Ok(times) => match composition_spec(stbl) {
                    Err(err) => Err(err),
                    Ok(composition) => match sync_spec(stbl) {
                        Err(err) => Err(err),
                        Ok(sync) => Ok(Charts { sizes, chunks, runs, times, composition, sync }),
                    },
                },
            },
        },
    }
}

/// Every sample a `stbl` describes.
pub open spec fn stbl_spec(stbl: Seq<Kid>, limits: Limits) -> Result<Seq<Sample>> {
    match sizes_spec(stbl, limits) {
        Err(err) => Err(err),
        Ok(sizes) => if sizes.total() > limits.max_samples {
            Err(Error::format("more samples than this reader will hold"))
        } else if sizes.total() == 0 {
            Ok(Seq::empty())
        } else {
            match charts_spec(stbl, sizes) {
                Err(err) => Err(err),
                Ok(charts) => assembled(charts),
            }
        },
    }
}

/// Whether `err` is what the allocator's refusal of a table of a `stbl` comes
/// to, the size table aside. Room is asked for a table that was found to hold
/// its rows, and has any, once every table before it has been read.
pub open spec fn charts_no_room(stbl: Seq<Kid>, err: Error) -> bool {
    let chunks = chunks_spec(stbl);
    let runs = runs_spec(stbl);
    let times = times_spec(stbl);
    let composition = composition_spec(stbl);
    let sync = sync_spec(stbl);
    ||| {
        &&& err == Error::format("a chunk table larger than memory")
        &&& chunks matches Ok(list) && list.len() > 0
    }
    ||| {
        &&& err == Error::format("a chunk map larger than memory")
        &&& chunks is Ok
        &&& runs matches Ok(list) && list.len() > 0
    }
    ||| {
        &&& err == Error::format("a time table larger than memory")
        &&& chunks is Ok && runs is Ok
        &&& times matches Ok(list) && list.len() > 0
    }
    ||| {
        &&& err == Error::format("a composition table larger than memory")
        &&& chunks is Ok && runs is Ok && times is Ok
        &&& composition matches Ok(list) && list.len() > 0
    }
    ||| {
        &&& err == Error::format("a sync table larger than memory")
        &&& chunks is Ok && runs is Ok && times is Ok && composition is Ok
        &&& sync matches Ok(Some(list)) && list.len() > 0
    }
}

/// Whether a size table is a list, and has any rows, so that room is asked
/// for them: one size for all samples takes none.
pub open spec fn lists_sizes(sizes: Widths) -> bool {
    sizes matches Widths::Table(list) && list.len() > 0
}

/// Whether `err` is what the allocator's refusal of a `stbl` comes to: of its
/// size table, of one of the other tables of a track that has samples and no
/// more than the reader will hold, or, once every table has been read, of the
/// samples themselves.
pub open spec fn stbl_no_room(stbl: Seq<Kid>, limits: Limits, err: Error) -> bool {
    match sizes_spec(stbl, limits) {
        Err(_) => false,
        Ok(sizes) => {
            ||| err == no_room_for_sizes() && lists_sizes(sizes)
            ||| {
                &&& 0 < sizes.total() <= limits.max_samples
                &&& charts_no_room(stbl, err) || (err == Error::format(
                    "a sample table larger than memory",
                ) && charts_spec(stbl, sizes) is Ok)
            }
        },
    }
}

fn sizes_of(stbl: &[Child<'_>], limits: &Limits) -> (sizes: Result<Sizes>)
    requires
        all_fit(stbl@),
    ensures
        settled(sizes),
        sizes_seen(sizes) == sizes_spec(kids_of(stbl@), *limits) || (sizes_seen(sizes) == Err::<
            Widths,
            Error,
        >(no_room_for_sizes()) && (sizes_spec(kids_of(stbl@), *limits) matches Ok(owed)
            && lists_sizes(owed))),
{
    match child_of(stbl, &STSZ) {
        Some(item) => stsz(item.body, item.at, limits),
        None => match child_of(stbl, &STZ2) {
            Some(item) => stz2(item.body, item.at),
            None => Ok(Sizes::Uniform { size: 0, count: 0 }),
        },
    }
}

/// The tables of a `stbl` that has samples.
fn tables_of(stbl: &[Child<'_>], sizes: Sizes) -> (tables: Result<Tables>)
    requires
        all_fit(stbl@),
    ensures
        settled(tables),
        match tables {
            Ok(tables) => charts_spec(kids_of(stbl@), sizes@) == Ok::<_, Error>(tables@),
            Err(err) => charts_spec(kids_of(stbl@), sizes@) == Err::<Charts, Error>(err)
                || charts_no_room(kids_of(stbl@), err),
        },
{
    let chunks: Vec<u64> = match child_of(stbl, &STCO) {
        Some(item) => offsets32(item.body, item.at)?,
        None => match child_of(stbl, &CO64) {
            Some(item) => offsets64(item.body, item.at)?,
            None => return Err(Error::format("a track with samples but no chunk offsets")),
        },
    };
    let runs: Vec<(u32, u32, u32)> = match child_of(stbl, &STSC) {
        Some(item) => stsc(item.body, item.at)?,
        None => return Err(Error::format("a track with samples but no stsc")),
    };
    let times: Vec<(u32, u32)> = match child_of(stbl, &STTS) {
        Some(item) => pairs(item.body, item.at)?,
        None => Vec::new(),
    };
    let composition: Vec<(u32, i32)> = match child_of(stbl, &CTTS) {
        Some(item) => ctts(item.body, item.at)?,
        None => Vec::new(),
    };
    let sync: Option<Vec<u32>> = match child_of(stbl, &STSS) {
        Some(item) => Some(sync_numbers(item.body, item.at)?),
        None => None,
    };
    Ok(Tables { sizes, chunks, runs, times, composition, sync })
}

/// Every sample a `stbl` describes, in decode order (§8.5.1).
///
/// The decode time after the last of them, which is where a fragment with no
/// `tfdt` carries on from, is
/// [`Track::next_dts`](crate::track::Track::next_dts): the last sample's own
/// decode time plus its duration, which is what the `stts` deltas add up to.
///
/// A table the file does hold may be more than the allocator has room for;
/// then that table is what the error names.
pub fn samples_of_stbl(stbl: &[Child<'_>], limits: &Limits) -> (samples: Result<Vec<Sample>>)
    requires
        all_fit(stbl@),
    ensures
        settled(samples),
        seen(samples) == stbl_spec(kids_of(stbl@), *limits) || (samples matches Err(err)
            && stbl_no_room(kids_of(stbl@), *limits, err)),
{
    let sizes = sizes_of(stbl, limits)?;
    let total: usize = sizes.count();
    if total > limits.max_samples {
        return Err(Error::format("more samples than this reader will hold"));
    }
    if total == 0 {
        let none: Vec<Sample> = Vec::new();
        assert(none@ =~= Seq::empty());
        return Ok(none);
    }
    let tables = tables_of(stbl, sizes)?;
    let room: Vec<Sample> = reserved(total, "a sample table larger than memory")?;
    assemble(&tables, room)
}

// ------------------------------------------------------------------ //
// What holds of the whole.
// ------------------------------------------------------------------ //
/// The tables describe exactly as many samples as the size table counts, and
/// each is as large as the size table says.
pub proof fn law_every_sample_is_described(charts: Charts, i: int)
    ensures
        assembled(charts) matches Ok(samples) ==> samples.len() == charts.sizes.total() && (0 <= i
            < samples.len() ==> samples[i].size == charts.sizes.at(i)),
{
}

/// Decode times run from zero through the `stts` deltas: each sample is
/// decoded when the one before it has lasted, as far as the clock can say.
pub proof fn law_decode_times_add_up(charts: Charts, i: int)
    requires
        assembled(charts) is Ok,
        0 <= i < charts.sizes.total() - 1,
    ensures
        ({
            let samples = assembled(charts)->Ok_0;
            &&& samples[0].dts == 0
            &&& samples[i + 1].dts == clamp64(samples[i].dts + samples[i].duration)
        }),
{
    let times = charts.times;
    assert(elapsed(times, (i + 1) as nat) == elapsed(times, i as nat) + lasting(
        times,
        i as nat,
    ));
}

/// The decode time after the last sample is what the deltas add up to.
pub proof fn law_the_next_decode_time_is_the_sum(charts: Charts)
    ensures
        assembled(charts) matches Ok(samples) ==> next_dts_spec(samples) == clamp64(
            elapsed(charts.times, charts.sizes.total()) as int,
        ),
{
    if let Ok(samples) = assembled(charts) {
        let total = charts.sizes.total();
        if total > 0 {
            assert(elapsed(charts.times, total) == elapsed(charts.times, (total - 1) as nat)
                + lasting(charts.times, (total - 1) as nat));
        }
    }
}

/// How many samples a run-length table speaks of.
pub open spec fn counts<T>(table: Seq<(u32, T)>) -> nat
    decreases table.len(),
{
    if table.len() == 0 {
        0
    } else {
        table[0].0 as nat + counts(table.drop_first())
    }
}

/// What the deltas of an `stts` add up to: each as often as it counts.
pub open spec fn deltas(times: Seq<(u32, u32)>) -> nat
    decreases times.len(),
{
    if times.len() == 0 {
        0
    } else {
        times[0].0 as nat * times[0].1 as nat + deltas(times.drop_first())
    }
}

/// The samples of the first row of a table last its delta each.
proof fn lemma_first_row(times: Seq<(u32, u32)>, n: nat)
    requires
        times.len() > 0,
        n <= times[0].0,
    ensures
        elapsed(times, n) == n * times[0].1 as nat,
    decreases n,
{
    if n > 0 {
        let less = (n - 1) as nat;
        let delta = times[0].1 as nat;
        lemma_first_row(times, less);
        assert(n * delta == less * delta + delta) by (nonlinear_arith)
            requires
                n == less + 1,
        ;
    } else {
        assert(0 * times[0].1 as nat == 0);
    }
}

/// Past the first row, a table goes on as the rest of it.
proof fn lemma_later_rows(times: Seq<(u32, u32)>, n: nat)
    requires
        times.len() > 0,
    ensures
        elapsed(times, times[0].0 as nat + n) == times[0].0 as nat * times[0].1 as nat + elapsed(
            times.drop_first(),
            n,
        ),
    decreases n,
{
    if n > 0 {
        lemma_later_rows(times, (n - 1) as nat);
    } else {
        lemma_first_row(times, times[0].0 as nat);
    }
}

proof fn lemma_elapsed_is_deltas(times: Seq<(u32, u32)>)
    ensures
        elapsed(times, counts(times)) == deltas(times),
    decreases times.len(),
{
    if times.len() > 0 {
        lemma_elapsed_is_deltas(times.drop_first());
        lemma_later_rows(times, counts(times.drop_first()));
    }
}

/// A table that has run out says nothing.
proof fn lemma_run_out<T>(table: Seq<(u32, T)>, i: nat)
    requires
        counts(table) <= i,
    ensures
        said_of(table, i) is None,
    decreases table.len(),
{
    if table.len() > 0 {
        lemma_run_out(table.drop_first(), (i - table[0].0) as nat);
    }
}

/// Samples past the end of the table last no time.
proof fn lemma_elapsed_stands(times: Seq<(u32, u32)>, n: nat)
    requires
        counts(times) <= n,
    ensures
        elapsed(times, n) == elapsed(times, counts(times)),
    decreases n,
{
    if counts(times) < n {
        lemma_run_out(times, (n - 1) as nat);
        lemma_elapsed_stands(times, (n - 1) as nat);
    }
}

/// No sample lasts longer than 32 bits can say.
proof fn lemma_deltas_bounded(times: Seq<(u32, u32)>)
    ensures
        deltas(times) <= counts(times) * u32::MAX,
    decreases times.len(),
{
    if times.len() > 0 {
        let rest = times.drop_first();
        let (count, delta) = (times[0].0 as nat, times[0].1 as nat);
        lemma_deltas_bounded(rest);
        assert(count * delta <= count * u32::MAX) by (nonlinear_arith)
            requires
                delta <= u32::MAX,
        ;
        assert((count + counts(rest)) * u32::MAX == count * u32::MAX + counts(rest) * u32::MAX)
            by (nonlinear_arith);
    }
}

/// No samples last no time.
proof fn lemma_no_counts(times: Seq<(u32, u32)>)
    requires
        counts(times) == 0,
    ensures
        deltas(times) == 0,
    decreases times.len(),
{
    if times.len() > 0 {
        lemma_no_counts(times.drop_first());
        assert(0 * times[0].1 as nat == 0);
    }
}

/// The decode time after the last sample of a track whose `stts` speaks of
/// no more samples than the track has is the sum of its deltas, each as often
/// as it counts, as far as the clock can say, which is all the way for as
/// many samples as 31 bits can count; and zero for a track with no samples.
pub proof fn law_the_next_decode_time_is_the_sum_of_the_deltas(
    stbl: Seq<Kid>,
    limits: Limits,
    times: Seq<(u32, u32)>,
)
    requires
        times_spec(stbl) == Ok::<_, Error>(times),
    ensures
        stbl_spec(stbl, limits) matches Ok(samples) ==> {
            &&& counts(times) <= samples.len() ==> {
                &&& next_dts_spec(samples) == clamp64(deltas(times) as int)
                &&& limits.max_samples <= i32::MAX ==> next_dts_spec(samples) == deltas(times)
            }
            &&& samples.len() == 0 ==> next_dts_spec(samples) == 0
        },
{
    if let Ok(samples) = stbl_spec(stbl, limits) {
        let sizes = sizes_spec(stbl, limits)->Ok_0;
        if sizes.total() > 0 {
            let charts = charts_spec(stbl, sizes)->Ok_0;
            law_the_next_decode_time_is_the_sum(charts);
            lemma_elapsed_is_deltas(times);
            if counts(times) <= samples.len() {
                lemma_elapsed_stands(times, samples.len());
                lemma_deltas_bounded(times);
                assert(counts(times) * u32::MAX <= i32::MAX * u32::MAX || counts(times) > i32::MAX)
                    by (nonlinear_arith);
            }
        } else if counts(times) == 0 {
            lemma_no_counts(times);
        }
    }
}

/// Without a table of sync samples every sample is one (§8.6.2).
pub proof fn law_no_sync_table_means_every_sample(charts: Charts, i: int)
    requires
        charts.sync is None,
    ensures
        assembled(charts) matches Ok(samples) ==> (0 <= i < samples.len() ==> samples[i].keyframe),
{
}

/// Samples that share a chunk lie end to end: within a chunk each begins
/// where the one before it ended.
pub proof fn law_a_chunk_is_contiguous(base: u64, from: nat, count: nat, sizes: Widths, k: int)
    requires
        0 <= k < count - 1,
        base + sizes.span(from, count) <= u64::MAX,
    ensures
        ({
            let at = chunk_places(base, from, count, sizes);
            &&& at[0] == base
            &&& at[k + 1] == at[k] + sizes.at(from + k)
        }),
{
    lemma_span_grows(sizes, from, (k + 1) as nat, count);
    assert(sizes.span(from, (k + 1) as nat) == sizes.span(from, k as nat) + sizes.at(from + k));
}

/// Composition offsets are read as signed whatever the version of the table:
/// the version byte changes nothing.
pub proof fn law_the_version_of_a_ctts_does_not_matter(one: Seq<u8>, other: Seq<u8>, at: u64)
    requires
        one.len() == other.len(),
        forall|i: int| 1 <= i < one.len() ==> one[i] == other[i],
    ensures
        ctts_spec(one, at) == ctts_spec(other, at),
{
    if one.len() >= 8 {
        lemma_same32(one, 4, other, 4);
    }
    if let Ok(count) = entry_count_spec(one, at, 8) {
        assert forall|i: int| 0 <= i < count implies ctts_rows_spec(one, count as nat)[i]
            == ctts_rows_spec(other, count as nat)[i] by {
            assert(table_len(count as nat, 8) == count as nat * 8);
            assert(16 + i * 8 <= one.len());
            lemma_same32(one, 8 + i * 8, other, 8 + i * 8);
            lemma_same32(one, 12 + i * 8, other, 12 + i * 8);
        }
        assert(ctts_rows_spec(one, count as nat) =~= ctts_rows_spec(other, count as nat));
    }
}

/// Nothing is allocated from a number a table made up: it has no more
/// entries than its box has bytes.
pub proof fn law_a_table_is_no_longer_than_its_box(body: Seq<u8>, at: u64, entry_size: nat)
    ensures
        entry_count_spec(body, at, entry_size) matches Ok(count) ==> count <= body.len(),
{
    if let Ok(count) = entry_count_spec(body, at, entry_size) {
        let each = if entry_size == 0 {
            1
        } else {
            entry_size
        };
        assert(count <= count * each) by (nonlinear_arith)
            requires
                each >= 1,
        ;
    }
}

/// A track has no more samples than the reader will hold.
pub proof fn law_samples_are_bounded(stbl: Seq<Kid>, limits: Limits)
    ensures
        stbl_spec(stbl, limits) matches Ok(samples) ==> samples.len() <= limits.max_samples,
{
}

} // verus!
