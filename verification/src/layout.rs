//! What the bytes of each box say.
//!
//! Nothing here runs. Each law lays a box out field by field, with every
//! number in the width and at the place the format gives it, and states that
//! the reader gives back exactly those fields, whatever they are.

use vstd::prelude::*;

use crate::be::{
    be16, be24, be32, be64, enc16, enc32, enc64, group_enc_len, lemma_enc16, lemma_enc32,
    lemma_enc64, lemma_same16, lemma_same32, lemma_same64,
};
use crate::boxes::{
    children_spec, first_of, full_body, law_full_box_reads_back, parse_header_spec, Kid,
};
use crate::codes::{MFHD, TFHD, TRAF, TRUN};
use crate::error::{Error, Result};
use crate::fragment::{
    moof_spec, row_len, rows_at, run_after, run_samples, runs_after, set_in, start_spec, tfdt_spec,
    tfhd_spec, traf_spec, trafs_after, trun_entry, trun_spec, Entry, Reach, Tfhd, NON_SYNC,
};
use crate::limits::{Limits, MAX_CHILDREN};
use crate::scanner::{
    flags_among, moof_summary_spec, run_first_flags, sequence_spec, summary_after, traf_flags_spec,
    MoofSummary,
};
use crate::tables::{
    ctts_spec, offsets32_spec, offsets64_spec, pairs_spec, stsc_spec, stsz_spec, stz2_spec,
    sync_numbers_spec, Widths,
};
use crate::track::{Sample, TrexDefaults};

verus! {

// ------------------------------------------------------------------ //
// Numbers among bytes.
// ------------------------------------------------------------------ //
/// Whether `part` stands in `data` at `at`.
pub open spec fn stands(data: Seq<u8>, at: int, part: Seq<u8>) -> bool {
    0 <= at && at + part.len() <= data.len() && data.subrange(at, at + part.len()) == part
}

/// A part of a part stands where the two places add up to.
pub proof fn lemma_stands_in(data: Seq<u8>, at: int, part: Seq<u8>, by: int, inner: Seq<u8>)
    requires
        stands(data, at, part),
        stands(part, by, inner),
    ensures
        stands(data, at + by, inner),
{
    assert(data.subrange(at + by, at + by + inner.len()) =~= inner) by {
        assert forall|k: int| 0 <= k < inner.len() implies data[at + by + k]
            == #[trigger] inner[k] by {
            assert(inner[k] == part.subrange(by, by + inner.len())[k]);
            assert(part[by + k] == data.subrange(at, at + part.len())[by + k]);
        }
    }
}

/// What stands between two others stands where the first ends.
pub proof fn lemma_stands_between(a: Seq<u8>, part: Seq<u8>, b: Seq<u8>)
    ensures
        stands(a + part + b, a.len() as int, part),
{
    assert((a + part + b).subrange(a.len() as int, (a.len() + part.len()) as int) =~= part);
}

pub proof fn lemma_half_stands(data: Seq<u8>, at: int, v: u16)
    requires
        stands(data, at, enc16(v)),
    ensures
        be16(data, at) == v,
{
    broadcast use group_enc_len;

    lemma_enc16(v);
    assert forall|k: int| 0 <= k < 2 implies data[at + k] == #[trigger] enc16(v)[0 + k] by {
        assert(data.subrange(at, at + 2)[k] == data[at + k]);
    }
    lemma_same16(data, at, enc16(v), 0);
}

pub proof fn lemma_word_stands(data: Seq<u8>, at: int, v: u32)
    requires
        stands(data, at, enc32(v)),
    ensures
        be32(data, at) == v,
{
    broadcast use group_enc_len;

    lemma_enc32(v);
    assert forall|k: int| 0 <= k < 4 implies data[at + k] == #[trigger] enc32(v)[0 + k] by {
        assert(data.subrange(at, at + 4)[k] == data[at + k]);
    }
    lemma_same32(data, at, enc32(v), 0);
}

pub proof fn lemma_long_stands(data: Seq<u8>, at: int, v: u64)
    requires
        stands(data, at, enc64(v)),
    ensures
        be64(data, at) == v,
{
    broadcast use group_enc_len;

    lemma_enc64(v);
    assert forall|k: int| 0 <= k < 8 implies data[at + k] == #[trigger] enc64(v)[0 + k] by {
        assert(data.subrange(at, at + 8)[k] == data[at + k]);
    }
    lemma_same64(data, at, enc64(v), 0);
}

/// A signed number as the 32 bits that stand for it.
pub open spec fn twos32(v: i32) -> u32 {
    if v < 0 {
        (v + 0x1_0000_0000) as u32
    } else {
        v as u32
    }
}

// ------------------------------------------------------------------ //
// Rows.
// ------------------------------------------------------------------ //
/// Rows one behind the other, each written by `write`.
pub open spec fn stacked<T>(rows: Seq<T>, write: spec_fn(T) -> Seq<u8>) -> Seq<u8>
    decreases rows.len(),
{
    if rows.len() == 0 {
        Seq::empty()
    } else {
        stacked(rows.drop_last(), write) + write(rows.last())
    }
}

/// Rows of one width each stand at a multiple of it.
pub proof fn lemma_stacked<T>(rows: Seq<T>, write: spec_fn(T) -> Seq<u8>, width: nat)
    requires
        forall|row: T| (#[trigger] write(row)).len() == width,
    ensures
        stacked(rows, write).len() == rows.len() * width,
        forall|i: int|
            0 <= i < rows.len() ==> stands(
                stacked(rows, write),
                i * width,
                #[trigger] write(rows[i]),
            ),
    decreases rows.len(),
{
    if rows.len() > 0 {
        let front = rows.drop_last();
        let all = stacked(rows, write);
        lemma_stacked(front, write, width);
        let n = front.len() as int;
        assert((n + 1) * width == n * width + width) by (nonlinear_arith);
        assert forall|i: int| 0 <= i < rows.len() implies stands(
            all,
            i * width,
            #[trigger] write(rows[i]),
        ) by {
            if i < n {
                assert(front[i] == rows[i]);
                assert(write(front[i]) == write(rows[i]));
                assert(stands(stacked(front, write), i * width, write(front[i])));
                lemma_stands_between(Seq::empty(), stacked(front, write), write(rows.last()));
                assert(Seq::<u8>::empty() + stacked(front, write) + write(rows.last()) =~= all);
                lemma_stands_in(all, 0, stacked(front, write), i * width, write(rows[i]));
            } else {
                lemma_stands_between(stacked(front, write), write(rows.last()), Seq::empty());
                assert(stacked(front, write) + write(rows.last()) + Seq::<u8>::empty() =~= all);
            }
        }
    }
}

/// A table: a `FullBox` opening, how many rows there are, the rows, and
/// whatever else the box goes on with.
pub open spec fn table_body(
    version: u8,
    flags: u32,
    count: nat,
    rows: Seq<u8>,
    tail: Seq<u8>,
) -> Seq<u8> {
    full_body(version, flags, enc32(count as u32) + rows + tail)
}

proof fn lemma_table<T>(
    version: u8,
    flags: u32,
    rows: Seq<T>,
    write: spec_fn(T) -> Seq<u8>,
    width: nat,
    tail: Seq<u8>,
)
    requires
        forall|row: T| (#[trigger] write(row)).len() == width,
        rows.len() <= u32::MAX,
    ensures
        ({
            let body = table_body(version, flags, rows.len(), stacked(rows, write), tail);
            &&& body.len() == 8 + rows.len() * width + tail.len()
            &&& be32(body, 4) == rows.len()
            &&& forall|i: int|
                0 <= i < rows.len() ==> stands(body, 8 + i * width, #[trigger] write(rows[i]))
        }),
{
    broadcast use group_enc_len;

    let body = table_body(version, flags, rows.len(), stacked(rows, write), tail);
    let count = enc32(rows.len() as u32);
    let laid = stacked(rows, write);
    let opening = full_body(version, flags, Seq::empty());
    law_full_box_reads_back(version, flags, Seq::empty());
    lemma_stacked(rows, write, width);
    assert(body =~= opening + count + (laid + tail));
    lemma_stands_between(opening, count, laid + tail);
    lemma_word_stands(body, 4, rows.len() as u32);
    assert(body =~= (opening + count) + laid + tail);
    lemma_stands_between(opening + count, laid, tail);
    assert forall|i: int| 0 <= i < rows.len() implies stands(
        body,
        8 + i * width,
        #[trigger] write(rows[i]),
    ) by {
        lemma_stands_in(body, 8, laid, i * width, write(rows[i]));
    }
}

// ------------------------------------------------------------------ //
// The tables of a track.
// ------------------------------------------------------------------ //
/// An `stco` of any list of 32-bit chunk offsets reads as that list.
pub proof fn law_an_stco_reads_back(
    version: u8,
    flags: u32,
    list: Seq<u32>,
    tail: Seq<u8>,
    at: u64,
)
    requires
        list.len() <= u32::MAX,
        8 + list.len() * 4 + tail.len() <= usize::MAX,
    ensures
        offsets32_spec(
            table_body(version, flags, list.len(), stacked(list, |v: u32| enc32(v)), tail),
            at,
        ) == Ok::<_, Error>(list.map_values(|v: u32| v as u64)),
{
    broadcast use group_enc_len;

    let write = |v: u32| enc32(v);
    let body = table_body(version, flags, list.len(), stacked(list, write), tail);
    lemma_table(version, flags, list, write, 4, tail);
    let read = offsets32_spec(body, at);
    assert(read is Ok);
    assert forall|i: int| 0 <= i < list.len() implies read->Ok_0[i] == list[i] as u64 by {
        assert(stands(body, 8 + i * 4, write(list[i])));
        lemma_word_stands(body, 8 + i * 4, list[i]);
    }
    assert(read->Ok_0 =~= list.map_values(|v: u32| v as u64));
}

/// A `co64` of any list of 64-bit chunk offsets reads as that list.
pub proof fn law_a_co64_reads_back(
    version: u8,
    flags: u32,
    list: Seq<u64>,
    tail: Seq<u8>,
    at: u64,
)
    requires
        list.len() <= u32::MAX,
        8 + list.len() * 8 + tail.len() <= usize::MAX,
    ensures
        offsets64_spec(
            table_body(version, flags, list.len(), stacked(list, |v: u64| enc64(v)), tail),
            at,
        ) == Ok::<_, Error>(list),
{
    broadcast use group_enc_len;

    let write = |v: u64| enc64(v);
    let body = table_body(version, flags, list.len(), stacked(list, write), tail);
    lemma_table(version, flags, list, write, 8, tail);
    let read = offsets64_spec(body, at);
    assert(read is Ok);
    assert forall|i: int| 0 <= i < list.len() implies read->Ok_0[i] == list[i] by {
        assert(stands(body, 8 + i * 8, write(list[i])));
        lemma_long_stands(body, 8 + i * 8, list[i]);
    }
    assert(read->Ok_0 =~= list);
}

/// An `stss` of any list of sample numbers reads as that list.
pub proof fn law_an_stss_reads_back(
    version: u8,
    flags: u32,
    list: Seq<u32>,
    tail: Seq<u8>,
    at: u64,
)
    requires
        list.len() <= u32::MAX,
        8 + list.len() * 4 + tail.len() <= usize::MAX,
    ensures
        sync_numbers_spec(
            table_body(version, flags, list.len(), stacked(list, |v: u32| enc32(v)), tail),
            at,
        ) == Ok::<_, Error>(list),
{
    broadcast use group_enc_len;

    let write = |v: u32| enc32(v);
    let body = table_body(version, flags, list.len(), stacked(list, write), tail);
    lemma_table(version, flags, list, write, 4, tail);
    let read = sync_numbers_spec(body, at);
    assert(read is Ok);
    assert forall|i: int| 0 <= i < list.len() implies read->Ok_0[i] == list[i] by {
        assert(stands(body, 8 + i * 4, write(list[i])));
        lemma_word_stands(body, 8 + i * 4, list[i]);
    }
    assert(read->Ok_0 =~= list);
}

/// Two words, one behind the other, are each where they were written.
proof fn lemma_two_words(data: Seq<u8>, at: int, one: u32, two: u32)
    requires
        stands(data, at, enc32(one) + enc32(two)),
    ensures
        be32(data, at) == one,
        be32(data, at + 4) == two,
{
    broadcast use group_enc_len;

    let both = enc32(one) + enc32(two);
    lemma_stands_between(Seq::empty(), enc32(one), enc32(two));
    assert(Seq::<u8>::empty() + enc32(one) + enc32(two) =~= both);
    lemma_stands_in(data, at, both, 0, enc32(one));
    lemma_word_stands(data, at, one);
    lemma_stands_between(enc32(one), enc32(two), Seq::empty());
    assert(both + Seq::<u8>::empty() =~= both);
    lemma_stands_in(data, at, both, 4, enc32(two));
    lemma_word_stands(data, at + 4, two);
}

/// An `stsc` of any list of runs reads as that list: the first chunk, the
/// samples in each chunk, the sample description.
pub proof fn law_an_stsc_reads_back(
    version: u8,
    flags: u32,
    list: Seq<(u32, u32, u32)>,
    tail: Seq<u8>,
    at: u64,
)
    requires
        list.len() <= u32::MAX,
        8 + list.len() * 12 + tail.len() <= usize::MAX,
    ensures
        stsc_spec(
            table_body(
                version,
                flags,
                list.len(),
                stacked(list, |row: (u32, u32, u32)| enc32(row.0) + enc32(row.1) + enc32(row.2)),
                tail,
            ),
            at,
        ) == Ok::<_, Error>(list),
{
    broadcast use group_enc_len;

    let write = |row: (u32, u32, u32)| enc32(row.0) + enc32(row.1) + enc32(row.2);
    let body = table_body(version, flags, list.len(), stacked(list, write), tail);
    lemma_table(version, flags, list, write, 12, tail);
    let read = stsc_spec(body, at);
    assert(read is Ok);
    assert forall|i: int| 0 <= i < list.len() implies read->Ok_0[i] == list[i] by {
        let row = list[i];
        let pos = 8 + i * 12;
        assert(stands(body, pos, write(list[i])));
        let front = enc32(row.0) + enc32(row.1);
        lemma_stands_between(Seq::empty(), front, enc32(row.2));
        assert(Seq::<u8>::empty() + front + enc32(row.2) =~= write(row));
        lemma_stands_in(body, pos, write(row), 0, front);
        lemma_two_words(body, pos, row.0, row.1);
        lemma_stands_between(front, enc32(row.2), Seq::empty());
        assert(front + enc32(row.2) + Seq::<u8>::empty() =~= write(row));
        lemma_stands_in(body, pos, write(row), 8, enc32(row.2));
        lemma_word_stands(body, pos as int + 8, row.2);
    }
    assert(read->Ok_0 =~= list);
}

/// An `stts` of any list of sample counts and deltas reads as that list.
pub proof fn law_an_stts_reads_back(
    version: u8,
    flags: u32,
    list: Seq<(u32, u32)>,
    tail: Seq<u8>,
    at: u64,
)
    requires
        list.len() <= u32::MAX,
        8 + list.len() * 8 + tail.len() <= usize::MAX,
    ensures
        pairs_spec(
            table_body(
                version,
                flags,
                list.len(),
                stacked(list, |row: (u32, u32)| enc32(row.0) + enc32(row.1)),
                tail,
            ),
            at,
        ) == Ok::<_, Error>(list),
{
    broadcast use group_enc_len;

    let write = |row: (u32, u32)| enc32(row.0) + enc32(row.1);
    let body = table_body(version, flags, list.len(), stacked(list, write), tail);
    lemma_table(version, flags, list, write, 8, tail);
    let read = pairs_spec(body, at);
    assert(read is Ok);
    assert forall|i: int| 0 <= i < list.len() implies read->Ok_0[i] == list[i] by {
        assert(stands(body, 8 + i * 8, write(list[i])));
        lemma_two_words(body, 8 + i * 8, list[i].0, list[i].1);
    }
    assert(read->Ok_0 =~= list);
}

/// A `ctts` of any list of sample counts and offsets, those before zero in
/// two's complement, reads as that list in every version.
pub proof fn law_a_ctts_reads_back(
    version: u8,
    flags: u32,
    list: Seq<(u32, i32)>,
    tail: Seq<u8>,
    at: u64,
)
    requires
        list.len() <= u32::MAX,
        8 + list.len() * 8 + tail.len() <= usize::MAX,
    ensures
        ctts_spec(
            table_body(
                version,
                flags,
                list.len(),
                stacked(list, |row: (u32, i32)| enc32(row.0) + enc32(twos32(row.1))),
                tail,
            ),
            at,
        ) == Ok::<_, Error>(list),
{
    broadcast use group_enc_len;

    let write = |row: (u32, i32)| enc32(row.0) + enc32(twos32(row.1));
    let body = table_body(version, flags, list.len(), stacked(list, write), tail);
    lemma_table(version, flags, list, write, 8, tail);
    let read = ctts_spec(body, at);
    assert(read is Ok);
    assert forall|i: int| 0 <= i < list.len() implies read->Ok_0[i] == list[i] by {
        assert(stands(body, 8 + i * 8, write(list[i])));
        lemma_two_words(body, 8 + i * 8, list[i].0, twos32(list[i].1));
    }
    assert(read->Ok_0 =~= list);
}

/// An `stsz` with a size in its head gives every sample that size, and one
/// with none there reads as the list of sizes that follows.
pub proof fn law_an_stsz_reads_back(
    version: u8,
    flags: u32,
    size: u32,
    count: u32,
    list: Seq<u32>,
    tail: Seq<u8>,
    at: u64,
    limits: Limits,
)
    requires
        list.len() <= u32::MAX,
        12 + list.len() * 4 + tail.len() <= usize::MAX,
    ensures
        size > 0 && count <= limits.max_samples ==> stsz_spec(
            full_body(version, flags, enc32(size) + enc32(count) + tail),
            at,
            limits,
        ) == Ok::<_, Error>(Widths::Uniform { size, count: count as nat }),
        size > 0 && count > limits.max_samples ==> stsz_spec(
            full_body(version, flags, enc32(size) + enc32(count) + tail),
            at,
            limits,
        ) is Err,
        stsz_spec(
            full_body(
                version,
                flags,
                enc32(0) + enc32(list.len() as u32) + stacked(list, |v: u32| enc32(v)) + tail,
            ),
            at,
            limits,
        ) == Ok::<_, Error>(Widths::Table(list)),
{
    broadcast use group_enc_len;

    let opening = full_body(version, flags, Seq::empty());
    law_full_box_reads_back(version, flags, Seq::empty());
    let one = full_body(version, flags, enc32(size) + enc32(count) + tail);
    let both = enc32(size) + enc32(count);
    assert(one =~= opening + both + tail);
    lemma_stands_between(opening, both, tail);
    lemma_two_words(one, 4, size, count);

    let write = |v: u32| enc32(v);
    let n = list.len() as u32;
    let rows = stacked(list, write);
    lemma_stacked(list, write, 4);
    let many = full_body(version, flags, enc32(0) + enc32(n) + rows + tail);
    let head = enc32(0) + enc32(n);
    assert(many =~= opening + head + (rows + tail));
    lemma_stands_between(opening, head, rows + tail);
    lemma_two_words(many, 4, 0, n);
    assert(many =~= (opening + head) + rows + tail);
    lemma_stands_between(opening + head, rows, tail);
    let read = stsz_spec(many, at, limits);
    assert(read matches Ok(Widths::Table(_)));
    let table = read->Ok_0->Table_0;
    assert forall|i: int| 0 <= i < list.len() implies table[i] == list[i] by {
        assert(stands(rows, i * 4, write(list[i])));
        lemma_stands_in(many, 12, rows, i * 4, write(list[i]));
        lemma_word_stands(many, 12 + i * 4, list[i]);
    }
    assert(table =~= list);
}

/// What opens an `stz2`: three bytes of nothing, the width of a field in
/// bits, how many fields there are.
pub open spec fn stz2_head(reserved: Seq<u8>, field: u8, count: nat) -> Seq<u8> {
    reserved + seq![field] + enc32(count as u32)
}

/// Fields of four bits, two in a byte, the first of them in the upper half.
pub open spec fn nibbles(list: Seq<u32>) -> Seq<u8> {
    Seq::new(
        (list.len() + 1) / 2,
        |j: int|
            (16 * list[2 * j] + if 2 * j + 1 < list.len() {
                list[2 * j + 1] as int
            } else {
                0
            }) as u8,
    )
}

/// An `stz2` of any list of sizes that its fields can hold, of four, eight or
/// sixteen bits, reads as that list.
pub proof fn law_an_stz2_reads_back(
    version: u8,
    flags: u32,
    reserved: Seq<u8>,
    field: u8,
    list: Seq<u32>,
    tail: Seq<u8>,
    at: u64,
)
    requires
        reserved.len() == 3,
        list.len() <= u32::MAX,
        12 + list.len() * 2 + tail.len() <= usize::MAX,
        field == 4 || field == 8 || field == 16,
        field == 4 ==> forall|i: int| 0 <= i < list.len() ==> #[trigger] list[i] < 0x10,
        field == 8 ==> forall|i: int| 0 <= i < list.len() ==> #[trigger] list[i] < 0x100,
        field == 16 ==> forall|i: int| 0 <= i < list.len() ==> #[trigger] list[i] < 0x1_0000,
    ensures
        stz2_spec(
            full_body(
                version,
                flags,
                stz2_head(reserved, field, list.len()) + (if field == 4 {
                    nibbles(list)
                } else if field == 8 {
                    stacked(list, |v: u32| seq![v as u8])
                } else {
                    stacked(list, |v: u32| enc16(v as u16))
                }) + tail,
            ),
            at,
        ) == Ok::<_, Error>(Widths::Table(list)),
{
    broadcast use group_enc_len;

    let byte = |v: u32| seq![v as u8];
    let half = |v: u32| enc16(v as u16);
    let head = stz2_head(reserved, field, list.len());
    let rows = if field == 4 {
        nibbles(list)
    } else if field == 8 {
        stacked(list, byte)
    } else {
        stacked(list, half)
    };
    lemma_stacked(list, byte, 1);
    lemma_stacked(list, half, 2);
    let opening = full_body(version, flags, Seq::empty());
    law_full_box_reads_back(version, flags, Seq::empty());
    let body = full_body(version, flags, head + rows + tail);
    let n = enc32(list.len() as u32);
    assert(body =~= (opening + reserved + seq![field]) + n + (rows + tail));
    assert(body[7] == field);
    lemma_stands_between(opening + reserved + seq![field], n, rows + tail);
    lemma_word_stands(body, 8, list.len() as u32);
    assert(body =~= (opening + head) + rows + tail);
    lemma_stands_between(opening + head, rows, tail);
    let read = stz2_spec(body, at);
    assert(read matches Ok(Widths::Table(_)));
    let table = read->Ok_0->Table_0;
    assert forall|i: int| 0 <= i < list.len() implies table[i] == list[i] by {
        if field == 4 {
            assert(body[12 + i / 2] == rows[i / 2]) by {
                assert(body.subrange(12, 12 + rows.len() as int)[i / 2] == rows[i / 2]);
            }
            let j = i / 2;
            assert(list[2 * j] < 0x10);
            if 2 * j + 1 < list.len() {
                assert(list[2 * j + 1] < 0x10);
            }
        } else if field == 8 {
            assert(stands(rows, i * 1, byte(list[i])));
            lemma_stands_in(body, 12, rows, i * 1, byte(list[i]));
            assert(body.subrange(12 + i, 12 + i + 1)[0] == byte(list[i])[0]);
        } else {
            assert(stands(rows, i * 2, half(list[i])));
            lemma_stands_in(body, 12, rows, i * 2, half(list[i]));
            lemma_half_stands(body, 12 + i * 2, list[i] as u16);
        }
    }
    assert(table =~= list);
}

/// A table that says it has more rows than its box has bytes for is refused,
/// whatever the rows are.
pub proof fn law_a_table_without_its_rows_is_refused(
    version: u8,
    flags: u32,
    count: u32,
    rest: Seq<u8>,
    at: u64,
)
    ensures
        ({
            let body = full_body(version, flags, enc32(count) + rest);
            &&& rest.len() < count * 4 ==> offsets32_spec(body, at) is Err
            &&& rest.len() < count * 4 ==> sync_numbers_spec(body, at) is Err
            &&& rest.len() < count * 8 ==> offsets64_spec(body, at) is Err
            &&& rest.len() < count * 8 ==> pairs_spec(body, at) is Err
            &&& rest.len() < count * 8 ==> ctts_spec(body, at) is Err
            &&& rest.len() < count * 12 ==> stsc_spec(body, at) is Err
        }),
{
    broadcast use group_enc_len;

    let opening = full_body(version, flags, Seq::empty());
    law_full_box_reads_back(version, flags, Seq::empty());
    let body = full_body(version, flags, enc32(count) + rest);
    assert(body =~= opening + enc32(count) + rest);
    lemma_stands_between(opening, enc32(count), rest);
    lemma_word_stands(body, 4, count);
}

// ------------------------------------------------------------------ //
// The boxes of a movie fragment.
// ------------------------------------------------------------------ //
/// A field that is there when a flag says so.
pub open spec fn part(flags: u32, bit: u32, field: Seq<u8>) -> Seq<u8> {
    if flags & bit != 0 {
        field
    } else {
        Seq::empty()
    }
}

/// A `tfhd` with the fields its flags ask for, in the order they stand in.
pub open spec fn tfhd_body(
    version: u8,
    flags: u32,
    track_id: u32,
    base: u64,
    index: u32,
    duration: u32,
    size: u32,
    sample_flags: u32,
    tail: Seq<u8>,
) -> Seq<u8> {
    full_body(
        version,
        flags,
        enc32(track_id) + part(flags, 0x01, enc64(base)) + part(flags, 0x02, enc32(index)) + part(
            flags,
            0x08,
            enc32(duration),
        ) + part(flags, 0x10, enc32(size)) + part(flags, 0x20, enc32(sample_flags)) + tail,
    )
}

/// A `tfhd` of any flags reads as the fields it was written with, each there
/// exactly when its flag is set.
#[verifier::rlimit(40)]
pub proof fn law_a_tfhd_reads_back(
    version: u8,
    flags: u32,
    track_id: u32,
    base: u64,
    index: u32,
    duration: u32,
    size: u32,
    sample_flags: u32,
    tail: Seq<u8>,
    at: u64,
)
    requires
        flags < 0x100_0000,
    ensures
        tfhd_spec(
            tfhd_body(
                version,
                flags,
                track_id,
                base,
                index,
                duration,
                size,
                sample_flags,
                tail,
            ),
            at,
        ) == Ok::<_, Error>(
            Tfhd {
                track_id,
                base_data_offset: if flags & 0x01 != 0 {
                    Some(base)
                } else {
                    None
                },
                base_is_moof: flags & 0x02_0000 != 0,
                default_duration: if flags & 0x08 != 0 {
                    Some(duration)
                } else {
                    None
                },
                default_size: if flags & 0x10 != 0 {
                    Some(size)
                } else {
                    None
                },
                default_flags: if flags & 0x20 != 0 {
                    Some(sample_flags)
                } else {
                    None
                },
            },
        ),
{
    broadcast use group_enc_len;

    let body = tfhd_body(
        version,
        flags,
        track_id,
        base,
        index,
        duration,
        size,
        sample_flags,
        tail,
    );
    let opening = full_body(version, flags, Seq::empty());
    let p0 = enc32(track_id);
    let p1 = part(flags, 0x01, enc64(base));
    let p2 = part(flags, 0x02, enc32(index));
    let p3 = part(flags, 0x08, enc32(duration));
    let p4 = part(flags, 0x10, enc32(size));
    let p5 = part(flags, 0x20, enc32(sample_flags));
    law_full_box_reads_back(version, flags, Seq::empty());
    law_full_box_reads_back(version, flags, p0 + p1 + p2 + p3 + p4 + p5 + tail);
    assert(body =~= opening + p0 + (p1 + p2 + p3 + p4 + p5 + tail));
    lemma_stands_between(opening, p0, p1 + p2 + p3 + p4 + p5 + tail);
    lemma_word_stands(body, 4, track_id);
    if flags & 0x01 != 0 {
        assert(body =~= (opening + p0) + p1 + (p2 + p3 + p4 + p5 + tail));
        lemma_stands_between(opening + p0, p1, p2 + p3 + p4 + p5 + tail);
        lemma_long_stands(body, 8, base);
    }
    let front = opening + p0 + p1 + p2;
    if flags & 0x08 != 0 {
        assert(body =~= front + p3 + (p4 + p5 + tail));
        lemma_stands_between(front, p3, p4 + p5 + tail);
        lemma_word_stands(body, front.len() as int, duration);
    }
    let front = opening + p0 + p1 + p2 + p3;
    if flags & 0x10 != 0 {
        assert(body =~= front + p4 + (p5 + tail));
        lemma_stands_between(front, p4, p5 + tail);
        lemma_word_stands(body, front.len() as int, size);
    }
    let front = opening + p0 + p1 + p2 + p3 + p4;
    if flags & 0x20 != 0 {
        assert(body =~= front + p5 + tail);
        lemma_stands_between(front, p5, tail);
        lemma_word_stands(body, front.len() as int, sample_flags);
    }
}

/// A `tfdt` reads as the time it was written with: in 64 bits in version one
/// and in 32 in every other.
pub proof fn law_a_tfdt_reads_back(
    version: u8,
    flags: u32,
    long: u64,
    short: u32,
    tail: Seq<u8>,
    at: u64,
)
    ensures
        long <= i64::MAX ==> tfdt_spec(full_body(1, flags, enc64(long) + tail), at) == Ok::<
            _,
            Error,
        >(long as i64),
        version != 1 ==> tfdt_spec(full_body(version, flags, enc32(short) + tail), at) == Ok::<
            _,
            Error,
        >(short as i64),
{
    broadcast use group_enc_len;

    let opening = full_body(1, flags, Seq::empty());
    law_full_box_reads_back(1, flags, Seq::empty());
    law_full_box_reads_back(1, flags, enc64(long) + tail);
    assert(full_body(1, flags, enc64(long) + tail) =~= opening + enc64(long) + tail);
    lemma_stands_between(opening, enc64(long), tail);
    lemma_long_stands(opening + enc64(long) + tail, 4, long);
    let opening = full_body(version, flags, Seq::empty());
    law_full_box_reads_back(version, flags, Seq::empty());
    law_full_box_reads_back(version, flags, enc32(short) + tail);
    assert(full_body(version, flags, enc32(short) + tail) =~= opening + enc32(short) + tail);
    lemma_stands_between(opening, enc32(short), tail);
    lemma_word_stands(opening + enc32(short) + tail, 4, short);
}

/// One row of a `trun`, with the fields its flags ask for in the order they
/// stand in.
pub open spec fn trun_row_bytes(flags: u32, row: Entry) -> Seq<u8> {
    part(flags, 0x100, enc32(row.duration)) + part(flags, 0x200, enc32(row.size)) + part(
        flags,
        0x400,
        enc32(row.flags),
    ) + part(flags, 0x800, enc32(twos32(row.composition_offset)))
}

/// A `trun` with the fields its flags ask for, in the order they stand in.
pub open spec fn trun_body(
    version: u8,
    flags: u32,
    offset: i32,
    first: u32,
    rows: Seq<Entry>,
    tail: Seq<u8>,
) -> Seq<u8> {
    full_body(
        version,
        flags,
        enc32(rows.len() as u32) + part(flags, 0x01, enc32(twos32(offset))) + part(
            flags,
            0x04,
            enc32(first),
        ) + stacked(rows, |row: Entry| trun_row_bytes(flags, row)) + tail,
    )
}

#[verifier::rlimit(40)]
proof fn lemma_trun_row(
    body: Seq<u8>,
    pos: nat,
    flags: u32,
    row: Entry,
    first: Option<u32>,
    tfhd: Tfhd,
    trex: TrexDefaults,
)
    requires
        be24(body, 1) == flags,
        stands(body, pos as int, trun_row_bytes(flags, row)),
    ensures
        ({
            let read = trun_entry(body, pos, first, tfhd, trex);
            &&& flags & 0x100 != 0 ==> read.duration == row.duration
            &&& flags & 0x200 != 0 ==> read.size == row.size
            &&& flags & 0x400 != 0 && first is None ==> read.flags == row.flags
            &&& flags & 0x800 != 0 ==> read.composition_offset == row.composition_offset
        }),
{
    broadcast use group_enc_len;

    let none = Seq::<u8>::empty();
    let p1 = part(flags, 0x100, enc32(row.duration));
    let p2 = part(flags, 0x200, enc32(row.size));
    let p3 = part(flags, 0x400, enc32(row.flags));
    let p4 = part(flags, 0x800, enc32(twos32(row.composition_offset)));
    let all = trun_row_bytes(flags, row);
    if flags & 0x100 != 0 {
        assert(all =~= none + p1 + (p2 + p3 + p4));
        lemma_stands_between(none, p1, p2 + p3 + p4);
        lemma_stands_in(body, pos as int, all, 0, p1);
        lemma_word_stands(body, pos as int, row.duration);
    }
    if flags & 0x200 != 0 {
        assert(all =~= p1 + p2 + (p3 + p4));
        lemma_stands_between(p1, p2, p3 + p4);
        lemma_stands_in(body, pos as int, all, p1.len() as int, p2);
        lemma_word_stands(body, pos as int + p1.len(), row.size);
    }
    if flags & 0x400 != 0 {
        assert(all =~= (p1 + p2) + p3 + p4);
        lemma_stands_between(p1 + p2, p3, p4);
        lemma_stands_in(body, pos as int, all, (p1 + p2).len() as int, p3);
        lemma_word_stands(body, pos as int + (p1 + p2).len(), row.flags);
    }
    if flags & 0x800 != 0 {
        assert(all =~= (p1 + p2 + p3) + p4 + none);
        lemma_stands_between(p1 + p2 + p3, p4, none);
        lemma_stands_in(body, pos as int, all, (p1 + p2 + p3).len() as int, p4);
        lemma_word_stands(body, pos as int + (p1 + p2 + p3).len(), twos32(row.composition_offset));
    }
}

/// A `trun` of any flags reads as it was written: a sample's own duration,
/// size and flags where the rows carry them, else the ones its `tfhd` gives,
/// and only where that gives none the `trex`'s. The first sample's flags, where
/// the run carries them, are before everything else in the first sample and
/// say nothing of the others; a composition offset that is not there is zero.
#[verifier::rlimit(40)]
pub proof fn law_a_trun_reads_back(
    version: u8,
    flags: u32,
    offset: i32,
    first: u32,
    rows: Seq<Entry>,
    tail: Seq<u8>,
    at: u64,
    tfhd: Tfhd,
    trex: TrexDefaults,
    limits: Limits,
)
    requires
        flags < 0x100_0000,
        rows.len() <= u32::MAX,
        rows.len() <= limits.max_samples,
        flags & 0x100 == 0 && flags & 0x200 == 0 && flags & 0x400 == 0 && flags & 0x800 == 0
            ==> rows.len() <= tail.len(),
    ensures
        ({
            let read = trun_spec(
                trun_body(version, flags, offset, first, rows, tail),
                at,
                tfhd,
                trex,
                limits,
            );
            &&& read is Ok
            &&& read->Ok_0.0 == (if flags & 0x01 != 0 {
                Some(offset as i64)
            } else {
                None
            })
            &&& read->Ok_0.1.len() == rows.len()
            &&& forall|i: int|
                0 <= i < rows.len() ==> #[trigger] read->Ok_0.1[i] == (Entry {
                    duration: if flags & 0x100 != 0 {
                        rows[i].duration
                    } else {
                        match tfhd.default_duration {
                            Some(duration) => duration,
                            None => trex.duration,
                        }
                    },
                    size: if flags & 0x200 != 0 {
                        rows[i].size
                    } else {
                        match tfhd.default_size {
                            Some(size) => size,
                            None => trex.size,
                        }
                    },
                    flags: if i == 0 && flags & 0x04 != 0 {
                        first
                    } else if flags & 0x400 != 0 {
                        rows[i].flags
                    } else {
                        match tfhd.default_flags {
                            Some(own) => own,
                            None => trex.flags,
                        }
                    },
                    composition_offset: if flags & 0x800 != 0 {
                        rows[i].composition_offset
                    } else {
                        0
                    },
                })
        }),
{
    broadcast use group_enc_len;

    let body = trun_body(version, flags, offset, first, rows, tail);
    let write = |row: Entry| trun_row_bytes(flags, row);
    let opening = full_body(version, flags, Seq::empty());
    let p0 = enc32(rows.len() as u32);
    let p1 = part(flags, 0x01, enc32(twos32(offset)));
    let p2 = part(flags, 0x04, enc32(first));
    let p3 = stacked(rows, write);
    law_full_box_reads_back(version, flags, Seq::empty());
    law_full_box_reads_back(version, flags, p0 + p1 + p2 + p3 + tail);
    assert forall|row: Entry| (#[trigger] write(row)).len() == row_len(flags) by {}
    lemma_stacked(rows, write, row_len(flags));
    assert(body =~= opening + p0 + (p1 + p2 + p3 + tail));
    lemma_stands_between(opening, p0, p1 + p2 + p3 + tail);
    lemma_word_stands(body, 4, rows.len() as u32);
    if flags & 0x01 != 0 {
        assert(body =~= (opening + p0) + p1 + (p2 + p3 + tail));
        lemma_stands_between(opening + p0, p1, p2 + p3 + tail);
        lemma_word_stands(body, 8, twos32(offset));
    }
    if flags & 0x04 != 0 {
        assert(body =~= (opening + p0 + p1) + p2 + (p3 + tail));
        lemma_stands_between(opening + p0 + p1, p2, p3 + tail);
        lemma_word_stands(body, (opening + p0 + p1).len() as int, first);
    }
    let front = opening + p0 + p1 + p2;
    assert(body =~= front + p3 + tail);
    lemma_stands_between(front, p3, tail);
    assert(front.len() == rows_at(flags));
    let read = trun_spec(body, at, tfhd, trex, limits);
    assert(read is Ok);
    assert forall|i: int| 0 <= i < rows.len() implies {
        let entry = #[trigger] read->Ok_0.1[i];
        &&& flags & 0x100 != 0 ==> entry.duration == rows[i].duration
        &&& flags & 0x200 != 0 ==> entry.size == rows[i].size
        &&& flags & 0x400 != 0 && !(i == 0 && flags & 0x04 != 0) ==> entry.flags == rows[i].flags
        &&& flags & 0x800 != 0 ==> entry.composition_offset == rows[i].composition_offset
    } by {
        assert(stands(p3, i * row_len(flags), write(rows[i])));
        lemma_stands_in(body, front.len() as int, p3, i * row_len(flags), write(rows[i]));
        let pos = (front.len() + i * row_len(flags)) as nat;
        assert(i * row_len(flags) >= 0) by (nonlinear_arith)
            requires
                i >= 0,
        ;
        let own = if i == 0 && flags & 0x04 != 0 {
            Some(first)
        } else {
            None
        };
        lemma_trun_row(body, pos, flags, rows[i], own, tfhd, trex);
    }
}

/// What the `trex` says of a sample's duration, size or flags does not matter
/// where the `tfhd` says it too.
pub proof fn law_a_tfhd_default_is_before_the_trex(
    body: Seq<u8>,
    at: u64,
    tfhd: Tfhd,
    one: TrexDefaults,
    other: TrexDefaults,
    limits: Limits,
    i: int,
)
    requires
        trun_spec(body, at, tfhd, one, limits) matches Ok((_, entries)) && 0 <= i < entries.len(),
    ensures
        ({
            let a = trun_spec(body, at, tfhd, one, limits);
            let b = trun_spec(body, at, tfhd, other, limits);
            &&& b is Ok
            &&& a->Ok_0.0 == b->Ok_0.0
            &&& a->Ok_0.1.len() == b->Ok_0.1.len()
            &&& tfhd.default_duration is Some ==> a->Ok_0.1[i].duration == b->Ok_0.1[i].duration
            &&& tfhd.default_size is Some ==> a->Ok_0.1[i].size == b->Ok_0.1[i].size
            &&& tfhd.default_flags is Some ==> a->Ok_0.1[i].flags == b->Ok_0.1[i].flags
            &&& a->Ok_0.1[i].composition_offset == b->Ok_0.1[i].composition_offset
        }),
{
}

/// An `mfhd` reads as the sequence number it was written with.
pub proof fn law_an_mfhd_reads_back(version: u8, flags: u32, sequence: u32, tail: Seq<u8>, at: u64)
    ensures
        sequence_spec(full_body(version, flags, enc32(sequence) + tail), at) == Ok::<_, Error>(
            sequence,
        ),
{
    broadcast use group_enc_len;

    let opening = full_body(version, flags, Seq::empty());
    law_full_box_reads_back(version, flags, Seq::empty());
    assert(full_body(version, flags, enc32(sequence) + tail) =~= opening + enc32(sequence) + tail);
    lemma_stands_between(opening, enc32(sequence), tail);
    lemma_word_stands(opening + enc32(sequence) + tail, 4, sequence);
}

// ------------------------------------------------------------------ //
// Two readers of one fragment.
// ------------------------------------------------------------------ //
/// Whether the only child of its kind is the one at `i`.
pub open spec fn only(list: Seq<Kid>, kind: [u8; 4], i: int) -> bool {
    0 <= i < list.len() && forall|j: int|
        0 <= j < list.len() ==> ((#[trigger] list[j]).kind == kind <==> j == i)
}

pub proof fn lemma_only_first(list: Seq<Kid>, kind: [u8; 4], i: int)
    requires
        only(list, kind, i),
    ensures
        first_of(list, kind) == Some(list[i]),
    decreases list.len(),
{
    assert(list[0].kind == kind <==> 0 == i);
    if i > 0 {
        lemma_only_next(list, kind, i);
        lemma_only_first(list.drop_first(), kind, i - 1);
    }
}

proof fn lemma_only_next(list: Seq<Kid>, kind: [u8; 4], i: int)
    requires
        only(list, kind, i),
        i > 0,
    ensures
        only(list.drop_first(), kind, i - 1),
{
    let rest = list.drop_first();
    assert forall|j: int| 0 <= j < rest.len() implies ((#[trigger] rest[j]).kind == kind <==> j == i
        - 1) by {
        assert(rest[j] == list[j + 1]);
    }
}

proof fn lemma_flags_at_run(list: Seq<Kid>, b: int, default: Option<u32>)
    requires
        only(list, TRUN, b),
        forall|j: int| 0 <= j < b ==> (#[trigger] list[j]).kind != TFHD,
    ensures
        flags_among(list, default) == run_first_flags(list[b].body, list[b].at, default),
    decreases list.len(),
{
    assert(list[0].kind == TRUN <==> 0 == b);
    if b > 0 {
        assert(list[0].kind != TFHD);
        lemma_only_next(list, TRUN, b);
        let rest = list.drop_first();
        assert forall|j: int| 0 <= j < b - 1 implies (#[trigger] rest[j]).kind != TFHD by {
            assert(rest[j] == list[j + 1]);
        }
        lemma_flags_at_run(rest, b - 1, default);
    }
}

proof fn lemma_flags_of_traf(list: Seq<Kid>, a: int, b: int, default: Option<u32>)
    requires
        only(list, TFHD, a),
        only(list, TRUN, b),
        a < b,
        tfhd_spec(list[a].body, list[a].at) is Ok,
    ensures
        flags_among(list, default) == run_first_flags(
            list[b].body,
            list[b].at,
            tfhd_spec(list[a].body, list[a].at)->Ok_0.default_flags,
        ),
    decreases list.len(),
{
    assert(list[0].kind == TFHD <==> 0 == a);
    assert(list[0].kind == TRUN <==> 0 == b);
    lemma_only_next(list, TRUN, b);
    let rest = list.drop_first();
    if a > 0 {
        lemma_only_next(list, TFHD, a);
        lemma_flags_of_traf(rest, a - 1, b - 1, default);
    } else {
        assert forall|j: int| 0 <= j < b - 1 implies (#[trigger] rest[j]).kind != TFHD by {
            assert(rest[j] == list[j + 1]);
        }
        lemma_flags_at_run(
            rest,
            b - 1,
            tfhd_spec(list[a].body, list[a].at)->Ok_0.default_flags,
        );
    }
}

proof fn lemma_no_run(
    reach: Reach,
    list: Seq<Kid>,
    tfhd: Tfhd,
    trex: TrexDefaults,
    base: u64,
    mine: bool,
    limits: Limits,
)
    requires
        forall|j: int| 0 <= j < list.len() ==> (#[trigger] list[j]).kind != TRUN,
    ensures
        runs_after(reach, list, tfhd, trex, base, mine, limits) == Ok::<_, Error>(reach),
    decreases list.len(),
{
    if list.len() > 0 {
        let rest = list.drop_first();
        assert(list[0].kind != TRUN);
        assert forall|j: int| 0 <= j < rest.len() implies (#[trigger] rest[j]).kind != TRUN by {
            assert(rest[j] == list[j + 1]);
        }
        lemma_no_run(reach, rest, tfhd, trex, base, mine, limits);
    }
}

pub proof fn lemma_only_run(
    reach: Reach,
    list: Seq<Kid>,
    b: int,
    tfhd: Tfhd,
    trex: TrexDefaults,
    base: u64,
    mine: bool,
    limits: Limits,
)
    requires
        only(list, TRUN, b),
    ensures
        runs_after(reach, list, tfhd, trex, base, mine, limits) == (match trun_spec(
            list[b].body,
            list[b].at,
            tfhd,
            trex,
            limits,
        ) {
            Err(err) => Err(err),
            Ok(run) => run_after(reach, run, base, mine, list[b].at, limits),
        }),
    decreases list.len(),
{
    assert(list[0].kind == TRUN <==> 0 == b);
    let rest = list.drop_first();
    if b > 0 {
        lemma_only_next(list, TRUN, b);
        lemma_only_run(reach, rest, b - 1, tfhd, trex, base, mine, limits);
    } else {
        assert forall|j: int| 0 <= j < rest.len() implies (#[trigger] rest[j]).kind != TRUN by {
            assert(rest[j] == list[j + 1]);
        }
        if let Ok(run) = trun_spec(list[0].body, list[0].at, tfhd, trex, limits) {
            if let Ok(next) = run_after(reach, run, base, mine, list[0].at, limits) {
                lemma_no_run(next, rest, tfhd, trex, base, mine, limits);
            }
        }
    }
}

proof fn lemma_no_traf(
    reach: Reach,
    first: bool,
    list: Seq<Kid>,
    moof_start: u64,
    want: Option<u32>,
    trex: TrexDefaults,
    limits: Limits,
)
    requires
        forall|j: int| 0 <= j < list.len() ==> (#[trigger] list[j]).kind != TRAF,
    ensures
        trafs_after(reach, first, list, moof_start, want, trex, limits) == Ok::<_, Error>(reach),
    decreases list.len(),
{
    if list.len() > 0 {
        let rest = list.drop_first();
        assert(list[0].kind != TRAF);
        assert forall|j: int| 0 <= j < rest.len() implies (#[trigger] rest[j]).kind != TRAF by {
            assert(rest[j] == list[j + 1]);
        }
        lemma_no_traf(reach, first, rest, moof_start, want, trex, limits);
    }
}

proof fn lemma_only_traf(
    reach: Reach,
    list: Seq<Kid>,
    c: int,
    moof_start: u64,
    want: Option<u32>,
    trex: TrexDefaults,
    limits: Limits,
)
    requires
        only(list, TRAF, c),
        reach.samples.len() == 0,
    ensures
        trafs_after(reach, true, list, moof_start, want, trex, limits) == traf_spec(
            list[c],
            moof_start,
            true,
            reach.end,
            want,
            trex,
            reach.clock,
            limits,
        ),
    decreases list.len(),
{
    assert(list[0].kind == TRAF <==> 0 == c);
    let rest = list.drop_first();
    if c > 0 {
        lemma_only_next(list, TRAF, c);
        lemma_only_traf(reach, rest, c - 1, moof_start, want, trex, limits);
    } else {
        assert forall|j: int| 0 <= j < rest.len() implies (#[trigger] rest[j]).kind != TRAF by {
            assert(rest[j] == list[j + 1]);
        }
        let read = traf_spec(
            list[c],
            moof_start,
            true,
            reach.end,
            want,
            trex,
            reach.clock,
            limits,
        );
        if let Ok(more) = read {
            assert(reach.samples + more.samples =~= more.samples);
            lemma_no_traf(more, false, rest, moof_start, want, trex, limits);
        }
    }
}

proof fn lemma_summary_rest(known: MoofSummary, list: Seq<Kid>)
    requires
        forall|j: int| 0 <= j < list.len() ==> (#[trigger] list[j]).kind != TRAF,
        forall|j: int|
            0 <= j < list.len() && (#[trigger] list[j]).kind == MFHD ==> list[j].body.len() >= 8,
    ensures
        summary_after(known, list) matches Ok(summary) && summary.first_sample_keyframe
            == known.first_sample_keyframe,
    decreases list.len(),
{
    if list.len() > 0 {
        let rest = list.drop_first();
        assert(list[0].kind != TRAF);
        assert forall|j: int| 0 <= j < rest.len() implies (#[trigger] rest[j]).kind != TRAF && (
        rest[j].kind == MFHD ==> rest[j].body.len() >= 8) by {
            assert(rest[j] == list[j + 1]);
        }
        if list[0].kind == MFHD {
            let sequence = sequence_spec(list[0].body, list[0].at)->Ok_0;
            lemma_summary_rest(MoofSummary { sequence: Some(sequence), ..known }, rest);
        } else {
            lemma_summary_rest(known, rest);
        }
    }
}

proof fn lemma_summary_of_traf(known: MoofSummary, list: Seq<Kid>, c: int, flags: Option<u32>)
    requires
        only(list, TRAF, c),
        forall|j: int|
            0 <= j < list.len() && (#[trigger] list[j]).kind == MFHD ==> list[j].body.len() >= 8,
        known.first_sample_keyframe is None,
        traf_flags_spec(list[c]) == Ok::<_, Error>(flags),
    ensures
        summary_after(known, list) matches Ok(summary) && summary.first_sample_keyframe == (
        match flags {
            Some(flags) => Some(flags & 0x1_0000 == 0),
            None => None,
        }),
    decreases list.len(),
{
    assert(list[0].kind == TRAF <==> 0 == c);
    let rest = list.drop_first();
    assert forall|j: int| 0 <= j < rest.len() && (#[trigger] rest[j]).kind == MFHD implies
        rest[j].body.len() >= 8 by {
        assert(rest[j] == list[j + 1]);
    }
    if c > 0 {
        lemma_only_next(list, TRAF, c);
        if list[0].kind == MFHD {
            let sequence = sequence_spec(list[0].body, list[0].at)->Ok_0;
            lemma_summary_of_traf(
                MoofSummary { sequence: Some(sequence), ..known },
                rest,
                c - 1,
                flags,
            );
        } else {
            lemma_summary_of_traf(known, rest, c - 1, flags);
        }
    } else {
        assert forall|j: int| 0 <= j < rest.len() implies (#[trigger] rest[j]).kind != TRAF by {
            assert(rest[j] == list[j + 1]);
        }
        match flags {
            None => lemma_summary_rest(known, rest),
            Some(flags) => lemma_summary_rest(
                MoofSummary { first_sample_keyframe: Some(!set_in(flags, NON_SYNC)), ..known },
                rest,
            ),
        }
    }
}

/// What the scanner says of a fragment's first sample is what the reader of
/// its samples says: for a `moof` with one `traf` of one `tfhd` and one run
/// behind it, whatever the flags of the two are, the first sample is a
/// keyframe exactly when the summary says so, and where the summary does not
/// say, the `trex` alone decides. The summary does not say exactly where
/// neither the run nor the `tfhd` carries flags.
pub proof fn law_the_scanner_agrees_with_the_reader(
    moof: Seq<u8>,
    at: u64,
    c: int,
    a: int,
    b: int,
    trex: TrexDefaults,
    clock: i64,
    limits: Limits,
)
    requires
        limits.max_children == MAX_CHILDREN,
        ({
            let header = parse_header_spec(moof, at)->Ok_0.unwrap();
            let body = moof.skip(header.header_len as int);
            let body_at = (at + header.header_len) as u64;
            let list = children_spec(body, body_at, MAX_CHILDREN)->Ok_0;
            let inner = children_spec(list[c].body, list[c].at, MAX_CHILDREN)->Ok_0;
            &&& parse_header_spec(moof, at) matches Ok(Some(_))
            &&& children_spec(body, body_at, MAX_CHILDREN) is Ok
            &&& only(list, TRAF, c)
            &&& forall|j: int|
                0 <= j < list.len() && (#[trigger] list[j]).kind == MFHD ==> list[j].body.len()
                    >= 8
            &&& children_spec(list[c].body, list[c].at, MAX_CHILDREN) is Ok
            &&& only(inner, TFHD, a)
            &&& only(inner, TRUN, b)
            &&& a < b
            &&& moof_spec(body, at, body_at, None, trex, clock, limits) matches Ok(reach)
                && reach.samples.len() > 0
        }),
    ensures
        ({
            let header = parse_header_spec(moof, at)->Ok_0.unwrap();
            let body = moof.skip(header.header_len as int);
            let body_at = (at + header.header_len) as u64;
            let list = children_spec(body, body_at, MAX_CHILDREN)->Ok_0;
            let inner = children_spec(list[c].body, list[c].at, MAX_CHILDREN)->Ok_0;
            let run = be24(inner[b].body, 1);
            let head = be24(inner[a].body, 1);
            let samples = moof_spec(body, at, body_at, None, trex, clock, limits)->Ok_0.samples;
            let summary = moof_summary_spec(moof, at)->Ok_0;
            &&& moof_summary_spec(moof, at) is Ok
            &&& samples[0].keyframe == (match summary.first_sample_keyframe {
                Some(keyframe) => keyframe,
                None => trex.flags & 0x1_0000 == 0,
            })
            &&& summary.first_sample_keyframe is None <==> run & 0x04 == 0 && run & 0x400 == 0
                && head & 0x20 == 0
        }),
{
    let header = parse_header_spec(moof, at)->Ok_0.unwrap();
    let body = moof.skip(header.header_len as int);
    let body_at = (at + header.header_len) as u64;
    let list = children_spec(body, body_at, MAX_CHILDREN)->Ok_0;
    let inner = children_spec(list[c].body, list[c].at, MAX_CHILDREN)->Ok_0;
    lemma_only_traf(
        Reach { samples: Seq::empty(), end: at, clock },
        list,
        c,
        at,
        None,
        trex,
        limits,
    );
    lemma_only_first(inner, TFHD, a);
    let tfhd = tfhd_spec(inner[a].body, inner[a].at)->Ok_0;
    let base = tfhd.base_spec(at, true, at);
    let start = start_spec(inner, true, clock)->Ok_0;
    let empty = Reach { samples: Seq::empty(), end: base, clock: start };
    lemma_only_run(empty, inner, b, tfhd, trex, base, true, limits);
    let run = trun_spec(inner[b].body, inner[b].at, tfhd, trex, limits)->Ok_0;
    let from = match run.0 {
        Some(offset) => base + offset,
        None => base as int,
    };
    let samples = run_samples(run.1, from as u64, start);
    assert(Seq::<Sample>::empty() + samples =~= samples);
    lemma_flags_of_traf(inner, a, b, None);
    assert(0 * row_len(be24(inner[b].body, 1)) == 0);
    let count = run.1.len();
    let row = row_len(be24(inner[b].body, 1));
    assert(row > 0 ==> count * row >= row) by (nonlinear_arith)
        requires
            count >= 1,
    ;
    let flags = run_first_flags(inner[b].body, inner[b].at, tfhd.default_flags);
    assert(flags is Ok);
    lemma_summary_of_traf(
        MoofSummary { sequence: None, first_sample_keyframe: None },
        list,
        c,
        flags->Ok_0,
    );
}

// ------------------------------------------------------------------ //
// What is refused.
// ------------------------------------------------------------------ //
/// Whether a result is the refusal of bytes that are cut short.
pub open spec fn cut_short<T>(result: Result<T>) -> bool {
    result matches Err(err) && err is Truncated
}

/// Whether a result is the refusal of bytes that break a rule.
pub open spec fn broken<T>(result: Result<T>) -> bool {
    result matches Err(err) && err is Format
}

/// A table that has no room for its count is cut short; one whose count is
/// more than its rows breaks a rule, and no other table does.
pub proof fn law_which_tables_are_refused(body: Seq<u8>, at: u64)
    requires
        body.len() <= usize::MAX,
    ensures
        ({
            let count = be32(body, 4);
            let left = body.len() - 8;
            &&& cut_short(offsets32_spec(body, at)) <==> left < 0
            &&& cut_short(offsets64_spec(body, at)) <==> left < 0
            &&& cut_short(stsc_spec(body, at)) <==> left < 0
            &&& cut_short(pairs_spec(body, at)) <==> left < 0
            &&& cut_short(ctts_spec(body, at)) <==> left < 0
            &&& cut_short(sync_numbers_spec(body, at)) <==> left < 0
            &&& offsets32_spec(body, at) is Ok <==> 0 <= count * 4 <= left
            &&& offsets64_spec(body, at) is Ok <==> 0 <= count * 8 <= left
            &&& stsc_spec(body, at) is Ok <==> 0 <= count * 12 <= left
            &&& pairs_spec(body, at) is Ok <==> 0 <= count * 8 <= left
            &&& ctts_spec(body, at) is Ok <==> 0 <= count * 8 <= left
            &&& sync_numbers_spec(body, at) is Ok <==> 0 <= count * 4 <= left
            &&& left >= 0 && offsets32_spec(body, at) is Err ==> broken(offsets32_spec(body, at))
            &&& left >= 0 && offsets64_spec(body, at) is Err ==> broken(offsets64_spec(body, at))
            &&& left >= 0 && stsc_spec(body, at) is Err ==> broken(stsc_spec(body, at))
            &&& left >= 0 && pairs_spec(body, at) is Err ==> broken(pairs_spec(body, at))
            &&& left >= 0 && ctts_spec(body, at) is Err ==> broken(ctts_spec(body, at))
            &&& left >= 0 && sync_numbers_spec(body, at) is Err ==> broken(
                sync_numbers_spec(body, at),
            )
        }),
{
}

/// The boxes of a fragment that have no rows are refused only where they are
/// cut short.
pub proof fn law_which_fragment_boxes_are_refused(body: Seq<u8>, at: u64)
    ensures
        sequence_spec(body, at) is Ok <==> body.len() >= 8,
        sequence_spec(body, at) is Err ==> cut_short(sequence_spec(body, at)),
        tfdt_spec(body, at) is Ok <==> body.len() >= (if body[0] == 1 {
            12nat
        } else {
            8
        }),
        tfdt_spec(body, at) is Err ==> cut_short(tfdt_spec(body, at)),
        body.len() < 8 ==> tfhd_spec(body, at) is Err,
        body.len() >= 32 ==> tfhd_spec(body, at) is Ok,
        tfhd_spec(body, at) is Err ==> cut_short(tfhd_spec(body, at)),
{
}

/// A run of more samples than the limit breaks a rule, and so does one whose
/// rows are more than its box, a row of no bytes being taken as one of one.
pub proof fn law_which_runs_are_refused(
    version: u8,
    flags: u32,
    count: u32,
    offset: u32,
    first: u32,
    rest: Seq<u8>,
    at: u64,
    tfhd: Tfhd,
    trex: TrexDefaults,
    limits: Limits,
)
    requires
        flags < 0x100_0000,
    ensures
        ({
            let body = full_body(
                version,
                flags,
                enc32(count) + part(flags, 0x01, enc32(offset)) + part(flags, 0x04, enc32(first))
                    + rest,
            );
            let read = trun_spec(body, at, tfhd, trex, limits);
            let fields = trun_row_bytes(
                flags,
                Entry { duration: 0, size: 0, flags: 0, composition_offset: 0 },
            ).len();
            let row = if fields == 0 {
                1
            } else {
                fields
            };
            &&& read is Ok <==> count <= limits.max_samples && count * row <= rest.len()
            &&& read is Err ==> broken(read)
        }),
{
    broadcast use group_enc_len;

    let p0 = enc32(count);
    let p1 = part(flags, 0x01, enc32(offset));
    let p2 = part(flags, 0x04, enc32(first));
    let body = full_body(version, flags, p0 + p1 + p2 + rest);
    let opening = full_body(version, flags, Seq::empty());
    law_full_box_reads_back(version, flags, Seq::empty());
    law_full_box_reads_back(version, flags, p0 + p1 + p2 + rest);
    assert(body =~= opening + p0 + (p1 + p2 + rest));
    lemma_stands_between(opening, p0, p1 + p2 + rest);
    lemma_word_stands(body, 4, count);
}

/// In a run whose rows carry no flags, a sample that the run's own first flags
/// do not speak of is a keyframe exactly when the bit of one that is none is
/// clear in the `tfhd`'s flags where it has any, and only without them in the
/// `trex`'s; so where the `tfhd` has them the `trex` says nothing of it. The
/// same goes for how long such a sample lasts and how large it is.
pub proof fn law_whose_defaults_a_sample_has(
    body: Seq<u8>,
    at: u64,
    tfhd: Tfhd,
    trex: TrexDefaults,
    limits: Limits,
    from: u64,
    clock: i64,
    i: int,
)
    requires
        trun_spec(body, at, tfhd, trex, limits) matches Ok((_, entries)) && 0 <= i < entries.len(),
    ensures
        ({
            let flags = be24(body, 1);
            let entries = trun_spec(body, at, tfhd, trex, limits)->Ok_0.1;
            let sample = run_samples(entries, from, clock)[i];
            &&& flags & 0x400 == 0 && (i > 0 || flags & 0x04 == 0) ==> sample.keyframe == (
            match tfhd.default_flags {
                Some(own) => own & 0x1_0000 == 0,
                None => trex.flags & 0x1_0000 == 0,
            })
            &&& flags & 0x100 == 0 ==> sample.duration == (match tfhd.default_duration {
                Some(own) => own,
                None => trex.duration,
            })
            &&& flags & 0x200 == 0 ==> sample.size == (match tfhd.default_size {
                Some(own) => own,
                None => trex.size,
            })
        }),
{
}

} // verus!
