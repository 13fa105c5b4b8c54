//! What the bytes of the boxes that describe a track say.
//!
//! Nothing here runs. Each law lays a box out field by field and states what
//! the reader makes of it.

use vstd::prelude::*;

use crate::be::{be32, enc16, enc32, enc64, group_enc_len, kind_at};
use crate::boxes::{
    children_spec, fits, found, full_body, laid, law_children_read_back, law_full_box_reads_back,
    lemma_found, lemma_not_found, placed, Kid,
};
use crate::error::Error;
use crate::layout::{
    broken, cut_short, lemma_half_stands, lemma_long_stands, lemma_stacked, lemma_stands_between,
    lemma_stands_in, lemma_word_stands, stacked, stands, table_body, twos32,
};
use crate::limits::Limits;
use crate::time::{law_nearest_is_nearest, law_rescale_keeps_sign, rescale};
use crate::track::{
    after_times_spec, audio_spec, coding_spec, edit_entry, edit_spec, edits_from, handler_spec,
    mdhd_spec, mvhd_spec, sample_entry_spec, trex_among, trex_spec, visual_spec, Audio, Coding,
    Edit, Handler, SampleEntry, TrexDefaults, Visual,
};

verus! {

// ------------------------------------------------------------------ //
// The headers.
// ------------------------------------------------------------------ //
/// What opens an `mvhd`, an `mdhd` or a `tkhd`: two times, in 64 bits each in
/// version one and in 32 in every other, then a word.
pub open spec fn timed_body(
    version: u8,
    flags: u32,
    created: u64,
    modified: u64,
    word: u32,
    tail: Seq<u8>,
) -> Seq<u8> {
    full_body(
        version,
        flags,
        (if version == 1 {
            enc64(created) + enc64(modified)
        } else {
            enc32((created % 0x1_0000_0000) as u32) + enc32((modified % 0x1_0000_0000) as u32)
        }) + enc32(word) + tail,
    )
}

/// The word behind the two times reads back, in every version: of a `tkhd` it
/// is the track's number, of an `mdhd` the track's timescale, which may not be
/// zero, and of an `mvhd` the movie's, which is a thousand where it is zero.
pub proof fn law_a_header_reads_back(
    version: u8,
    flags: u32,
    created: u64,
    modified: u64,
    word: u32,
    tail: Seq<u8>,
    at: u64,
)
    ensures
        ({
            let body = timed_body(version, flags, created, modified, word, tail);
            &&& after_times_spec(body, at) == Ok::<_, Error>(word)
            &&& word > 0 ==> mdhd_spec(body, at) == Ok::<_, Error>(word)
            &&& word == 0 ==> mdhd_spec(body, at) is Err
            &&& word > 0 ==> mvhd_spec(body, at) == Ok::<_, Error>(word)
            &&& word == 0 ==> mvhd_spec(body, at) == Ok::<_, Error>(1000u32)
        }),
{
    broadcast use group_enc_len;

    let times = if version == 1 {
        enc64(created) + enc64(modified)
    } else {
        enc32((created % 0x1_0000_0000) as u32) + enc32((modified % 0x1_0000_0000) as u32)
    };
    let body = timed_body(version, flags, created, modified, word, tail);
    let opening = full_body(version, flags, Seq::empty());
    law_full_box_reads_back(version, flags, Seq::empty());
    law_full_box_reads_back(version, flags, times + enc32(word) + tail);
    assert(body =~= (opening + times) + enc32(word) + tail);
    lemma_stands_between(opening + times, enc32(word), tail);
    lemma_word_stands(body, (opening + times).len() as int, word);
}

/// A `hdlr` gives the handler whose four characters stand behind its first
/// word: `vide` is video, `soun` is audio, and any other is kept.
pub proof fn law_a_hdlr_reads_back(
    version: u8,
    flags: u32,
    before: u32,
    kind: [u8; 4],
    tail: Seq<u8>,
    at: u64,
)
    ensures
        ({
            let body = full_body(version, flags, enc32(before) + kind@ + tail);
            handler_spec(body, at) == Ok::<_, Error>(
                if kind@ == seq![0x76u8, 0x69, 0x64, 0x65] {
                    Handler::Video
                } else if kind@ == seq![0x73u8, 0x6f, 0x75, 0x6e] {
                    Handler::Audio
                } else {
                    Handler::Other(kind)
                },
            )
        }),
{
    broadcast use group_enc_len;

    let body = full_body(version, flags, enc32(before) + kind@ + tail);
    let opening = full_body(version, flags, Seq::empty());
    law_full_box_reads_back(version, flags, Seq::empty());
    assert(body =~= (opening + enc32(before)) + kind@ + tail);
    assert(kind_at(body, 8)@ =~= kind@);
    assert(kind_at(body, 8) == kind);
    assert(kind@ == seq![0x76u8, 0x69, 0x64, 0x65] <==> kind == [0x76u8, 0x69, 0x64, 0x65]) by {
        assert([0x76u8, 0x69, 0x64, 0x65]@ =~= seq![0x76u8, 0x69, 0x64, 0x65]);
        assert(kind@ == [0x76u8, 0x69, 0x64, 0x65]@ ==> kind =~= [0x76u8, 0x69, 0x64, 0x65]);
    }
    assert(kind@ == seq![0x73u8, 0x6f, 0x75, 0x6e] <==> kind == [0x73u8, 0x6f, 0x75, 0x6e]) by {
        assert([0x73u8, 0x6f, 0x75, 0x6e]@ =~= seq![0x73u8, 0x6f, 0x75, 0x6e]);
        assert(kind@ == [0x73u8, 0x6f, 0x75, 0x6e]@ ==> kind =~= [0x73u8, 0x6f, 0x75, 0x6e]);
    }
}

// ------------------------------------------------------------------ //
// The edit list.
// ------------------------------------------------------------------ //
/// A signed number as the 64 bits that stand for it.
pub open spec fn twos64(v: i64) -> u64 {
    if v < 0 {
        (v + 0x1_0000_0000_0000_0000) as u64
    } else {
        v as u64
    }
}

/// One row of an `elst`: how long it is in movie ticks, the media time it
/// shows from, or one before zero for an empty edit, and the rate.
pub struct EditRow {
    pub duration: i64,
    pub media_time: i64,
    pub rate: u32,
}

/// A row of an `elst`: 64 bits for either number in version one, and 32 in
/// every other.
pub open spec fn edit_row_bytes(version: u8, row: EditRow) -> Seq<u8> {
    if version == 1 {
        enc64(twos64(row.duration)) + enc64(twos64(row.media_time)) + enc32(row.rate)
    } else {
        enc32(row.duration as u32) + enc32(twos32(row.media_time as i32)) + enc32(row.rate)
    }
}

pub open spec fn elst_body(version: u8, flags: u32, rows: Seq<EditRow>, tail: Seq<u8>) -> Seq<u8> {
    table_body(
        version,
        flags,
        rows.len(),
        stacked(rows, |row: EditRow| edit_row_bytes(version, row)),
        tail,
    )
}

/// Whether the version's numbers are wide enough for a row.
pub open spec fn edit_row_fits(version: u8, row: EditRow) -> bool {
    version != 1 ==> 0 <= row.duration <= u32::MAX && i32::MIN <= row.media_time <= i32::MAX
}

/// The sum of the first numbers of a list.
pub open spec fn sum(list: Seq<int>, n: nat) -> int
    decreases n,
{
    if n == 0 {
        0
    } else {
        sum(list, (n - 1) as nat) + list[n - 1]
    }
}

/// Whether `ticks` of one timescale are the time that `duration` of another
/// is, to the nearest, and the later of two that are as near.
pub open spec fn same_time(ticks: int, scale: u32, duration: int, of: u32) -> bool {
    -(of as int) < 2 * (ticks * of - duration * scale) <= of
}

proof fn lemma_edit_rows(version: u8, flags: u32, rows: Seq<EditRow>, tail: Seq<u8>)
    requires
        rows.len() <= u32::MAX,
        forall|i: int| 0 <= i < rows.len() ==> edit_row_fits(version, #[trigger] rows[i]),
    ensures
        ({
            let body = elst_body(version, flags, rows, tail);
            &&& body.len() == 8 + rows.len() * (if version == 1 {
                20nat
            } else {
                12nat
            }) + tail.len()
            &&& body[0] == version
            &&& be32(body, 4) == rows.len()
            &&& forall|i: int|
                0 <= i < rows.len() ==> edit_entry(body, i) == (
                    (#[trigger] rows[i]).duration,
                    rows[i].media_time,
                )
        }),
{
    broadcast use group_enc_len;

    let write = |row: EditRow| edit_row_bytes(version, row);
    let width = if version == 1 {
        20nat
    } else {
        12nat
    };
    let body = elst_body(version, flags, rows, tail);
    let laid = stacked(rows, write);
    let n = enc32(rows.len() as u32);
    let opening = full_body(version, flags, Seq::empty());
    law_full_box_reads_back(version, flags, Seq::empty());
    law_full_box_reads_back(version, flags, n + laid + tail);
    lemma_stacked(rows, write, width);
    assert(body =~= opening + n + (laid + tail));
    lemma_stands_between(opening, n, laid + tail);
    lemma_word_stands(body, 4, rows.len() as u32);
    assert(body =~= (opening + n) + laid + tail);
    lemma_stands_between(opening + n, laid, tail);
    assert forall|i: int| 0 <= i < rows.len() implies edit_entry(body, i) == (
        (#[trigger] rows[i]).duration,
        rows[i].media_time,
    ) by {
        let row = rows[i];
        let pos = 8 + i * width;
        let none = Seq::<u8>::empty();
        assert(edit_row_fits(version, rows[i]));
        assert(stands(laid, i * width, write(rows[i])));
        lemma_stands_in(body, 8, laid, i * width, write(row));
        let rate = enc32(row.rate);
        if version == 1 {
            let one = enc64(twos64(row.duration));
            let two = enc64(twos64(row.media_time));
            assert(write(row) =~= none + one + (two + rate));
            lemma_stands_between(none, one, two + rate);
            lemma_stands_in(body, pos, write(row), 0, one);
            lemma_long_stands(body, pos, twos64(row.duration));
            lemma_stands_between(one, two, rate);
            lemma_stands_in(body, pos, write(row), 8, two);
            lemma_long_stands(body, pos + 8, twos64(row.media_time));
        } else {
            let one = enc32(row.duration as u32);
            let two = enc32(twos32(row.media_time as i32));
            assert(write(row) =~= none + one + (two + rate));
            lemma_stands_between(none, one, two + rate);
            lemma_stands_in(body, pos, write(row), 0, one);
            lemma_word_stands(body, pos, row.duration as u32);
            lemma_stands_between(one, two, rate);
            lemma_stands_in(body, pos, write(row), 4, two);
            lemma_word_stands(body, pos + 4, twos32(row.media_time as i32));
        }
    }
}

proof fn lemma_empty_part(duration: i64, movie: u32, media: u32)
    requires
        movie > 0,
        duration >= 0,
        2 * (duration * media) + movie <= 2 * (i64::MAX * movie),
    ensures
        same_time(
            rescale(duration, movie as u64, media as u64) as int,
            media,
            duration as int,
            movie,
        ),
        rescale(duration, movie as u64, media as u64) >= 0,
{
    let n = duration * media;
    let d = movie as int;
    law_nearest_is_nearest(n, d);
    law_rescale_keeps_sign(duration, movie as u64, media as u64);
    let q = crate::time::nearest(n, d);
    assert(n >= 0) by (nonlinear_arith)
        requires
            n == duration * media,
            duration >= 0,
            media >= 0,
    ;
    assert(0 <= q <= i64::MAX) by (nonlinear_arith)
        requires
            d > 0,
            n >= 0,
            -d <= 2 * (q * d - n) <= d,
            n > 0 ==> 2 * (q * d - n) != -d,
            n == 0 ==> q >= 0,
            2 * n + d <= 2 * (i64::MAX * d),
    ;
    assert(n == 0 ==> 2 * (q * d - n) > -d) by (nonlinear_arith)
        requires
            d > 0,
            q >= 0,
    ;
}

proof fn lemma_sum_of_times(
    ticks: Seq<int>,
    scale: u32,
    durations: Seq<int>,
    of: u32,
    i: nat,
    n: nat,
)
    requires
        i <= n,
        forall|j: int| 0 <= j < n ==> same_time(#[trigger] ticks[j], scale, durations[j], of),
        forall|j: int| 0 <= j < n ==> #[trigger] durations[j] >= 0,
    ensures
        2 * (sum(ticks, i) * of) <= 2 * (sum(durations, i) * scale) + i * of,
        sum(durations, i) <= sum(durations, n),
        0 <= sum(durations, i),
        i > 0 ==> durations[i - 1] <= sum(durations, n),
    decreases n, i,
{
    if i > 0 {
        lemma_sum_of_times(ticks, scale, durations, of, (i - 1) as nat, (i - 1) as nat);
        let t = ticks[i - 1];
        let d = durations[i - 1];
        assert(same_time(ticks[i - 1], scale, durations[i - 1], of));
        let st = sum(ticks, (i - 1) as nat);
        let sd = sum(durations, (i - 1) as nat);
        assert((st + t) * of == st * of + t * of) by (nonlinear_arith);
        assert((sd + d) * scale == sd * scale + d * scale) by (nonlinear_arith);
        assert(i * of == (i - 1) * of + of) by (nonlinear_arith);
    }
    if i < n {
        lemma_sum_of_times(ticks, scale, durations, of, i, (n - 1) as nat);
        assert(durations[n - 1] >= 0);
    }
}

proof fn lemma_edits(
    elst: Seq<u8>,
    rows: Seq<EditRow>,
    i: nat,
    k: nat,
    ticks: Seq<int>,
    movie: u32,
    media: u32,
)
    requires
        i <= k <= rows.len(),
        forall|j: int|
            0 <= j < rows.len() ==> edit_entry(elst, j) == (
                (#[trigger] rows[j]).duration,
                rows[j].media_time,
            ),
        forall|j: int| 0 <= j < k ==> (#[trigger] rows[j]).media_time < 0,
        k < rows.len() ==> rows[k as int].media_time >= 0,
        forall|j: int|
            0 <= j < k ==> #[trigger] ticks[j] == rescale(
                rows[j].duration,
                movie as u64,
                media as u64,
            ),
        forall|j: nat| j <= k ==> 0 <= #[trigger] sum(ticks, j) <= i64::MAX,
    ensures
        edits_from(elst, i, rows.len(), sum(ticks, i) as i64, movie, media) == (Edit {
            empty: sum(ticks, k) as i64,
            media_time: if k < rows.len() {
                Some(rows[k as int].media_time)
            } else {
                None
            },
        }),
    decreases k - i,
{
    if i < k {
        assert(rows[i as int].media_time < 0);
        assert(0 <= sum(ticks, i) <= i64::MAX);
        assert(0 <= sum(ticks, i + 1) <= i64::MAX);
        assert(ticks[i as int] == rescale(rows[i as int].duration, movie as u64, media as u64));
        lemma_edits(elst, rows, i + 1, k, ticks, movie, media);
    } else if k < rows.len() {
        assert(edit_entry(elst, k as int) == (rows[k as int].duration, rows[k as int].media_time));
    }
}

/// An `elst` of either width: the first row that shows something gives the
/// media time, and each empty row before it gives its duration, counted in
/// movie ticks there and in the track's own here, to the nearest. The rows
/// behind it give nothing, and neither does the rate.
///
/// Left out are lists whose empty edits come to more than an `i64` holds.
pub proof fn law_an_elst_reads_back(
    version: u8,
    flags: u32,
    rows: Seq<EditRow>,
    k: nat,
    tail: Seq<u8>,
    at: u64,
    movie_timescale: u32,
    media_timescale: u32,
)
    requires
        rows.len() <= u32::MAX,
        8 + rows.len() * 20 + tail.len() <= usize::MAX,
        forall|i: int| 0 <= i < rows.len() ==> edit_row_fits(version, #[trigger] rows[i]),
        k <= rows.len(),
        forall|j: int|
            0 <= j < k ==> (#[trigger] rows[j]).media_time < 0 && rows[j].duration >= 0,
        k < rows.len() ==> rows[k as int].media_time >= 0,
        movie_timescale > 0,
        2 * (sum(rows.map_values(|row: EditRow| row.duration as int), k) * media_timescale) + k
            * movie_timescale <= 2 * (i64::MAX * movie_timescale),
    ensures
        ({
            let edit = edit_spec(
                elst_body(version, flags, rows, tail),
                at,
                movie_timescale,
                media_timescale,
            );
            &&& edit is Ok
            &&& edit->Ok_0.media_time == (if k < rows.len() {
                Some(rows[k as int].media_time)
            } else {
                None
            })
            &&& k == 0 ==> edit->Ok_0.empty == 0
            &&& k == 1 ==> same_time(
                edit->Ok_0.empty as int,
                media_timescale,
                rows[0].duration as int,
                movie_timescale,
            )
            &&& exists|ticks: Seq<int>|
                ticks.len() == k && edit->Ok_0.empty == #[trigger] sum(ticks, k) && forall|j: int|
                    0 <= j < k ==> same_time(
                        #[trigger] ticks[j],
                        media_timescale,
                        rows[j].duration as int,
                        movie_timescale,
                    )
        }),
{
    let elst = elst_body(version, flags, rows, tail);
    let durations = rows.map_values(|row: EditRow| row.duration as int);
    let movie = movie_timescale;
    let media = media_timescale;
    let ticks = Seq::new(
        k,
        |j: int| rescale(rows[j].duration, movie as u64, media as u64) as int,
    );
    lemma_edit_rows(version, flags, rows, tail);
    lemma_empties(ticks, durations, rows, k, movie, media);
    lemma_edits(elst, rows, 0, k, ticks, movie, media);
    assert(edit_spec(elst, at, movie, media) is Ok);
    assert(k == 1 ==> sum(ticks, 1) == ticks[0]) by {
        reveal_with_fuel(sum, 2);
    }
    assert(sum(ticks, 0) == 0);
}

/// Every empty row is worth the time it says, and their sums fit an `i64`.
proof fn lemma_empties(
    ticks: Seq<int>,
    durations: Seq<int>,
    rows: Seq<EditRow>,
    k: nat,
    movie: u32,
    media: u32,
)
    requires
        k <= rows.len(),
        movie > 0,
        durations == rows.map_values(|row: EditRow| row.duration as int),
        ticks == Seq::new(
            k,
            |j: int| rescale(rows[j].duration, movie as u64, media as u64) as int,
        ),
        forall|j: int| 0 <= j < k ==> (#[trigger] rows[j]).duration >= 0,
        2 * (sum(durations, k) * media) + k * movie <= 2 * (i64::MAX * movie),
    ensures
        forall|j: int| 0 <= j < k ==> same_time(#[trigger] ticks[j], media, durations[j], movie),
        forall|j: nat| j <= k ==> 0 <= #[trigger] sum(ticks, j) <= i64::MAX,
    decreases k,
{
    if k > 0 {
        let before = (k - 1) as nat;
        let fewer = ticks.take(before as int);
        let all = sum(durations, k);
        let some = sum(durations, before);
        let d = durations[before as int];
        lemma_durations(durations, rows, before);
        assert(rows[before as int].duration >= 0);
        assert(all * media >= some * media && all * media >= d * media) by (nonlinear_arith)
            requires
                all == some + d,
                some >= 0,
                d >= 0,
                media >= 0,
        ;
        assert(k * movie == before * movie + movie) by (nonlinear_arith)
            requires
                k == before + 1,
        ;
        assert(before * movie >= 0) by (nonlinear_arith)
            requires
                before >= 0,
                movie >= 0,
        ;
        assert(fewer =~= Seq::new(
            before,
            |j: int| rescale(rows[j].duration, movie as u64, media as u64) as int,
        ));
        lemma_empties(fewer, durations, rows, before, movie, media);
        lemma_empty_part(rows[before as int].duration, movie, media);
        assert forall|j: int| 0 <= j < k implies same_time(
            #[trigger] ticks[j],
            media,
            durations[j],
            movie,
        ) by {
            if j < before {
                assert(fewer[j] == ticks[j]);
            }
        }
        assert forall|j: nat| j <= before implies #[trigger] sum(ticks, j) == sum(fewer, j) by {
            lemma_sum_front(ticks, before, j);
        }
        assert forall|j: int| 0 <= j < k implies #[trigger] durations[j] >= 0 by {
            assert(rows[j].duration >= 0);
        }
        lemma_sum_of_times(ticks, media, durations, movie, k, k);
        let s = sum(ticks, k);
        assert(sum(ticks, before) == sum(fewer, before));
        assert(0 <= s);
        assert(s <= i64::MAX) by (nonlinear_arith)
            requires
                2 * (s * movie) <= 2 * (i64::MAX * movie),
                movie > 0,
        ;
    }
}

proof fn lemma_durations(durations: Seq<int>, rows: Seq<EditRow>, n: nat)
    requires
        n <= rows.len(),
        durations == rows.map_values(|row: EditRow| row.duration as int),
        forall|j: int| 0 <= j < n ==> (#[trigger] rows[j]).duration >= 0,
    ensures
        sum(durations, n) >= 0,
    decreases n,
{
    if n > 0 {
        assert(rows[n - 1].duration >= 0);
        lemma_durations(durations, rows, (n - 1) as nat);
    }
}

proof fn lemma_sum_front(list: Seq<int>, n: nat, j: nat)
    requires
        j <= n <= list.len(),
    ensures
        sum(list, j) == sum(list.take(n as int), j),
    decreases j,
{
    if j > 0 {
        lemma_sum_front(list, n, (j - 1) as nat);
    }
}

/// An edit list that opens with one empty edit of some movie ticks and then
/// shows something gives an empty time that is that time in the track's own
/// ticks, to the nearest, for every movie timescale but zero: the two
/// timescales are told apart.
pub proof fn law_an_empty_edit_is_timed_by_the_movie(
    version: u8,
    flags: u32,
    empty: EditRow,
    shown: EditRow,
    at: u64,
    movie_timescale: u32,
    media_timescale: u32,
)
    requires
        edit_row_fits(version, empty),
        edit_row_fits(version, shown),
        empty.media_time < 0 <= shown.media_time,
        empty.duration >= 0,
        movie_timescale > 0,
        2 * (empty.duration * media_timescale) + movie_timescale <= 2 * (i64::MAX
            * movie_timescale),
    ensures
        ({
            let edit = edit_spec(
                elst_body(version, flags, seq![empty, shown], Seq::empty()),
                at,
                movie_timescale,
                media_timescale,
            );
            let e = edit->Ok_0.empty;
            &&& edit is Ok
            &&& edit->Ok_0.media_time == Some(shown.media_time)
            &&& -(movie_timescale as int) <= 2 * (e * movie_timescale - empty.duration
                * media_timescale) <= movie_timescale
        }),
{
    let rows = seq![empty, shown];
    let durations = rows.map_values(|row: EditRow| row.duration as int);
    assert(sum(durations, 1) == empty.duration) by {
        reveal_with_fuel(sum, 2);
    }
    law_an_elst_reads_back(
        version,
        flags,
        rows,
        1,
        Seq::empty(),
        at,
        movie_timescale,
        media_timescale,
    );
}

// ------------------------------------------------------------------ //
// The sample entry.
// ------------------------------------------------------------------ //
/// The box a sample entry keeps its configuration in, by the four characters
/// of either.
pub proof fn law_where_a_configuration_is(kind: [u8; 4])
    ensures
        ({
            let avc = kind == [0x61u8, 0x76, 0x63, 0x31] || kind == [0x61u8, 0x76, 0x63, 0x33];
            let hevc = kind == [0x68u8, 0x76, 0x63, 0x31] || kind == [0x68u8, 0x65, 0x76, 0x31];
            let av1 = kind == [0x61u8, 0x76, 0x30, 0x31];
            let aac = kind == [0x6du8, 0x70, 0x34, 0x61];
            SampleEntry::config_box_spec(kind) == (if avc {
                Some([0x61u8, 0x76, 0x63, 0x43])
            } else if hevc {
                Some([0x68u8, 0x76, 0x63, 0x43])
            } else if av1 {
                Some([0x61u8, 0x76, 0x31, 0x43])
            } else if aac {
                Some([0x65u8, 0x73, 0x64, 0x73])
            } else {
                None
            })
        }),
{
}

/// What a list of boxes that was laid out has of a kind: the payload of the
/// first.
proof fn lemma_laid_config(
    list: Seq<([u8; 4], Seq<u8>)>,
    at: u64,
    kind: [u8; 4],
    i: int,
    max: usize,
)
    requires
        forall|j: int| 0 <= j < list.len() ==> fits(#[trigger] list[j].1),
        at + laid(list).len() <= u64::MAX,
        list.len() <= max,
        0 <= i <= list.len(),
        i < list.len() ==> list[i].0 == kind,
        forall|j: int| 0 <= j < i ==> (#[trigger] list[j]).0 != kind,
    ensures
        children_spec(laid(list), at, max) == Ok::<_, Error>(placed(list, at as int)),
        found(placed(list, at as int), kind) == (if i < list.len() {
            Some(list[i].1)
        } else {
            None
        }),
{
    law_children_read_back(list, at, max);
    if i < list.len() {
        lemma_found(list, at as int, kind, i);
    } else {
        lemma_not_found(list, at as int, kind);
    }
}

/// A visual sample entry reads as it was written: the picture size behind 24
/// bytes of other fields, and the payload of the first box of the kind its
/// configuration is kept in behind another 50, or nothing where there is none.
pub proof fn law_a_visual_entry_reads_back(
    kind: [u8; 4],
    wanted: [u8; 4],
    before: Seq<u8>,
    width: u16,
    height: u16,
    after: Seq<u8>,
    list: Seq<([u8; 4], Seq<u8>)>,
    i: int,
    at: u64,
    limits: Limits,
)
    requires
        SampleEntry::config_box_spec(kind) == Some(wanted),
        wanted != [0x65u8, 0x73, 0x64, 0x73],
        before.len() == 24,
        after.len() == 50,
        forall|j: int| 0 <= j < list.len() ==> fits(#[trigger] list[j].1),
        at + 78 + laid(list).len() <= u64::MAX,
        list.len() <= limits.max_children,
        0 <= i <= list.len(),
        i < list.len() ==> list[i].0 == wanted,
        forall|j: int| 0 <= j < i ==> (#[trigger] list[j]).0 != wanted,
    ensures
        coding_spec(
            Kid { kind, body: before + enc16(width) + enc16(height) + after + laid(list), at },
            limits,
        ) == Ok::<_, Error>(
            Coding {
                kind,
                config: if i < list.len() {
                    list[i].1
                } else {
                    Seq::empty()
                },
                visual: Some(Visual { width: width as u32, height: height as u32 }),
                audio: None,
            },
        ),
{
    broadcast use group_enc_len;

    let kids = laid(list);
    let body = before + enc16(width) + enc16(height) + after + kids;
    assert(body =~= before + enc16(width) + (enc16(height) + after + kids));
    lemma_stands_between(before, enc16(width), enc16(height) + after + kids);
    lemma_half_stands(body, 24, width);
    assert(body =~= (before + enc16(width)) + enc16(height) + (after + kids));
    lemma_stands_between(before + enc16(width), enc16(height), after + kids);
    lemma_half_stands(body, 26, height);
    assert(body.skip(78) =~= kids);
    lemma_laid_config(list, (at + 78) as u64, wanted, i, limits.max_children);
}

/// An `mp4a` sample entry reads as it was written: the channels behind 16
/// bytes of other fields, the rate's whole part behind another six, and the
/// payload of the first `esds`, less its `FullBox` opening.
pub proof fn law_an_audio_entry_reads_back(
    kind: [u8; 4],
    before: Seq<u8>,
    channels: u16,
    between: Seq<u8>,
    rate: u16,
    after: Seq<u8>,
    list: Seq<([u8; 4], Seq<u8>)>,
    i: int,
    version: u8,
    flags: u32,
    config: Seq<u8>,
    at: u64,
    limits: Limits,
)
    requires
        kind == [0x6du8, 0x70, 0x34, 0x61],
        before.len() == 16,
        between.len() == 6,
        after.len() == 2,
        forall|j: int| 0 <= j < list.len() ==> fits(#[trigger] list[j].1),
        at + 28 + laid(list).len() <= u64::MAX,
        list.len() <= limits.max_children,
        0 <= i <= list.len(),
        i < list.len() ==> list[i] == (
            [0x65u8, 0x73, 0x64, 0x73],
            full_body(version, flags, config),
        ),
        forall|j: int| 0 <= j < i ==> (#[trigger] list[j]).0 != [0x65u8, 0x73, 0x64, 0x73],
    ensures
        coding_spec(
            Kid {
                kind,
                body: before + enc16(channels) + between + enc16(rate) + after + laid(list),
                at,
            },
            limits,
        ) == Ok::<_, Error>(
            Coding {
                kind,
                config: if i < list.len() {
                    config
                } else {
                    Seq::empty()
                },
                visual: None,
                audio: Some(Audio { sample_rate: rate as u32, channels: channels as u32 }),
            },
        ),
{
    broadcast use group_enc_len;

    let kids = laid(list);
    let body = before + enc16(channels) + between + enc16(rate) + after + kids;
    assert(body =~= before + enc16(channels) + (between + enc16(rate) + after + kids));
    lemma_stands_between(before, enc16(channels), between + enc16(rate) + after + kids);
    lemma_half_stands(body, 16, channels);
    let front = before + enc16(channels) + between;
    assert(body =~= front + enc16(rate) + (after + kids));
    lemma_stands_between(front, enc16(rate), after + kids);
    lemma_half_stands(body, 24, rate);
    assert(body.skip(28) =~= kids);
    lemma_laid_config(list, (at + 28) as u64, [0x65u8, 0x73, 0x64, 0x73], i, limits.max_children);
    law_full_box_reads_back(version, flags, config);
    law_full_box_reads_back(version, flags, Seq::empty());
    assert(full_body(version, flags, config).skip(4) =~= config);
}

/// A sample entry of a kind this crate does not carry is named, and nothing
/// else is said of it.
pub proof fn law_another_entry_is_named(kind: [u8; 4], body: Seq<u8>, at: u64, limits: Limits)
    requires
        SampleEntry::config_box_spec(kind) is None,
    ensures
        coding_spec(Kid { kind, body, at }, limits) == Ok::<_, Error>(
            Coding { kind, config: Seq::empty(), visual: None, audio: None },
        ),
{
}

/// An `stsd` gives the first of its sample entries, and one that has none is
/// refused.
pub proof fn law_an_stsd_gives_its_first_entry(
    version: u8,
    flags: u32,
    count: u32,
    list: Seq<([u8; 4], Seq<u8>)>,
    at: u64,
    limits: Limits,
)
    requires
        forall|j: int| 0 <= j < list.len() ==> fits(#[trigger] list[j].1),
        at + 8 + laid(list).len() <= u64::MAX,
        list.len() <= limits.max_children,
        count * 8 <= laid(list).len(),
        8 + laid(list).len() <= usize::MAX,
    ensures
        ({
            let read = sample_entry_spec(
                full_body(version, flags, enc32(count) + laid(list)),
                at,
                limits,
            );
            &&& count == 0 || list.len() == 0 ==> read is Err
            &&& count > 0 && list.len() > 0 ==> read == coding_spec(
                Kid { kind: list[0].0, body: list[0].1, at: (at + 16) as u64 },
                limits,
            )
        }),
{
    broadcast use group_enc_len;

    let kids = laid(list);
    let body = full_body(version, flags, enc32(count) + kids);
    let opening = full_body(version, flags, Seq::empty());
    law_full_box_reads_back(version, flags, Seq::empty());
    assert(body =~= opening + enc32(count) + kids);
    lemma_stands_between(opening, enc32(count), kids);
    lemma_word_stands(body, 4, count);
    assert(body.skip(8) =~= kids);
    law_children_read_back(list, (at + 8) as u64, limits.max_children);
}

// ------------------------------------------------------------------ //
// The defaults of a fragment's samples.
// ------------------------------------------------------------------ //
/// A `trex`: the track, its sample description, and what a sample that says
/// nothing has.
pub open spec fn trex_body(
    version: u8,
    flags: u32,
    track_id: u32,
    index: u32,
    defaults: TrexDefaults,
    tail: Seq<u8>,
) -> Seq<u8> {
    full_body(
        version,
        flags,
        enc32(track_id) + enc32(index) + enc32(defaults.duration) + enc32(defaults.size) + enc32(
            defaults.flags,
        ) + tail,
    )
}

/// A `trex` reads as the defaults it was written with, for its own track and
/// no other.
pub proof fn law_a_trex_reads_back(
    version: u8,
    flags: u32,
    track_id: u32,
    index: u32,
    defaults: TrexDefaults,
    tail: Seq<u8>,
    at: u64,
    wanted: u32,
)
    ensures
        trex_spec(trex_body(version, flags, track_id, index, defaults, tail), at, wanted) == Ok::<
            _,
            Error,
        >(
            if wanted == track_id {
                Some(defaults)
            } else {
                None
            },
        ),
{
    broadcast use group_enc_len;

    let body = trex_body(version, flags, track_id, index, defaults, tail);
    let opening = full_body(version, flags, Seq::empty());
    law_full_box_reads_back(version, flags, Seq::empty());
    let p0 = enc32(track_id);
    let p1 = enc32(index);
    let p2 = enc32(defaults.duration);
    let p3 = enc32(defaults.size);
    let p4 = enc32(defaults.flags);
    assert(body =~= opening + p0 + (p1 + p2 + p3 + p4 + tail));
    lemma_stands_between(opening, p0, p1 + p2 + p3 + p4 + tail);
    lemma_word_stands(body, 4, track_id);
    let front = opening + p0 + p1;
    assert(body =~= front + p2 + (p3 + p4 + tail));
    lemma_stands_between(front, p2, p3 + p4 + tail);
    lemma_word_stands(body, 12, defaults.duration);
    assert(body =~= (front + p2) + p3 + (p4 + tail));
    lemma_stands_between(front + p2, p3, p4 + tail);
    lemma_word_stands(body, 16, defaults.size);
    assert(body =~= (front + p2 + p3) + p4 + tail);
    lemma_stands_between(front + p2 + p3, p4, tail);
    lemma_word_stands(body, 20, defaults.flags);
}

/// A track's defaults are those of the first `trex` with its number, and of
/// none before it; where no `trex` has it they are all zero.
pub proof fn law_a_track_has_its_own_defaults(list: Seq<Kid>, track_id: u32, i: int)
    requires
        0 <= i <= list.len(),
        forall|j: int|
            0 <= j < i ==> (#[trigger] list[j]).kind != [0x74u8, 0x72, 0x65, 0x78] || trex_spec(
                list[j].body,
                list[j].at,
                track_id,
            ) == Ok::<Option<TrexDefaults>, Error>(None),
        i < list.len() ==> list[i].kind == [0x74u8, 0x72, 0x65, 0x78] && (trex_spec(
            list[i].body,
            list[i].at,
            track_id,
        ) matches Ok(Some(_))),
    ensures
        trex_among(list, track_id) == Ok::<_, Error>(
            if i < list.len() {
                trex_spec(list[i].body, list[i].at, track_id)->Ok_0.unwrap()
            } else {
                TrexDefaults { duration: 0, size: 0, flags: 0 }
            },
        ),
    decreases i,
{
    if i > 0 {
        let rest = list.drop_first();
        assert(list[0].kind != [0x74u8, 0x72, 0x65, 0x78] || trex_spec(
            list[0].body,
            list[0].at,
            track_id,
        ) == Ok::<Option<TrexDefaults>, Error>(None));
        assert forall|j: int| 0 <= j < i - 1 implies (#[trigger] rest[j]).kind != [
            0x74u8,
            0x72,
            0x65,
            0x78,
        ] || trex_spec(rest[j].body, rest[j].at, track_id) == Ok::<Option<TrexDefaults>, Error>(
            None,
        ) by {
            assert(rest[j] == list[j + 1]);
        }
        law_a_track_has_its_own_defaults(rest, track_id, i - 1);
    }
}

// ------------------------------------------------------------------ //
// What is refused.
// ------------------------------------------------------------------ //
/// The boxes that describe a track are refused where they are cut short, and
/// only there, but for a timescale of zero and an edit list whose count is
/// more than its rows, which break a rule.
pub proof fn law_which_track_boxes_are_refused(
    body: Seq<u8>,
    at: u64,
    track_id: u32,
    movie: u32,
    media: u32,
)
    requires
        body.len() <= usize::MAX,
    ensures
        ({
            let past = if body[0] == 1 {
                24nat
            } else {
                16
            };
            let row = if body[0] == 1 {
                20nat
            } else {
                12
            };
            let edit = edit_spec(body, at, movie, media);
            let trex = trex_spec(body, at, track_id);
            &&& after_times_spec(body, at) is Ok <==> body.len() >= past
            &&& body.len() < past ==> cut_short(after_times_spec(body, at))
            &&& body.len() < past ==> cut_short(mvhd_spec(body, at)) && cut_short(
                mdhd_spec(body, at),
            )
            &&& body.len() >= past ==> mvhd_spec(body, at) is Ok
            &&& body.len() >= past && mdhd_spec(body, at) is Err ==> broken(mdhd_spec(body, at))
            &&& handler_spec(body, at) is Ok <==> body.len() >= 12
            &&& handler_spec(body, at) is Err ==> cut_short(handler_spec(body, at))
            &&& visual_spec(body, at) is Ok <==> body.len() >= 28
            &&& visual_spec(body, at) is Err ==> cut_short(visual_spec(body, at))
            &&& audio_spec(body, at) is Ok <==> body.len() >= 26
            &&& audio_spec(body, at) is Err ==> cut_short(audio_spec(body, at))
            &&& body.len() >= 24 ==> trex is Ok
            &&& body.len() < 8 ==> trex is Err
            &&& trex is Err ==> cut_short(trex)
            &&& body.len() < 8 ==> cut_short(edit)
            &&& body.len() >= 8 && edit is Err ==> broken(edit)
            &&& body.len() >= 8 ==> (edit is Ok <==> be32(body, 4) * row <= body.len() - 8)
        }),
{
}

} // verus!
