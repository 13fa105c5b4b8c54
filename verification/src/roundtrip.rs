//! What the writer writes, the reader reads.
//!
//! Nothing here runs. It states, of the bytes [`crate::mux`] makes, what
//! [`crate::track`] and [`crate::fragment`] make of them.

use vstd::prelude::*;

use crate::be::{
    be16, be24, be32, be64, enc16, enc24, enc32, enc64, group_enc_len, kind_at, lemma_enc16,
    lemma_enc32, lemma_enc64, lemma_same16, lemma_same32, lemma_same64, lemma_signed32,
    unsigned32, zeros,
};
use crate::boxes::{
    boxed_spec, children_spec, first_of, fits, found, full_body, group_box_len, header_in, laid,
    law_built_header_reads_back, law_children_read_back, law_full_box_reads_back,
    law_header_needs_no_more, lemma_boxed_len, lemma_found, lemma_header_in, lemma_laid,
    lemma_not_found, place_of, placed, table_len, Kid,
};
use crate::codes::{
    EDTS, ESDS, FTYP, HDLR, MDAT, MDHD, MDIA, MFHD, MINF, MOOF, MOOV, MP4A, MVEX, MVHD, STBL,
    STSD, STSZ, TFDT, TFHD, TKHD, TRAF, TRAK, TREX, TRUN,
};
use crate::error::Error;
use crate::fragment::{
    bytes_before, data_offset_spec, first_flags, first_flags_at, fragment_spec, moof_bounds,
    moof_spec, row_len, rows_at, rows_spec, run_after, run_sample, run_samples, runs_after,
    sample_bytes_spec, set_in, tfdt_spec, tfhd_spec, traf_spec, trafs_after, trun_count_spec,
    trun_entry, trun_spec, Entry, Reach, Tfhd, NON_SYNC,
};
use crate::limits::Limits;
use crate::mux::{
    audio_fixed, data_of, entries_of, entry_body, esds_spec, fixed_channels, fixed_rate, fresh,
    held, law_moof_len, law_the_sync_flag_is_the_packets, law_the_timeline_is_shifted_once,
    lemma_entry_len, lemma_push_settles, lemma_rows_len, moof_boxes, moof_bytes, moof_len,
    refusal, row, rows, settled_with, traf_boxes, trun_payload, visual_fixed, Boxes, Content,
    Mode, Mux, Packet, Plan, Ready, TrunEntry, Waiting,
};
use crate::scanner::{
    flags_among, holdable, law_a_box_joins_the_init_segment, law_a_fragment_is_cut,
    law_the_first_moof_cuts_the_init_segment, moof_summary_spec, run_first_flags,
    sequence_spec, summary_after, traf_flags_spec, Cut, MoofSummary, OpenEnded, Phase, Scan,
};
use crate::tables::{entry_count_spec, stbl_no_room, stsz_spec, words_spec, Widths};
use crate::track::{
    after_times_spec, all_spec, coding_spec, content_spec, defaults_spec, described,
    from_init_spec, handler_spec, init_no_room, inside, mdhd_spec, mdia_spec, media_spec,
    moov_no_room, movie_timescale_spec, mvhd_spec, numbered, sample_entry_spec, stbl_of_spec,
    track_edit_spec, track_id_spec, trak_no_room, trak_spec, traks_among, traks_no_room,
    trex_spec, Audio, Coding, Edit, Handler, Reel, Sample, SampleEntry, TrexDefaults, Visual,
};

verus! {

// ------------------------------------------------------------------ //
// Boxes in a list.
// ------------------------------------------------------------------ //
/// A box of a list is shorter than the list laid out.
pub proof fn lemma_laid_holds(list: Boxes, i: int)
    requires
        0 <= i < list.len(),
    ensures
        list[i].1.len() + 8 <= laid(list).len(),
    decreases list.len(),
{
    broadcast use group_box_len;

    if i > 0 {
        assert(list.drop_first()[i - 1] == list[i]);
        lemma_laid_holds(list.drop_first(), i - 1);
    }
}

/// The children of a list of boxes that was laid out, where it all fits.
proof fn lemma_children(list: Boxes, at: u64, max: usize)
    requires
        laid(list).len() < 0x1_0000_0000,
        at + laid(list).len() <= u64::MAX,
        list.len() <= max,
    ensures
        children_spec(laid(list), at, max) == Ok::<_, Error>(placed(list, at as int)),
{
    assert forall|i: int| 0 <= i < list.len() implies fits(#[trigger] list[i].1) by {
        lemma_laid_holds(list, i);
    }
    law_children_read_back(list, at, max);
}

/// A list of boxes inside a box of another list is found there, and is its
/// children.
proof fn lemma_nested(list: Boxes, at: int, kind: [u8; 4], i: int, inner: Boxes, limits: Limits)
    requires
        0 <= i < list.len(),
        list[i] == (kind, laid(inner)),
        forall|j: int| 0 <= j < i ==> (#[trigger] list[j]).0 != kind,
        laid(inner).len() < 0x1_0000_0000,
        inner.len() <= limits.max_children,
        0 <= at,
        at + laid(list).len() <= u64::MAX,
    ensures
        first_of(placed(list, at), kind) matches Some(kid) && inside(kid, limits) == Ok::<_, Error>(
            placed(inner, place_of(list, at, i)),
        ),
        at + 8 <= place_of(list, at, i),
        place_of(list, at, i) + laid(inner).len() <= at + laid(list).len(),
{
    lemma_found(list, at, kind, i);
    lemma_children(inner, place_of(list, at, i) as u64, limits.max_children);
}

// ------------------------------------------------------------------ //
// Numbers among bytes.
// ------------------------------------------------------------------ //
proof fn lemma_word_at(a: Seq<u8>, v: u32, b: Seq<u8>)
    ensures
        be32(a + enc32(v) + b, a.len() as int) == v,
{
    broadcast use group_enc_len;

    lemma_enc32(v);
    lemma_same32(a + enc32(v) + b, a.len() as int, enc32(v), 0);
}

proof fn lemma_half_at(a: Seq<u8>, v: u16, b: Seq<u8>)
    ensures
        be16(a + enc16(v) + b, a.len() as int) == v,
{
    broadcast use group_enc_len;

    lemma_enc16(v);
    lemma_same16(a + enc16(v) + b, a.len() as int, enc16(v), 0);
}

proof fn lemma_long_at(a: Seq<u8>, v: u64, b: Seq<u8>)
    ensures
        be64(a + enc64(v) + b, a.len() as int) == v,
{
    broadcast use group_enc_len;

    lemma_enc64(v);
    lemma_same64(a + enc64(v) + b, a.len() as int, enc64(v), 0);
}

/// A word that is all zero bytes is zero.
proof fn lemma_zero_word(s: Seq<u8>, i: int)
    requires
        0 <= i,
        i + 4 <= s.len(),
        s[i] == 0 && s[i + 1] == 0 && s[i + 2] == 0 && s[i + 3] == 0,
    ensures
        be32(s, i) == 0,
{
    reveal(be32);
}

// ------------------------------------------------------------------ //
// The headers of the init segment.
// ------------------------------------------------------------------ //
/// A word behind the two times of a header of version 0.
proof fn lemma_after_times(flags: u32, v: u32, rest: Seq<u8>, at: u64)
    ensures
        after_times_spec(full_body(0, flags, zeros(8) + enc32(v) + rest), at) == Ok::<_, Error>(v),
{
    broadcast use group_enc_len;

    let payload = zeros(8) + enc32(v) + rest;
    let body = full_body(0, flags, payload);
    let front = seq![0u8] + enc24(flags) + zeros(8);
    assert(body =~= front + enc32(v) + rest);
    lemma_word_at(front, v, rest);
    assert(body[0] == 0);
}

proof fn lemma_mvhd(plan: Plan, at: u64)
    requires
        1 <= plan.movie_timescale,
    ensures
        mvhd_spec(full_body(0, 0, plan.mvhd()), at) == Ok::<_, Error>(plan.movie_timescale),
{
    broadcast use group_enc_len;

    let rest = plan.mvhd().skip(12);
    assert(plan.mvhd() =~= zeros(8) + enc32(plan.movie_timescale) + rest);
    lemma_after_times(0, plan.movie_timescale, rest, at);
}

proof fn lemma_mdhd(plan: Plan, at: u64)
    requires
        1 <= plan.timescale,
    ensures
        mdhd_spec(full_body(0, 0, plan.mdhd()), at) == Ok::<_, Error>(plan.timescale),
{
    broadcast use group_enc_len;

    let rest = plan.mdhd().skip(12);
    assert(plan.mdhd() =~= zeros(8) + enc32(plan.timescale) + rest);
    lemma_after_times(0, plan.timescale, rest, at);
}

proof fn lemma_tkhd(plan: Plan, at: u64)
    ensures
        after_times_spec(full_body(0, 3, plan.tkhd()), at) == Ok::<_, Error>(plan.track_id),
{
    broadcast use group_enc_len;

    let rest = plan.tkhd().skip(12);
    assert(plan.tkhd() =~= zeros(8) + enc32(plan.track_id) + rest);
    lemma_after_times(3, plan.track_id, rest, at);
}

/// What a track carries, as a handler.
pub open spec fn handler_of_content(content: Content) -> Handler {
    match content {
        Content::Video { .. } => Handler::Video,
        Content::Audio { .. } => Handler::Audio,
    }
}

proof fn lemma_hdlr(plan: Plan, at: u64)
    ensures
        handler_spec(full_body(0, 0, plan.hdlr()), at) == Ok::<_, Error>(
            handler_of_content(plan.content),
        ),
{
    broadcast use {group_enc_len, group_box_len};

    let body = full_body(0, 0, plan.hdlr());
    match plan.content {
        Content::Video { .. } => {
            assert(kind_at(body, 8) =~= crate::codes::VIDE);
        },
        Content::Audio { .. } => {
            assert(kind_at(body, 8) =~= crate::codes::SOUN);
        },
    }
}

proof fn lemma_trex(plan: Plan, at: u64)
    ensures
        trex_spec(full_body(0, 0, enc32(plan.track_id) + enc32(1) + zeros(12)), at, plan.track_id)
            == Ok::<_, Error>(Some(TrexDefaults::absent())),
{
    broadcast use group_enc_len;

    let payload = enc32(plan.track_id) + enc32(1) + zeros(12);
    let body = full_body(0, 0, payload);
    let front = seq![0u8] + enc24(0);
    assert(body =~= front + enc32(plan.track_id) + (enc32(1) + zeros(12)));
    lemma_word_at(front, plan.track_id, enc32(1) + zeros(12));
    lemma_zero_word(body, 12);
    lemma_zero_word(body, 16);
    lemma_zero_word(body, 20);
}

// ------------------------------------------------------------------ //
// The sample description and the empty tables.
// ------------------------------------------------------------------ //
/// The sample entry a track is read back with. A picture's sides are kept as
/// far as sixteen bits go; a rate past 65535 is left at zero.
pub open spec fn coding_of(content: Content) -> Coding {
    match content {
        Content::Video { kind, width, height, config } => Coding {
            kind,
            config,
            visual: Some(Visual { width: width % 0x1_0000, height: height % 0x1_0000 }),
            audio: None,
        },
        Content::Audio { sample_rate, channels, config } => Coding {
            kind: MP4A,
            config: esds_spec(config),
            visual: None,
            audio: Some(
                Audio {
                    sample_rate: if sample_rate > 0xffff {
                        0
                    } else {
                        sample_rate
                    },
                    channels: fixed_channels(channels) as u32,
                },
            ),
        },
    }
}

/// The one child of a body that is one box.
proof fn lemma_one_child(kind: [u8; 4], payload: Seq<u8>, at: u64, limits: Limits)
    requires
        fits(payload),
        at + 8 + payload.len() <= u64::MAX,
        1 <= limits.max_children,
    ensures
        children_spec(boxed_spec(kind, payload), at, limits.max_children) == Ok::<_, Error>(
            seq![Kid { kind, body: payload, at: (at + 8) as u64 }],
        ),
        found(seq![Kid { kind, body: payload, at: (at + 8) as u64 }], kind) == Some(payload),
{
    broadcast use group_box_len;

    let list = seq![(kind, payload)];
    lemma_laid(list[0], list[0], list[0], list[0], list[0]);
    lemma_children(list, at, limits.max_children);
    assert(list.drop_first() =~= Seq::empty());
    reveal_with_fuel(placed, 2);
    assert(placed(list, at as int) =~= seq![Kid { kind, body: payload, at: (at + 8) as u64 }]);
    lemma_found(list, at as int, kind, 0);
}

proof fn lemma_visual_entry(
    kind: [u8; 4],
    width: u32,
    height: u32,
    config: Seq<u8>,
    at: u64,
    limits: Limits,
)
    requires
        (Content::Video { kind, width, height, config }).carried(),
        fits(config),
        at + 86 + config.len() <= u64::MAX,
        1 <= limits.max_children,
    ensures
        ({
            let content = Content::Video { kind, width, height, config };
            coding_spec(Kid { kind, body: entry_body(content), at }, limits) == Ok::<_, Error>(
                coding_of(content),
            )
        }),
{
    broadcast use {group_enc_len, group_box_len};

    let content = Content::Video { kind, width, height, config };
    let wanted = SampleEntry::config_box_spec(kind).unwrap();
    let body = entry_body(content);
    let fixed = visual_fixed(width, height);
    let front = zeros(6) + enc16(1) + zeros(16);
    let wide = (width % 0x1_0000) as u16;
    let high = (height % 0x1_0000) as u16;
    assert(fixed.len() == 78);
    assert(front.len() == 24);
    assert(body =~= front + enc16(wide) + body.skip(26));
    lemma_half_at(front, wide, body.skip(26));
    assert(body =~= (front + enc16(wide)) + enc16(high) + body.skip(28));
    lemma_half_at(front + enc16(wide), high, body.skip(28));
    assert(body.skip(78) =~= boxed_spec(wanted, config));
    lemma_one_child(wanted, config, (at + 78) as u64, limits);
}

/// The upper half of a word that was written.
proof fn lemma_upper_half(v: u32)
    ensures
        be16(enc32(v), 0) == v / 0x1_0000,
{
    reveal(be16);
    reveal(enc32);
}

proof fn lemma_audio_entry(
    sample_rate: u32,
    channels: u32,
    config: Seq<u8>,
    at: u64,
    limits: Limits,
)
    requires
        fits(full_body(0, 0, esds_spec(config))),
        at + 40 + esds_spec(config).len() <= u64::MAX,
        1 <= limits.max_children,
    ensures
        ({
            let content = Content::Audio { sample_rate, channels, config };
            coding_spec(Kid { kind: MP4A, body: entry_body(content), at }, limits) == Ok::<
                _,
                Error,
            >(coding_of(content))
        }),
{
    broadcast use {group_enc_len, group_box_len};

    let content = Content::Audio { sample_rate, channels, config };
    let body = entry_body(content);
    let front = zeros(6) + enc16(1) + zeros(8);
    let count = fixed_channels(channels);
    let rate = fixed_rate(sample_rate);
    assert(audio_fixed(sample_rate, channels).len() == 28);
    assert(front.len() == 16);
    assert(body =~= front + enc16(count) + body.skip(18));
    lemma_half_at(front, count, body.skip(18));
    let before = front + enc16(count) + enc16(16) + zeros(4);
    assert(before.len() == 24);
    assert(body =~= before + enc32(rate) + body.skip(28));
    lemma_same16(body, 24, enc32(rate), 0);
    lemma_upper_half(rate);
    let inner = full_body(0, 0, esds_spec(config));
    assert(body.skip(28) =~= boxed_spec(ESDS, inner));
    lemma_one_child(ESDS, inner, (at + 28) as u64, limits);
    law_full_box_reads_back(0, 0, esds_spec(config));
    assert(SampleEntry::config_box_spec(MP4A) == Some(ESDS));
}

/// An `stsd` of one entry counts one and holds it.
proof fn lemma_one_entry(kind: [u8; 4], inner: Seq<u8>, at: u64)
    ensures
        ({
            let body = full_body(0, 0, enc32(1) + boxed_spec(kind, inner));
            &&& entry_count_spec(body, at, 8) == Ok::<usize, Error>(1)
            &&& body.skip(8) == boxed_spec(kind, inner)
        }),
{
    broadcast use {group_enc_len, group_box_len};

    let entry = boxed_spec(kind, inner);
    let body = full_body(0, 0, enc32(1) + entry);
    let front = seq![0u8] + enc24(0);
    assert(body =~= front + enc32(1) + entry);
    lemma_word_at(front, 1, entry);
    assert(body.skip(8) =~= entry);
}

/// A sample entry that was written reads back.
proof fn lemma_entry(content: Content, at: u64, limits: Limits)
    requires
        content.carried(),
        fits(entry_body(content)),
        at + entry_body(content).len() <= u64::MAX,
        1 <= limits.max_children,
    ensures
        coding_spec(Kid { kind: content.entry_kind(), body: entry_body(content), at }, limits)
            == Ok::<_, Error>(coding_of(content)),
{
    broadcast use {group_enc_len, group_box_len};

    match content {
        Content::Video { kind, width, height, config } => {
            lemma_visual_entry(kind, width, height, config, at, limits);
        },
        Content::Audio { sample_rate, channels, config } => {
            lemma_audio_entry(sample_rate, channels, config, at, limits);
        },
    }
}

proof fn lemma_stsd(plan: Plan, at: u64, limits: Limits)
    requires
        plan.content.carried(),
        fits(entry_body(plan.content)),
        at + 16 + entry_body(plan.content).len() <= u64::MAX,
        1 <= limits.max_children,
    ensures
        sample_entry_spec(plan.stbl()[0].1, at, limits) == Ok::<_, Error>(
            coding_of(plan.content),
        ),
{
    let kind = plan.content.entry_kind();
    let inner = entry_body(plan.content);
    assert(plan.stbl()[0].1 == full_body(0, 0, enc32(1) + boxed_spec(kind, inner)));
    lemma_first_entry(kind, inner, at, limits);
    lemma_entry(plan.content, (at + 16) as u64, limits);
}

proof fn lemma_first_entry(kind: [u8; 4], inner: Seq<u8>, at: u64, limits: Limits)
    requires
        fits(inner),
        at + 16 + inner.len() <= u64::MAX,
        1 <= limits.max_children,
    ensures
        sample_entry_spec(full_body(0, 0, enc32(1) + boxed_spec(kind, inner)), at, limits)
            == coding_spec(Kid { kind, body: inner, at: (at + 16) as u64 }, limits),
{
    let first = Kid { kind, body: inner, at: (at + 16) as u64 };
    let list = seq![first];
    lemma_one_entry(kind, inner, at);
    lemma_one_child(kind, inner, (at + 8) as u64, limits);
    assert(list[0] == first);
}

/// The children of the `stbl` of an init segment describe its one sample
/// entry and no samples.
#[verifier::rlimit(40)]
proof fn lemma_stbl(plan: Plan, at: int, limits: Limits)
    requires
        plan.content.carried(),
        fits(entry_body(plan.content)),
        0 <= at,
        at + laid(plan.stbl()).len() <= u64::MAX,
        1 <= limits.max_children,
    ensures
        content_spec(placed(plan.stbl(), at), limits) == Ok::<_, Error>(
            (coding_of(plan.content), Seq::<Sample>::empty()),
        ),
        forall|err: Error| !#[trigger] stbl_no_room(placed(plan.stbl(), at), limits, err),
{
    broadcast use {group_enc_len, group_box_len};

    let list = plan.stbl();
    lemma_found(list, at, STSD, 0);
    lemma_found(list, at, STSZ, 3);
    lemma_stsd(plan, place_of(list, at, 0) as u64, limits);
    let body = full_body(0, 0, zeros(8));
    lemma_zero_word(body, 4);
    lemma_zero_word(body, 8);
    assert(words_spec(body, 12, 0) =~= Seq::empty());
    assert(stsz_spec(body, place_of(list, at, 3) as u64, limits) == Ok::<_, Error>(
        Widths::Table(Seq::empty()),
    ));
}

// ------------------------------------------------------------------ //
// The init segment.
// ------------------------------------------------------------------ //
/// What is inside a `moov` that fits, fits.
pub proof fn lemma_all_fits(plan: Plan)
    requires
        fits(laid(plan.moov())),
    ensures
        laid(plan.trak()).len() + 8 <= laid(plan.moov()).len(),
        laid(plan.mvex()).len() + 8 <= laid(plan.moov()).len(),
        laid(plan.mdia()).len() + 8 <= laid(plan.trak()).len(),
        laid(plan.minf()).len() + 8 <= laid(plan.mdia()).len(),
        laid(plan.stbl()).len() + 8 <= laid(plan.minf()).len(),
        entry_body(plan.content).len() + 16 <= laid(plan.stbl()).len(),
{
    broadcast use {group_enc_len, group_box_len};

    lemma_laid_holds(plan.moov(), 1);
    lemma_laid_holds(plan.moov(), 2);
    lemma_laid_holds(plan.trak(), 1);
    lemma_laid_holds(plan.mdia(), 2);
    lemma_laid_holds(plan.minf(), 2);
    lemma_laid_holds(plan.stbl(), 0);
}

/// Where the children of the `stbl` are, those of the `mdia` being at `at`.
pub open spec fn stbl_place(plan: Plan, at: int) -> int {
    place_of(plan.minf(), place_of(plan.mdia(), at, 2), 2)
}

#[verifier::rlimit(40)]
proof fn lemma_minf(plan: Plan, at: int, limits: Limits)
    requires
        fits(laid(plan.moov())),
        5 <= limits.max_children,
        0 <= at,
        at + laid(plan.mdia()).len() <= u64::MAX,
    ensures
        stbl_of_spec(placed(plan.mdia(), at), limits) == Ok::<_, Error>(
            placed(plan.stbl(), stbl_place(plan, at)),
        ),
        0 <= stbl_place(plan, at),
        stbl_place(plan, at) + laid(plan.stbl()).len() <= u64::MAX,
{
    lemma_all_fits(plan);
    lemma_nested(plan.mdia(), at, MINF, 2, plan.minf(), limits);
    lemma_nested(plan.minf(), place_of(plan.mdia(), at, 2), STBL, 2, plan.stbl(), limits);
}

#[verifier::rlimit(40)]
proof fn lemma_mdia(plan: Plan, at: int, limits: Limits)
    requires
        fits(laid(plan.moov())),
        1 <= plan.timescale,
        5 <= limits.max_children,
    ensures
        media_spec(placed(plan.mdia(), at)) == Ok::<_, Error>(
            (plan.timescale, handler_of_content(plan.content)),
        ),
{
    lemma_all_fits(plan);
    lemma_found(plan.mdia(), at, MDHD, 0);
    lemma_found(plan.mdia(), at, HDLR, 1);
    lemma_mdhd(plan, place_of(plan.mdia(), at, 0) as u64);
    lemma_hdlr(plan, place_of(plan.mdia(), at, 1) as u64);
}

/// The fragment defaults of an init segment are none.
#[verifier::rlimit(40)]
proof fn lemma_mvex(plan: Plan, at: int, limits: Limits)
    requires
        fits(laid(plan.moov())),
        5 <= limits.max_children,
        0 <= at,
        at + laid(plan.moov()).len() <= u64::MAX,
    ensures
        defaults_spec(placed(plan.moov(), at), plan.track_id, limits) == Ok::<_, Error>(
            TrexDefaults::absent(),
        ),
{
    lemma_all_fits(plan);
    lemma_found(plan.moov(), at, MVEX, 2);
    let inner = place_of(plan.moov(), at, 2) as u64;
    lemma_children(plan.mvex(), inner, limits.max_children);
    lemma_trex(plan, (inner + 8) as u64);
    let list = plan.mvex();
    reveal_with_fuel(placed, 2);
    assert(list.drop_first() =~= Seq::empty());
    assert(placed(list, inner as int)[0] == Kid {
        kind: TREX,
        body: list[0].1,
        at: (inner + 8) as u64,
    });
}

/// The track a `moov` of the writer's describes.
pub open spec fn reel_of(plan: Plan) -> Reel {
    Reel {
        track_id: plan.track_id,
        handler: handler_of_content(plan.content),
        timescale: plan.timescale,
        movie_timescale: plan.movie_timescale,
        entry: coding_of(plan.content),
        defaults: TrexDefaults::absent(),
        edit: Edit::absent(),
        samples: Seq::empty(),
        start_shift: 0,
    }
}

/// Whether a muxer's track can be written and read back: its sample entry is
/// one this crate carries, its timescales are not zero, and its `moov` is
/// not longer than 32 bits can say.
pub open spec fn writable(plan: Plan) -> bool {
    &&& plan.content.carried()
    &&& 1 <= plan.timescale
    &&& 1 <= plan.movie_timescale
    &&& fits(laid(plan.moov()))
}

/// The `track_ID` the children of the `trak` say.
proof fn lemma_trak_id(plan: Plan, at: int)
    ensures
        track_id_spec(placed(plan.trak(), at)) == Ok::<_, Error>(plan.track_id),
{
    lemma_found(plan.trak(), at, TKHD, 0);
    lemma_tkhd(plan, place_of(plan.trak(), at, 0) as u64);
}

/// The edit list they do not have.
proof fn lemma_trak_edit(plan: Plan, at: int, limits: Limits)
    ensures
        track_edit_spec(placed(plan.trak(), at), plan.movie_timescale, plan.timescale, limits)
            == Ok::<_, Error>(Edit::absent()),
{
    lemma_not_found(plan.trak(), at, EDTS);
}

/// The media among them.
#[verifier::rlimit(40)]
proof fn lemma_trak_mdia(plan: Plan, at: int, limits: Limits)
    requires
        writable(plan),
        5 <= limits.max_children,
        0 <= at,
        at + laid(plan.trak()).len() <= u64::MAX,
    ensures
        mdia_spec(placed(plan.trak(), at), limits) == Ok::<_, Error>(
            Some(placed(plan.mdia(), place_of(plan.trak(), at, 1))),
        ),
        0 <= place_of(plan.trak(), at, 1),
        place_of(plan.trak(), at, 1) + laid(plan.mdia()).len() <= u64::MAX,
{
    lemma_all_fits(plan);
    lemma_nested(plan.trak(), at, MDIA, 1, plan.mdia(), limits);
}

#[verifier::rlimit(40)]
proof fn lemma_described(plan: Plan, trak: Seq<Kid>, at: int, moov_at: int, limits: Limits)
    requires
        writable(plan),
        5 <= limits.max_children,
        0 <= at,
        at + laid(plan.mdia()).len() <= u64::MAX,
        0 <= moov_at,
        moov_at + laid(plan.moov()).len() <= u64::MAX,
        track_id_spec(trak) == Ok::<_, Error>(plan.track_id),
        track_edit_spec(trak, plan.movie_timescale, plan.timescale, limits) == Ok::<_, Error>(
            Edit::absent(),
        ),
    ensures
        described(
            trak,
            placed(plan.mdia(), at),
            plan.movie_timescale,
            placed(plan.moov(), moov_at),
            limits,
        ) == Ok::<_, Error>(reel_of(plan)),
{
    lemma_all_fits(plan);
    lemma_mdia(plan, at, limits);
    lemma_minf(plan, at, limits);
    lemma_stbl(plan, stbl_place(plan, at), limits);
    lemma_mvex(plan, moov_at, limits);
}

/// Whether a `trak` reads as a track.
#[verifier::opaque]
spec fn reads_as(entry: Kid, scale: u32, moov: Seq<Kid>, limits: Limits, reel: Reel) -> bool {
    trak_spec(entry, scale, moov, limits) == Ok::<_, Error>(Some(reel))
}

/// Whether the tracks among some boxes read as they should.
#[verifier::opaque]
spec fn read_as(
    list: Seq<Kid>,
    scale: u32,
    moov: Seq<Kid>,
    limits: Limits,
    reels: Seq<Reel>,
) -> bool {
    traks_among(list, scale, moov, limits) == Ok::<_, Error>(reels)
}

#[verifier::rlimit(40)]
proof fn lemma_trak(plan: Plan, at: u64, moov_at: int, limits: Limits)
    requires
        writable(plan),
        5 <= limits.max_children,
        at + laid(plan.trak()).len() <= u64::MAX,
        0 <= moov_at,
        moov_at + laid(plan.moov()).len() <= u64::MAX,
    ensures
        reads_as(
            Kid { kind: TRAK, body: laid(plan.trak()), at },
            plan.movie_timescale,
            placed(plan.moov(), moov_at),
            limits,
            reel_of(plan),
        ),
{
    reveal(reads_as);
    lemma_all_fits(plan);
    let trak = placed(plan.trak(), at as int);
    let mdia_at = place_of(plan.trak(), at as int, 1);
    lemma_children(plan.trak(), at, limits.max_children);
    lemma_trak_mdia(plan, at as int, limits);
    lemma_trak_id(plan, at as int);
    lemma_trak_edit(plan, at as int, limits);
    lemma_described(plan, trak, mdia_at, moov_at, limits);
}

#[verifier::rlimit(40)]
proof fn lemma_trak_room(plan: Plan, at: u64, limits: Limits, err: Error)
    requires
        writable(plan),
        5 <= limits.max_children,
        at + laid(plan.trak()).len() <= u64::MAX,
    ensures
        !trak_no_room(
            Kid { kind: TRAK, body: laid(plan.trak()), at },
            plan.movie_timescale,
            limits,
            err,
        ),
{
    lemma_all_fits(plan);
    let mdia_at = place_of(plan.trak(), at as int, 1);
    lemma_children(plan.trak(), at, limits.max_children);
    lemma_trak_mdia(plan, at as int, limits);
    lemma_minf(plan, mdia_at, limits);
    lemma_stbl(plan, stbl_place(plan, mdia_at), limits);
}

/// The three children of a `moov` of the writer's.
#[verifier::rlimit(40)]
proof fn lemma_moov_kids(plan: Plan, moov_at: u64, limits: Limits)
    requires
        writable(plan),
        5 <= limits.max_children,
        moov_at + laid(plan.moov()).len() <= u64::MAX,
    ensures
        ({
            let list = plan.moov();
            let at = moov_at + 16 + list[0].1.len();
            let last = at + 8 + list[1].1.len();
            &&& children_spec(laid(list), moov_at, limits.max_children) == Ok::<_, Error>(
                placed(list, moov_at as int),
            )
            &&& at + laid(plan.trak()).len() <= u64::MAX
            &&& placed(list, moov_at as int) == seq![
                Kid { kind: MVHD, body: list[0].1, at: (moov_at + 8) as u64 },
                Kid { kind: TRAK, body: laid(plan.trak()), at: at as u64 },
                Kid { kind: MVEX, body: list[2].1, at: last as u64 },
            ]
        }),
{
    let list = plan.moov();
    lemma_children(list, moov_at, limits.max_children);
    lemma_laid(list[0], list[1], list[2], list[0], list[0]);
    lemma_boxed_len(list[0].0, list[0].1);
    lemma_boxed_len(list[1].0, list[1].1);
    lemma_boxed_len(list[2].0, list[2].1);
    let at = moov_at + 16 + list[0].1.len();
    let last = at + 8 + list[1].1.len();
    reveal_with_fuel(placed, 4);
    assert(list.drop_first() =~= seq![list[1], list[2]]);
    assert(list.drop_first().drop_first() =~= seq![list[2]]);
    assert(list.drop_first().drop_first().drop_first() =~= Seq::empty());
    assert(placed(list, moov_at as int) =~= seq![
        Kid { kind: MVHD, body: list[0].1, at: (moov_at + 8) as u64 },
        Kid { kind: TRAK, body: laid(plan.trak()), at: at as u64 },
        Kid { kind: MVEX, body: list[2].1, at: last as u64 },
    ]);
}

/// One track among three children.
proof fn lemma_one_track(
    all: Seq<Kid>,
    trak: Kid,
    scale: u32,
    moov: Seq<Kid>,
    limits: Limits,
    reel: Reel,
)
    requires
        all.len() == 3,
        all[0].kind != TRAK,
        all[1] == trak,
        trak.kind == TRAK,
        all[2].kind != TRAK,
        reads_as(trak, scale, moov, limits, reel),
    ensures
        read_as(all, scale, moov, limits, seq![reel]),
{
    reveal(reads_as);
    reveal(read_as);
    let two = all.drop_first();
    let three = two.drop_first();
    let none = three.drop_first();
    assert(traks_among(none, scale, moov, limits) == Ok::<_, Error>(Seq::<Reel>::empty()));
    assert(traks_among(three, scale, moov, limits) == Ok::<_, Error>(Seq::<Reel>::empty()));
    assert(traks_among(two, scale, moov, limits) == Ok::<_, Error>(
        seq![reel] + Seq::<Reel>::empty(),
    ));
    assert(seq![reel] + Seq::<Reel>::empty() =~= seq![reel]);
}

/// The movie timescale of a `moov` of the writer's.
#[verifier::rlimit(40)]
proof fn lemma_movie_timescale(plan: Plan, at: int)
    requires
        writable(plan),
    ensures
        movie_timescale_spec(placed(plan.moov(), at)) == Ok::<_, Error>(plan.movie_timescale),
{
    lemma_found(plan.moov(), at, MVHD, 0);
    lemma_mvhd(plan, place_of(plan.moov(), at, 0) as u64);
}

/// The tracks among its children.
proof fn lemma_moov_traks(plan: Plan, at: u64, limits: Limits)
    requires
        writable(plan),
        5 <= limits.max_children,
        at + laid(plan.moov()).len() <= u64::MAX,
    ensures
        read_as(
            placed(plan.moov(), at as int),
            plan.movie_timescale,
            placed(plan.moov(), at as int),
            limits,
            seq![reel_of(plan)],
        ),
{
    let all = placed(plan.moov(), at as int);
    lemma_moov_kids(plan, at, limits);
    let trak = Kid { kind: TRAK, body: laid(plan.trak()), at: all[1].at };
    assert(all.len() == 3 && all[0].kind == MVHD && all[1] == trak && all[2].kind == MVEX);
    lemma_trak(plan, trak.at, at as int, limits);
    lemma_one_track(all, trak, plan.movie_timescale, all, limits, reel_of(plan));
}

/// The tracks of a `moov`, its children and what they say being known.
proof fn lemma_all_of(
    moov: Seq<u8>,
    at: u64,
    list: Seq<Kid>,
    scale: u32,
    reels: Seq<Reel>,
    limits: Limits,
)
    requires
        children_spec(moov, at, limits.max_children) == Ok::<_, Error>(list),
        movie_timescale_spec(list) == Ok::<_, Error>(scale),
        read_as(list, scale, list, limits, reels),
    ensures
        all_spec(moov, at, limits) == Ok::<_, Error>(reels),
{
    reveal(read_as);
}

/// The tracks of a `moov` of the writer's: the one.
#[verifier::rlimit(40)]
proof fn lemma_moov(plan: Plan, at: u64, limits: Limits)
    requires
        writable(plan),
        5 <= limits.max_children,
        at + laid(plan.moov()).len() <= u64::MAX,
    ensures
        all_spec(laid(plan.moov()), at, limits) == Ok::<_, Error>(seq![reel_of(plan)]),
{
    lemma_moov_kids(plan, at, limits);
    lemma_movie_timescale(plan, at as int);
    lemma_moov_traks(plan, at, limits);
    lemma_all_of(
        laid(plan.moov()),
        at,
        placed(plan.moov(), at as int),
        plan.movie_timescale,
        seq![reel_of(plan)],
        limits,
    );
}

/// Of three boxes of which the second is a `trak`, only that one can be
/// refused.
proof fn lemma_one_track_room(
    all: Seq<Kid>,
    trak: Kid,
    scale: u32,
    moov: Seq<Kid>,
    limits: Limits,
    err: Error,
)
    requires
        all.len() == 3,
        all[0].kind != TRAK,
        all[1] == trak,
        all[2].kind != TRAK,
        !trak_no_room(trak, scale, limits, err),
    ensures
        !traks_no_room(all, scale, moov, limits, err),
{
    let two = all.drop_first();
    let three = two.drop_first();
    let none = three.drop_first();
    assert(!traks_no_room(none, scale, moov, limits, err));
    assert(!traks_no_room(three, scale, moov, limits, err));
    assert(!traks_no_room(two, scale, moov, limits, err));
}

/// None of its tracks has samples, so there is nothing to refuse.
#[verifier::rlimit(40)]
proof fn lemma_moov_room(plan: Plan, at: u64, limits: Limits, err: Error)
    requires
        writable(plan),
        5 <= limits.max_children,
        at + laid(plan.moov()).len() <= u64::MAX,
    ensures
        !moov_no_room(laid(plan.moov()), at, limits, err),
{
    lemma_moov_kids(plan, at, limits);
    lemma_movie_timescale(plan, at as int);
    let all = placed(plan.moov(), at as int);
    lemma_trak_room(plan, all[1].at, limits, err);
    lemma_one_track_room(all, all[1], plan.movie_timescale, all, limits, err);
}

/// The init segment a muxer writes is the one the reader reads: the track
/// comes back with the kind, the configuration record, the timescales and
/// the `track_ID` it was written with, with no edit list, no fragment
/// defaults and no samples, and with nothing for the allocator to refuse.
#[verifier::rlimit(40)]
pub proof fn law_the_init_segment_reads_back(plan: Plan)
    requires
        writable(plan),
    ensures
        from_init_spec(laid(plan.init()), Limits::usual()) == Ok::<_, Error>(reel_of(plan)),
        forall|err: Error| !#[trigger] init_no_room(laid(plan.init()), Limits::usual(), err),
{
    broadcast use {group_enc_len, group_box_len};

    let list = plan.init();
    lemma_laid(list[0], list[1], list[0], list[0], list[0]);
    assert forall|i: int| 0 <= i < list.len() implies fits(#[trigger] list[i].1) by {
        if i == 1 {
            assert(list[i].1 == laid(plan.moov()));
        }
    }
    law_children_read_back(list, 0, crate::limits::MAX_CHILDREN);
    lemma_found(list, 0, MOOV, 1);
    let at = place_of(list, 0, 1) as u64;
    lemma_moov(plan, at, Limits::usual());
    assert forall|err: Error| !#[trigger] init_no_room(
        laid(plan.init()),
        Limits::usual(),
        err,
    ) by {
        lemma_moov_room(plan, at, Limits::usual(), err);
    }
}

/// A configuration record that leaves the rest of the `moov` room in 32 bits
/// can be written.
#[verifier::rlimit(40)]
pub proof fn law_a_record_that_fits_is_writable(plan: Plan)
    requires
        plan.content.carried(),
        1 <= plan.timescale,
        1 <= plan.movie_timescale,
        plan.content.config().len() + 1024 < 0x1_0000_0000,
    ensures
        writable(plan),
{
    broadcast use {group_enc_len, group_box_len};

    lemma_entry_len(plan.content);
    let (stbl, dinf, minf) = (plan.stbl(), plan.dinf(), plan.minf());
    lemma_laid(stbl[0], stbl[1], stbl[2], stbl[3], stbl[4]);
    assert(laid(stbl).len() <= plan.content.config().len() + 220);
    lemma_laid(dinf[0], dinf[0], dinf[0], dinf[0], dinf[0]);
    assert(laid(dinf).len() == 28);
    lemma_laid(minf[0], minf[1], minf[2], minf[0], minf[0]);
    assert(laid(minf).len() <= laid(stbl).len() + 64);
    let (mdia, trak) = (plan.mdia(), plan.trak());
    lemma_laid(mdia[0], mdia[1], mdia[2], mdia[0], mdia[0]);
    assert(laid(mdia).len() <= laid(minf).len() + 90);
    lemma_laid(trak[0], trak[1], trak[0], trak[0], trak[0]);
    assert(laid(trak).len() <= laid(mdia).len() + 100);
    let (mvex, moov) = (plan.mvex(), plan.moov());
    lemma_laid(mvex[0], mvex[0], mvex[0], mvex[0], mvex[0]);
    assert(laid(mvex).len() == 32);
    lemma_laid(moov[0], moov[1], moov[2], moov[0], moov[0]);
    assert(laid(moov).len() <= laid(trak).len() + 156);
}

/// A video track comes back out of the init segment a muxer writes for it as
/// it went in: its sample entry, its record and its frame size, the time
/// base's denominator for a timescale, the `track_ID` it was given; and
/// nothing else. There is no room to be refused on the way.
#[verifier::rlimit(40)]
pub proof fn law_a_video_track_reads_back(
    kind: [u8; 4],
    width: u32,
    height: u32,
    config: Seq<u8>,
    time_base_num: i32,
    time_base_den: i32,
    track_id: u32,
)
    requires
        refusal(Content::Video { kind, width, height, config }, time_base_num, time_base_den)
            is None,
        width <= 0xffff,
        height <= 0xffff,
        config.len() + 1024 < 0x1_0000_0000,
        1 <= track_id,
    ensures
        ({
            let content = Content::Video { kind, width, height, config };
            let plan = Plan {
                track_id,
                ..fresh(content, time_base_num, time_base_den).plan
            };
            let init = laid(plan.init());
            &&& from_init_spec(init, Limits::usual()) == Ok::<_, Error>(
                Reel {
                    track_id,
                    handler: Handler::Video,
                    timescale: time_base_den as u32,
                    movie_timescale: 1000,
                    entry: Coding {
                        kind,
                        config,
                        visual: Some(Visual { width, height }),
                        audio: None,
                    },
                    defaults: TrexDefaults::absent(),
                    edit: Edit::absent(),
                    samples: Seq::empty(),
                    start_shift: 0,
                },
            )
            &&& forall|err: Error| !#[trigger] init_no_room(init, Limits::usual(), err)
        }),
{
    let content = Content::Video { kind, width, height, config };
    let plan = Plan { track_id, ..fresh(content, time_base_num, time_base_den).plan };
    law_a_record_that_fits_is_writable(plan);
    law_the_init_segment_reads_back(plan);
}

/// A file this writer wrote is not moved by an edit list: it has none.
pub proof fn law_the_writer_writes_no_edit_list(plan: Plan)
    requires
        writable(plan),
    ensures
        from_init_spec(laid(plan.init()), Limits::usual()) matches Ok(track) && track.edit
            == Edit::absent() && crate::track::edited(track).start_shift == 0,
{
    law_the_init_segment_reads_back(plan);
}

// ------------------------------------------------------------------ //
// The fragments.
// ------------------------------------------------------------------ //
/// The entries a reader finds in rows that were written.
pub open spec fn entries_read(entries: Seq<TrunEntry>) -> Seq<Entry> {
    Seq::new(
        entries.len(),
        |i: int|
            Entry {
                duration: entries[i].duration,
                size: entries[i].size,
                flags: entries[i].flags,
                composition_offset: entries[i].cts,
            },
    )
}

/// Where the row `i` is among rows that were written.
proof fn lemma_rows_at(entries: Seq<TrunEntry>, i: int)
    requires
        0 <= i < entries.len(),
    ensures
        rows(entries).len() == 16 * entries.len(),
        rows(entries).subrange(16 * i, 16 * i + 16) == row(entries[i]),
    decreases entries.len(),
{
    broadcast use group_enc_len;

    let most = entries.drop_last();
    lemma_rows_len(entries);
    lemma_rows_len(most);
    if i == entries.len() - 1 {
        assert(rows(entries).subrange(16 * i, 16 * i + 16) =~= row(entries.last()));
    } else {
        lemma_rows_at(most, i);
        assert(most[i] == entries[i]);
        assert(rows(entries).subrange(16 * i, 16 * i + 16) =~= rows(most).subrange(
            16 * i,
            16 * i + 16,
        ));
    }
}

/// The bits of the flags that a `trun` is written with.
proof fn lemma_trun_flags()
    ensures
        set_in(0xf01, 0x01),
        !set_in(0xf01, 0x04),
        set_in(0xf01, 0x100),
        set_in(0xf01, 0x200),
        set_in(0xf01, 0x400),
        set_in(0xf01, 0x800),
{
    assert(0xf01u32 & 0x01 != 0) by (bit_vector);
    assert(0xf01u32 & 0x04 == 0) by (bit_vector);
    assert(0xf01u32 & 0x100 != 0) by (bit_vector);
    assert(0xf01u32 & 0x200 != 0) by (bit_vector);
    assert(0xf01u32 & 0x400 != 0) by (bit_vector);
    assert(0xf01u32 & 0x800 != 0) by (bit_vector);
}

/// One row that was written, read.
proof fn lemma_row_reads(body: Seq<u8>, pos: nat, entry: TrunEntry, tfhd: Tfhd, trex: TrexDefaults)
    requires
        be24(body, 1) == 0xf01,
        pos + 16 <= body.len(),
        body.subrange(pos as int, pos as int + 16) == row(entry),
    ensures
        trun_entry(body, pos, None, tfhd, trex) == (Entry {
            duration: entry.duration,
            size: entry.size,
            flags: entry.flags,
            composition_offset: entry.cts,
        }),
{
    broadcast use group_enc_len;

    lemma_trun_flags();
    let at = pos as int;
    let four = row(entry);
    assert forall|k: int| 0 <= k < 16 implies body[at + k] == #[trigger] four[k] by {
        assert(body.subrange(at, at + 16)[k] == body[at + k]);
    }
    let none = Seq::<u8>::empty();
    let (a, b, c, d) = (
        enc32(entry.duration),
        enc32(entry.size),
        enc32(entry.flags),
        enc32(unsigned32(entry.cts)),
    );
    assert(four =~= none + a + (b + c + d));
    lemma_word_at(none, entry.duration, b + c + d);
    assert(four =~= a + b + (c + d));
    lemma_word_at(a, entry.size, c + d);
    assert(four =~= (a + b) + c + d);
    lemma_word_at(a + b, entry.flags, d);
    assert(four =~= (a + b + c) + d + none);
    lemma_word_at(a + b + c, unsigned32(entry.cts), none);
    lemma_signed32(entry.cts);
    lemma_same32(body, at, four, 0);
    assert forall|k: int| 0 <= k < 4 implies body[at + 4 + k] == #[trigger] four[4 + k] by {
        assert(body[at + (4 + k)] == four[4 + k]);
    }
    lemma_same32(body, at + 4, four, 4);
    assert forall|k: int| 0 <= k < 4 implies body[at + 8 + k] == #[trigger] four[8 + k] by {
        assert(body[at + (8 + k)] == four[8 + k]);
    }
    lemma_same32(body, at + 8, four, 8);
    assert forall|k: int| 0 <= k < 4 implies body[at + 12 + k] == #[trigger] four[12 + k] by {
        assert(body[at + (12 + k)] == four[12 + k]);
    }
    lemma_same32(body, at + 12, four, 12);
}

/// A `trun` that was written, read: its data is past the `moof` and the
/// header of the `mdat`, and its entries are the rows.
proof fn lemma_trun_reads(
    entries: Seq<TrunEntry>,
    at: u64,
    tfhd: Tfhd,
    trex: TrexDefaults,
    limits: Limits,
)
    requires
        entries.len() <= limits.max_samples,
        moof_len(entries.len()) + 8 < 0x8000_0000,
    ensures
        trun_spec(full_body(1, 0xf01, trun_payload(entries)), at, tfhd, trex, limits) == Ok::<
            _,
            Error,
        >((Some((moof_len(entries.len()) + 8) as i64), entries_read(entries))),
{
    broadcast use {group_enc_len, group_box_len};

    let count = entries.len() as u32;
    let offset = (moof_len(entries.len()) + 8) as u32;
    let payload = trun_payload(entries);
    let body = full_body(1, 0xf01, payload);
    let front = seq![1u8] + enc24(0xf01);
    lemma_rows_len(entries);
    lemma_trun_flags();
    law_full_box_reads_back(1, 0xf01, payload);
    assert(be24(body, 1) == 0xf01);
    assert(body =~= front + enc32(count) + (enc32(offset) + rows(entries)));
    lemma_word_at(front, count, enc32(offset) + rows(entries));
    assert(body =~= (front + enc32(count)) + enc32(offset) + rows(entries));
    lemma_word_at(front + enc32(count), offset, rows(entries));
    assert(row_len(0xf01) == 16);
    assert(rows_at(0xf01) == 12);
    assert(count as nat == entries.len());
    assert(table_len(count as nat, 16) == count as nat * 16);
    assert(trun_count_spec(body, at, limits) == Ok::<usize, Error>(count as usize));
    assert(data_offset_spec(body) == Some(offset as i64));
    let read = rows_spec(body, entries.len(), tfhd, trex);
    assert forall|i: int| 0 <= i < entries.len() implies read[i] == entries_read(entries)[i] by {
        lemma_rows_at(entries, i);
        assert(body.subrange(12 + i * 16, 12 + i * 16 + 16) =~= rows(entries).subrange(
            16 * i,
            16 * i + 16,
        ));
        lemma_row_reads(body, (12 + i * 16) as nat, entries[i], tfhd, trex);
        assert(first_flags(body, first_flags_at(0xf01)) is None);
    }
    assert(read =~= entries_read(entries));
}

/// The `tfhd` a fragment is written with, read.
proof fn lemma_tfhd_reads(track_id: u32, at: u64)
    ensures
        tfhd_spec(full_body(0, 0x02_0000, enc32(track_id)), at) == Ok::<_, Error>(
            written_tfhd(track_id),
        ),
{
    broadcast use {group_enc_len, group_box_len};

    let body = full_body(0, 0x02_0000, enc32(track_id));
    let front = seq![0u8] + enc24(0x02_0000);
    law_full_box_reads_back(0, 0x02_0000, enc32(track_id));
    assert(be24(body, 1) == 0x02_0000);
    assert(body =~= front + enc32(track_id) + Seq::<u8>::empty());
    lemma_word_at(front, track_id, Seq::empty());
    assert(0x02_0000u32 & 0x01 == 0) by (bit_vector);
    assert(0x02_0000u32 & 0x02 == 0) by (bit_vector);
    assert(0x02_0000u32 & 0x08 == 0) by (bit_vector);
    assert(0x02_0000u32 & 0x10 == 0) by (bit_vector);
    assert(0x02_0000u32 & 0x20 == 0) by (bit_vector);
    assert(0x02_0000u32 & 0x02_0000 != 0) by (bit_vector);
}

/// What the writer's `tfhd` settles: the base is the `moof`, and nothing has
/// a default.
pub open spec fn written_tfhd(track_id: u32) -> Tfhd {
    Tfhd {
        track_id,
        base_data_offset: None,
        base_is_moof: true,
        default_duration: None,
        default_size: None,
        default_flags: None,
    }
}

/// The `tfdt` a fragment is written with, read.
proof fn lemma_tfdt_reads(base: u64, at: u64)
    requires
        base <= i64::MAX,
    ensures
        tfdt_spec(full_body(1, 0, enc64(base)), at) == Ok::<_, Error>(base as i64),
{
    broadcast use {group_enc_len, group_box_len};

    let body = full_body(1, 0, enc64(base));
    let front = seq![1u8] + enc24(0);
    assert(body =~= front + enc64(base) + Seq::<u8>::empty());
    lemma_long_at(front, base, Seq::empty());
    assert(body[0] == 1);
}

/// What a reader is at after the one run of a fragment.
pub open spec fn reach_of(entries: Seq<TrunEntry>, base: u64, at: u64) -> Reach {
    let read = entries_read(entries);
    let from = (at + moof_len(entries.len()) + 8) as u64;
    Reach {
        samples: run_samples(read, from, base as i64),
        end: (from + bytes_before(read, read.len())) as u64,
        clock: crate::time::clamp64(
            base as i64 + crate::fragment::ticks_before(read, read.len()),
        ),
    }
}

/// Whether a fragment over some rows can be read back: the reader will hold
/// as many, and their positions fit.
pub open spec fn readable(entries: Seq<TrunEntry>, base: u64, at: u64) -> bool {
    let read = entries_read(entries);
    &&& entries.len() <= Limits::usual().max_samples
    &&& base <= i64::MAX
    &&& at + moof_len(entries.len()) + 8 + bytes_before(read, read.len()) <= u64::MAX
}

/// The one run behind a start at the `moof`.
proof fn lemma_run_reads(
    entries: Seq<TrunEntry>,
    base: u64,
    at: u64,
    trun_at: u64,
    track_id: u32,
    trex: TrexDefaults,
)
    requires
        readable(entries, base, at),
    ensures
        runs_after(
            Reach { samples: Seq::empty(), end: at, clock: base as i64 },
            seq![
                Kid {
                    kind: TRUN,
                    body: full_body(1, 0xf01, trun_payload(entries)),
                    at: trun_at,
                },
            ],
            written_tfhd(track_id),
            trex,
            at,
            true,
            Limits::usual(),
        ) == Ok::<_, Error>(reach_of(entries, base, at)),
{
    let body = full_body(1, 0xf01, trun_payload(entries));
    let list = seq![Kid { kind: TRUN, body, at: trun_at }];
    let start = Reach { samples: Seq::empty(), end: at, clock: base as i64 };
    let tfhd = written_tfhd(track_id);
    let limits = Limits::usual();
    lemma_trun_reads(entries, trun_at, tfhd, trex, limits);
    let read = entries_read(entries);
    let run = (Some((moof_len(entries.len()) + 8) as i64), read);
    let end = reach_of(entries, base, at);
    assert(start.samples + end.samples =~= end.samples);
    assert(run_after(start, run, at, true, trun_at, limits) == Ok::<_, Error>(end));
    assert(list.drop_first() =~= Seq::empty());
    let none = Seq::<Kid>::empty();
    assert(runs_after(end, none, tfhd, trex, at, true, limits) == Ok::<_, Error>(end));
}

/// The children of a `traf` of the writer's.
proof fn lemma_traf_kids(entries: Seq<TrunEntry>, base: u64, track_id: u32, at: u64)
    requires
        entries.len() <= Limits::usual().max_samples,
        at + laid(traf_boxes(track_id, base, entries)).len() <= u64::MAX,
    ensures
        ({
            let list = traf_boxes(track_id, base, entries);
            let kids = placed(list, at as int);
            &&& children_spec(laid(list), at, Limits::usual().max_children) == Ok::<_, Error>(kids)
            &&& kids == seq![
                Kid { kind: TFHD, body: list[0].1, at: (at + 8) as u64 },
                Kid { kind: TFDT, body: list[1].1, at: (at + 24) as u64 },
                Kid { kind: TRUN, body: list[2].1, at: (at + 44) as u64 },
            ]
        }),
{
    broadcast use {group_enc_len, group_box_len};

    let list = traf_boxes(track_id, base, entries);
    lemma_rows_len(entries);
    lemma_laid(list[0], list[1], list[2], list[0], list[0]);
    lemma_children(list, at, Limits::usual().max_children);
    reveal_with_fuel(placed, 4);
    assert(list.drop_first() =~= seq![list[1], list[2]]);
    assert(list.drop_first().drop_first() =~= seq![list[2]]);
    assert(list.drop_first().drop_first().drop_first() =~= Seq::empty());
    assert(placed(list, at as int) =~= seq![
        Kid { kind: TFHD, body: list[0].1, at: (at + 8) as u64 },
        Kid { kind: TFDT, body: list[1].1, at: (at + 24) as u64 },
        Kid { kind: TRUN, body: list[2].1, at: (at + 44) as u64 },
    ]);
}

/// The one track fragment of a fragment of the writer's.
#[verifier::rlimit(40)]
proof fn lemma_traf_reads(
    entries: Seq<TrunEntry>,
    base: u64,
    track_id: u32,
    at: u64,
    traf_at: u64,
    trex: TrexDefaults,
)
    requires
        readable(entries, base, at),
        traf_at + laid(traf_boxes(track_id, base, entries)).len() <= u64::MAX,
    ensures
        traf_spec(
            Kid { kind: TRAF, body: laid(traf_boxes(track_id, base, entries)), at: traf_at },
            at,
            true,
            at,
            Some(track_id),
            trex,
            0,
            Limits::usual(),
        ) == Ok::<_, Error>(reach_of(entries, base, at)),
{
    let list = traf_boxes(track_id, base, entries);
    let inner = placed(list, traf_at as int);
    let tfhd = written_tfhd(track_id);
    let limits = Limits::usual();
    lemma_traf_kids(entries, base, track_id, traf_at);
    let (one, two, three) = (inner[0], inner[1], inner[2]);
    assert(first_of(inner, TFHD) == Some(one));
    assert(inner.drop_first() =~= seq![two, three]);
    assert(first_of(seq![two, three], TFDT) == Some(two));
    assert(first_of(inner, TFDT) == Some(two));
    lemma_tfhd_reads(track_id, one.at);
    lemma_tfdt_reads(base, two.at);
    lemma_run_reads(entries, base, at, three.at, track_id, trex);
    let start = Reach { samples: Seq::empty(), end: at, clock: base as i64 };
    let owed = reach_of(entries, base, at);
    assert(seq![two, three].drop_first() =~= seq![three]);
    assert(runs_after(start, seq![three], tfhd, trex, at, true, limits) == Ok::<_, Error>(owed));
    assert(runs_after(start, seq![two, three], tfhd, trex, at, true, limits) == Ok::<_, Error>(
        owed,
    ));
    assert(runs_after(start, inner, tfhd, trex, at, true, limits) == Ok::<_, Error>(owed));
}

/// The `moof` of a fragment of the writer's, read.
#[verifier::rlimit(40)]
proof fn lemma_moof_reads(
    entries: Seq<TrunEntry>,
    base: u64,
    track_id: u32,
    sequence: u32,
    at: u64,
    trex: TrexDefaults,
)
    requires
        readable(entries, base, at),
    ensures
        moof_spec(
            laid(moof_boxes(track_id, sequence, base, entries)),
            at,
            (at + 8) as u64,
            Some(track_id),
            trex,
            0,
            Limits::usual(),
        ) == Ok::<_, Error>(reach_of(entries, base, at)),
{
    broadcast use {group_enc_len, group_box_len};

    let limits = Limits::usual();
    let list = moof_boxes(track_id, sequence, base, entries);
    law_moof_len(track_id, sequence, base, entries);
    lemma_laid(list[0], list[1], list[0], list[0], list[0]);
    assert(laid(list).len() == 24 + list[1].1.len());
    lemma_children(list, (at + 8) as u64, limits.max_children);
    let inner = placed(list, at + 8);
    reveal_with_fuel(placed, 3);
    assert(list.drop_first() =~= seq![list[1]]);
    assert(list.drop_first().drop_first() =~= Seq::empty());
    let one = Kid { kind: MFHD, body: list[0].1, at: (at + 16) as u64 };
    let two = Kid { kind: TRAF, body: list[1].1, at: (at + 32) as u64 };
    assert(inner =~= seq![one, two]);
    assert(inner.drop_first() =~= seq![two]);
    assert(seq![two].drop_first() =~= Seq::empty());
    lemma_traf_reads(entries, base, track_id, at, two.at, trex);
    let start = Reach { samples: Seq::empty(), end: at, clock: 0 };
    let owed = reach_of(entries, base, at);
    assert(start.samples + owed.samples =~= owed.samples);
    let none = Seq::<Kid>::empty();
    let want = Some(track_id);
    assert(trafs_after(owed, false, none, at, want, trex, limits) == Ok::<_, Error>(owed));
    assert(trafs_after(start, true, seq![two], at, want, trex, limits) == Ok::<_, Error>(owed));
}

/// A fragment of the writer's, read.
proof fn lemma_fragment_reads(
    entries: Seq<TrunEntry>,
    base: u64,
    track_id: u32,
    sequence: u32,
    mdat: Seq<u8>,
    at: u64,
    trex: TrexDefaults,
)
    requires
        readable(entries, base, at),
    ensures
        fragment_spec(moof_bytes(track_id, sequence, base, entries) + mdat, at, track_id, trex)
            == Ok::<_, Error>(numbered(reach_of(entries, base, at).samples)),
{
    let inner = laid(moof_boxes(track_id, sequence, base, entries));
    let bytes = moof_bytes(track_id, sequence, base, entries) + mdat;
    let size = moof_len(entries.len());
    law_moof_len(track_id, sequence, base, entries);
    lemma_boxed_len(MOOF, inner);
    law_built_header_reads_back(MOOF, inner, mdat, at);
    assert(bytes.subrange(8, size as int) =~= inner);
    assert(moof_bounds(bytes, at) == Ok::<_, Error>((8nat, size)));
    lemma_moof_reads(entries, base, track_id, sequence, at, trex);
}

/// Whether the rows of settled samples say how long their bytes are, which
/// every one below four gigabytes does.
pub open spec fn sizes_told(open: Seq<Ready>) -> bool {
    forall|i: int|
        0 <= i < open.len() ==> (#[trigger] open[i]).entry.size as nat == open[i].data.len()
}

/// How many bytes some of the settled samples are.
proof fn lemma_bytes_are_data(open: Seq<Ready>, i: nat)
    requires
        sizes_told(open),
        i <= open.len(),
    ensures
        bytes_before(entries_read(entries_of(open)), i) == data_of(open.take(i as int)).len(),
    decreases i,
{
    if i > 0 {
        lemma_bytes_are_data(open, (i - 1) as nat);
        assert(open.take(i as int).drop_last() =~= open.take(i - 1));
        assert(open[i - 1].entry.size as nat == open[i - 1].data.len());
    } else {
        assert(open.take(0) =~= Seq::empty());
    }
}

/// Where the bytes of a settled sample are among those of all of them.
proof fn lemma_data_at(open: Seq<Ready>, i: int)
    requires
        0 <= i < open.len(),
    ensures
        ({
            let from = data_of(open.take(i)).len() as int;
            let to = from + open[i].data.len();
            &&& to <= data_of(open).len()
            &&& data_of(open).subrange(from, to) == open[i].data
        }),
    decreases open.len(),
{
    let most = open.drop_last();
    if i == open.len() - 1 {
        assert(open.take(i) =~= most);
        let from = data_of(most).len() as int;
        assert(data_of(open).subrange(from, from + open[i].data.len()) =~= open[i].data);
    } else {
        lemma_data_at(most, i);
        assert(most.take(i) =~= open.take(i));
        let from = data_of(open.take(i)).len() as int;
        let to = from + open[i].data.len();
        assert(data_of(open).subrange(from, to) =~= data_of(most).subrange(from, to));
    }
}

/// Whether the fragment a muxer has open can be read back: its samples are
/// as many as the reader will hold, each below four gigabytes, and where
/// they end, the fragment being at `at` in its stream, is a position.
pub open spec fn readable_fragment(mux: Mux, at: u64) -> bool {
    &&& mux.open.len() > 0
    &&& mux.open.len() <= Limits::usual().max_samples
    &&& sizes_told(mux.open)
    &&& mux.open[0].base_decode_time <= i64::MAX
    &&& at + mux.piece().bytes.len() <= u64::MAX
    &&& mux.piece().bytes.len() <= usize::MAX
}

/// The sample a reader finds for the settled sample `i` of a fragment at
/// `at`: its place behind the `moof` and the header of the `mdat`, its size,
/// its decode time counted up from the fragment's own, its composition
/// offset on top, its duration, and whether a decoder may start at it.
pub open spec fn sample_read(open: Seq<Ready>, i: nat, at: u64) -> Sample {
    let read = entries_read(entries_of(open));
    let dts = crate::time::clamp64(
        open[0].base_decode_time + crate::fragment::ticks_before(read, i),
    );
    Sample {
        index: (i % 0x1_0000_0000) as u32,
        offset: (at + moof_len(open.len()) + 8 + data_of(open.take(i as int)).len()) as u64,
        size: open[i as int].data.len() as u32,
        dts,
        pts: crate::time::clamp64(dts + open[i as int].entry.cts),
        duration: open[i as int].entry.duration as i64,
        keyframe: !set_in(open[i as int].entry.flags, NON_SYNC),
    }
}

/// The fragment a muxer writes is the one the reader reads: every sample
/// comes back, in order, with the times, the size and the sync flag it was
/// written with, whatever the track's fragment defaults are.
#[verifier::rlimit(40)]
pub proof fn law_the_written_fragment_reads_back(mux: Mux, at: u64, defaults: TrexDefaults)
    requires
        readable_fragment(mux, at),
    ensures
        fragment_spec(mux.piece().bytes, at, mux.plan.track_id, defaults) matches Ok(samples)
            && samples.len() == mux.open.len() && forall|i: int|
            0 <= i < samples.len() ==> #[trigger] samples[i] == sample_read(
                mux.open,
                i as nat,
                at,
            ),
{
    let open = mux.open;
    let entries = entries_of(open);
    let read = entries_read(entries);
    let base = open[0].base_decode_time;
    let mdat = boxed_spec(MDAT, data_of(open));
    law_moof_len(mux.plan.track_id, mux.sequence, base, entries);
    lemma_boxed_len(MDAT, data_of(open));
    lemma_bytes_are_data(open, open.len());
    assert(open.take(open.len() as int) =~= open);
    assert(readable(entries, base, at));
    lemma_fragment_reads(entries, base, mux.plan.track_id, mux.sequence, mdat, at, defaults);
    let samples = numbered(reach_of(entries, base, at).samples);
    assert forall|i: int| 0 <= i < samples.len() implies #[trigger] samples[i] == sample_read(
        open,
        i as nat,
        at,
    ) by {
        lemma_bytes_are_data(open, i as nat);
        lemma_data_at(open, i);
        assert(open[i].entry.size as nat == open[i].data.len());
        let from = (at + moof_len(entries.len()) + 8) as u64;
        assert(run_samples(read, from, base as i64)[i] == run_sample(
            read,
            i as nat,
            from,
            base as i64,
        ));
    }
}

/// And its bytes are the ones that were pushed.
pub proof fn law_the_bytes_come_back(mux: Mux, at: u64, i: nat)
    requires
        readable_fragment(mux, at),
        i < mux.open.len(),
    ensures
        sample_bytes_spec(mux.piece().bytes, at, sample_read(mux.open, i, at)) == Ok::<_, Error>(
            mux.open[i as int].data,
        ),
{
    broadcast use group_enc_len;

    let open = mux.open;
    let base = open[0].base_decode_time;
    let entries = entries_of(open);
    let moof = moof_bytes(mux.plan.track_id, mux.sequence, base, entries);
    let data = data_of(open);
    let mdat = boxed_spec(MDAT, data);
    let bytes = mux.piece().bytes;
    law_moof_len(mux.plan.track_id, mux.sequence, base, entries);
    lemma_boxed_len(MDAT, data);
    lemma_data_at(open, i as int);
    assert(open[i as int].entry.size as nat == open[i as int].data.len());
    let head = (moof_len(open.len()) + 8) as int;
    let from = data_of(open.take(i as int)).len() as int;
    let to = from + open[i as int].data.len();
    assert(bytes.skip(head) =~= data);
    assert(bytes.subrange(head + from, head + to) =~= data.subrange(from, to));
}

/// Every sample that settles can be read back: a decode time the muxer took
/// is one the reader can say, and a size below four gigabytes is told.
pub proof fn law_settled_samples_can_be_read_back(
    mux: Mux,
    sample: Waiting,
    dts: i64,
    duration: i64,
)
    requires
        mux.wf(),
        sizes_told(mux.open),
        sample.data.len() < 0x1_0000_0000,
    ensures
        mux.settle(sample, dts, duration) matches Some((Ok(_), next)) ==> sizes_told(next.open)
            && next.open.last().base_decode_time <= i64::MAX && next.open.drop_last() == mux.open,
{
    if let Some((Ok(_), next)) = mux.settle(sample, dts, duration) {
        law_the_timeline_is_shifted_once(mux, sample, dts, duration);
        assert(next.open.drop_last() =~= mux.open);
        assert forall|i: int| 0 <= i < next.open.len() implies (
        #[trigger] next.open[i]).entry.size as nat == next.open[i].data.len() by {
            if i < mux.open.len() {
                assert(next.open[i] == mux.open[i]);
            }
        }
    }
}

/// Samples that each begin when the one before them is over keep their
/// decode times in a fragment of many, though only the first is written.
pub proof fn law_a_steady_group_keeps_its_decode_times(open: Seq<Ready>, i: nat, at: u64)
    requires
        i < open.len(),
        open[i as int].base_decode_time <= i64::MAX,
        forall|j: int|
            0 <= j < open.len() - 1 ==> (#[trigger] open[j]).base_decode_time
                + open[j].entry.duration == open[j + 1].base_decode_time,
    ensures
        sample_read(open, i, at).dts == open[i as int].base_decode_time,
{
    lemma_ticks_are_steps(open, i);
}

proof fn lemma_ticks_are_steps(open: Seq<Ready>, i: nat)
    requires
        i < open.len(),
        forall|j: int|
            0 <= j < open.len() - 1 ==> (#[trigger] open[j]).base_decode_time
                + open[j].entry.duration == open[j + 1].base_decode_time,
    ensures
        open[0].base_decode_time + crate::fragment::ticks_before(
            entries_read(entries_of(open)),
            i,
        ) == open[i as int].base_decode_time,
    decreases i,
{
    if i > 0 {
        lemma_ticks_are_steps(open, (i - 1) as nat);
        assert(open[i - 1].base_decode_time + open[i - 1].entry.duration
            == open[i - 1 + 1].base_decode_time);
    }
}

/// A packet comes back as it went in: one that leaves on its own push is
/// read out of its fragment as one sample with the packet's times, scaled to
/// media ticks and shifted as the stream is, its duration, its sync flag and
/// its bytes.
#[verifier::rlimit(40)]
pub proof fn law_a_packet_comes_back(mux: Mux, packet: Packet<'_>, at: u64, defaults: TrexDefaults)
    requires
        mux.wf(),
        mux.mode == Mode::PerSample,
        mux.open.len() == 0,
        mux.pending.len() == 0,
        0 < packet.data@.len() < 0x1_0000_0000,
        packet.dts is Some,
        packet.duration matches Some(own) && own > 0,
        mux.pushed(packet) matches Some((Ok(pieces), _)) && at + pieces[0].bytes.len() <= u64::MAX
            && pieces[0].bytes.len() <= usize::MAX,
    ensures
        ({
            let piece = mux.pushed(packet).unwrap().0->Ok_0[0];
            let dts = packet.dts.unwrap();
            let shift = mux.shift_for(dts);
            let scale = mux.tick_scale;
            let read = fragment_spec(piece.bytes, at, mux.plan.track_id, defaults);
            &&& read matches Ok(samples) && samples.len() == 1
            &&& read->Ok_0[0].dts == (dts + shift) * scale
            &&& read->Ok_0[0].pts == crate::time::clamp64(
                (dts + shift) * scale + (packet.pts - dts) * scale,
            )
            &&& read->Ok_0[0].duration == packet.duration.unwrap() * scale
            &&& read->Ok_0[0].keyframe == packet.keyframe
            &&& read->Ok_0[0].size == packet.data@.len()
            &&& sample_bytes_spec(piece.bytes, at, read->Ok_0[0]) == Ok::<_, Error>(packet.data@)
        }),
{
    let middle = settled_with(mux, packet);
    let own = packet.duration.unwrap();
    let dts = packet.dts.unwrap();
    lemma_push_settles(mux, packet);
    let timed = Mux { last_duration: Some(own), pending: Seq::empty(), ..mux };
    law_the_timeline_is_shifted_once(timed, held(packet), dts, own);
    law_the_sync_flag_is_the_packets(packet.keyframe);
    let open = middle.open;
    assert(open =~= seq![open[0]]);
    assert(open[0].base_decode_time == (dts + mux.shift_for(dts)) * mux.tick_scale);
    assert(sizes_told(open));
    law_the_written_fragment_reads_back(middle, at, defaults);
    law_the_bytes_come_back(middle, at, 0);
}

// ------------------------------------------------------------------ //
// Through the scanner.
// ------------------------------------------------------------------ //
/// The first sample's flags of a run of the writer's are its first row's.
proof fn lemma_run_flags(entries: Seq<TrunEntry>, at: u64, default: Option<u32>)
    requires
        0 < entries.len() <= Limits::usual().max_samples,
    ensures
        run_first_flags(full_body(1, 0xf01, trun_payload(entries)), at, default) == Ok::<_, Error>(
            Some(entries[0].flags),
        ),
{
    broadcast use {group_enc_len, group_box_len};

    let count = entries.len() as u32;
    let offset = (moof_len(entries.len()) + 8) as u32;
    let payload = trun_payload(entries);
    let body = full_body(1, 0xf01, payload);
    let front = seq![1u8] + enc24(0xf01);
    lemma_rows_len(entries);
    lemma_rows_at(entries, 0);
    lemma_trun_flags();
    law_full_box_reads_back(1, 0xf01, payload);
    assert(be24(body, 1) == 0xf01);
    assert(body =~= front + enc32(count) + (enc32(offset) + rows(entries)));
    lemma_word_at(front, count, enc32(offset) + rows(entries));
    let first = row(entries[0]);
    let two = enc32(entries[0].duration) + enc32(entries[0].size);
    assert(first =~= two + enc32(entries[0].flags) + enc32(unsigned32(entries[0].cts)));
    lemma_word_at(two, entries[0].flags, enc32(unsigned32(entries[0].cts)));
    assert forall|k: int| 0 <= k < 4 implies body[20 + k] == #[trigger] first[8 + k] by {
        assert(rows(entries).subrange(0, 16)[8 + k] == rows(entries)[8 + k]);
    }
    lemma_same32(body, 20, first, 8);
}

/// What the scanner says of a `moof` of the writer's: its sequence number,
/// and whether its first sample is a sync sample.
#[verifier::rlimit(40)]
proof fn lemma_summary(
    entries: Seq<TrunEntry>,
    base: u64,
    track_id: u32,
    sequence: u32,
    at: u64,
)
    requires
        0 < entries.len() <= Limits::usual().max_samples,
        at + moof_len(entries.len()) <= u64::MAX,
    ensures
        moof_summary_spec(moof_bytes(track_id, sequence, base, entries), at) == Ok::<_, Error>(
            MoofSummary {
                sequence: Some(sequence),
                first_sample_keyframe: Some(!set_in(entries[0].flags, NON_SYNC)),
            },
        ),
{
    broadcast use {group_enc_len, group_box_len};

    let list = moof_boxes(track_id, sequence, base, entries);
    let inner = laid(list);
    let bytes = moof_bytes(track_id, sequence, base, entries);
    law_moof_len(track_id, sequence, base, entries);
    law_built_header_reads_back(MOOF, inner, Seq::empty(), at);
    assert(bytes + Seq::<u8>::empty() =~= bytes);
    assert(bytes.skip(8) =~= inner);
    lemma_laid(list[0], list[1], list[0], list[0], list[0]);
    lemma_children(list, (at + 8) as u64, Limits::usual().max_children);
    let kids = placed(list, at + 8);
    reveal_with_fuel(placed, 3);
    assert(list.drop_first() =~= seq![list[1]]);
    assert(list.drop_first().drop_first() =~= Seq::empty());
    let one = Kid { kind: MFHD, body: list[0].1, at: (at + 16) as u64 };
    let two = Kid { kind: TRAF, body: list[1].1, at: (at + 32) as u64 };
    assert(kids =~= seq![one, two]);
    lemma_traf_flags(entries, base, track_id, two.at);
    lemma_sequence(sequence, one.at);
    lemma_two_kids(one, two, sequence, entries[0].flags);
}

proof fn lemma_sequence(sequence: u32, at: u64)
    ensures
        sequence_spec(full_body(0, 0, enc32(sequence)), at) == Ok::<_, Error>(sequence),
{
    broadcast use {group_enc_len, group_box_len};

    let front = seq![0u8] + enc24(0);
    let body = full_body(0, 0, enc32(sequence));
    assert(body =~= front + enc32(sequence) + Seq::<u8>::empty());
    lemma_word_at(front, sequence, Seq::empty());
}

proof fn lemma_two_kids(one: Kid, two: Kid, sequence: u32, flags: u32)
    requires
        one.kind == MFHD,
        two.kind == TRAF,
        sequence_spec(one.body, one.at) == Ok::<_, Error>(sequence),
        traf_flags_spec(two) == Ok::<_, Error>(Some(flags)),
    ensures
        summary_after(
            MoofSummary { sequence: None, first_sample_keyframe: None },
            seq![one, two],
        ) == Ok::<_, Error>(
            MoofSummary {
                sequence: Some(sequence),
                first_sample_keyframe: Some(!set_in(flags, NON_SYNC)),
            },
        ),
{
    let known = MoofSummary { sequence: Some(sequence), first_sample_keyframe: None };
    let done = MoofSummary {
        sequence: Some(sequence),
        first_sample_keyframe: Some(!set_in(flags, NON_SYNC)),
    };
    assert(seq![one, two].drop_first() =~= seq![two]);
    assert(seq![two].drop_first() =~= Seq::empty());
    assert(summary_after(done, Seq::<Kid>::empty()) == Ok::<_, Error>(done));
    assert(summary_after(known, seq![two]) == Ok::<_, Error>(done));
}

proof fn lemma_traf_flags(entries: Seq<TrunEntry>, base: u64, track_id: u32, at: u64)
    requires
        0 < entries.len() <= Limits::usual().max_samples,
        at + laid(traf_boxes(track_id, base, entries)).len() <= u64::MAX,
    ensures
        traf_flags_spec(
            Kid { kind: TRAF, body: laid(traf_boxes(track_id, base, entries)), at },
        ) == Ok::<_, Error>(Some(entries[0].flags)),
{
    let inner = placed(traf_boxes(track_id, base, entries), at as int);
    lemma_traf_kids(entries, base, track_id, at);
    let (one, two, three) = (inner[0], inner[1], inner[2]);
    lemma_tfhd_reads(track_id, one.at);
    lemma_run_flags(entries, three.at, None);
    assert(inner.drop_first() =~= seq![two, three]);
    assert(seq![two, three].drop_first() =~= seq![three]);
    assert(flags_among(seq![three], None) == Ok::<_, Error>(Some(entries[0].flags)));
    assert(flags_among(seq![two, three], None) == Ok::<_, Error>(Some(entries[0].flags)));
}

/// The scanner cuts what the muxer wrote: a fragment comes out of the stream
/// verbatim, where it was, with the sequence number and the sync flag the
/// muxer gave it.
pub proof fn law_the_scanner_cuts_what_the_muxer_wrote(mux: Mux, scan: Scan, rest: Seq<u8>)
    requires
        scan.sane(),
        scan.open_ended == OpenEnded::No,
        scan.phase == Phase::Fragments,
        scan.frag.len() == 0,
        0 < mux.open.len() <= Limits::usual().max_samples,
        fits(data_of(mux.open)),
        moof_len(mux.open.len()) <= scan.limits.max_buffered_box,
        8 + data_of(mux.open).len() <= scan.limits.max_buffered_box,
        scan.buf == mux.piece().bytes + rest,
    ensures
        scan.scanned() == (Scan {
            buf: rest,
            base: (scan.base + mux.piece().bytes.len()) as u64,
            out: scan.out.push(
                Cut::Fragment {
                    bytes: mux.piece().bytes,
                    offset: scan.base,
                    summary: MoofSummary {
                        sequence: Some(mux.piece().sequence),
                        first_sample_keyframe: Some(mux.piece().keyframe),
                    },
                },
            ),
            frag: Seq::empty(),
            frag_start: scan.base,
            frag_moof_len: 0,
            ..scan
        }).scanned(),
{
    let open = mux.open;
    let base = open[0].base_decode_time;
    let entries = entries_of(open);
    let id = mux.plan.track_id;
    let moof = laid(moof_boxes(id, mux.sequence, base, entries));
    let data = data_of(open);
    law_moof_len(id, mux.sequence, base, entries);
    lemma_boxed_len(MOOF, moof);
    lemma_boxed_len(MDAT, data);
    lemma_summary(entries, base, id, mux.sequence, scan.base);
    law_a_fragment_is_cut(scan, moof, data, rest);
}

/// A fresh scanner over an `ftyp`, a `moov` and a `moof`.
proof fn lemma_scans_the_init_segment(
    limits: Limits,
    ftyp: Seq<u8>,
    moov: Seq<u8>,
    moof: Seq<u8>,
    rest: Seq<u8>,
)
    requires
        holdable(limits, ftyp),
        holdable(limits, moov),
        holdable(limits, moof),
        (boxed_spec(FTYP, ftyp) + boxed_spec(MOOV, moov) + (boxed_spec(MOOF, moof) + rest)).len()
            <= u64::MAX,
    ensures
        ({
            let init = boxed_spec(FTYP, ftyp) + boxed_spec(MOOV, moov);
            let tail = boxed_spec(MOOF, moof) + rest;
            (Scan { buf: init + tail, ..Scan::fresh(limits) }).scanned() == (Scan {
                buf: tail,
                base: init.len() as u64,
                phase: Phase::Fragments,
                out: seq![Cut::Init { bytes: init, offset: 0 }],
                saw_moov: true,
                ..Scan::fresh(limits)
            }).scanned()
        }),
{
    let one = boxed_spec(FTYP, ftyp);
    let two = boxed_spec(MOOV, moov);
    let init = one + two;
    let tail = boxed_spec(MOOF, moof) + rest;
    let fresh = Scan::fresh(limits);
    let none = Seq::<u8>::empty();
    lemma_boxed_len(FTYP, ftyp);
    lemma_boxed_len(MOOV, moov);
    let first = Scan { buf: init + tail, ..fresh };
    assert(first.buf =~= one + (two + tail));
    assert(none + one =~= one);
    let second = Scan { buf: two + tail, base: one.len() as u64, init: one, ..fresh };
    assert(first.scanned() == second.scanned()) by {
        law_a_box_joins_the_init_segment(first, FTYP, ftyp, two + tail);
    }
    let third = Scan { buf: tail, base: init.len() as u64, init, saw_moov: true, ..fresh };
    assert(second.scanned() == third.scanned()) by {
        law_a_box_joins_the_init_segment(second, MOOV, moov, tail);
    }
    law_the_first_moof_cuts_the_init_segment(third, moof, rest);
}

/// The init segment comes out first: a fresh scanner that sees the init
/// segment of a muxer and then a `moof` cuts the init segment off, verbatim.
pub proof fn law_the_scanner_cuts_the_init_segment(
    plan: Plan,
    limits: Limits,
    moof: Seq<u8>,
    rest: Seq<u8>,
)
    requires
        holdable(limits, plan.ftyp()),
        holdable(limits, laid(plan.moov())),
        holdable(limits, moof),
        (laid(plan.init()) + (boxed_spec(MOOF, moof) + rest)).len() <= u64::MAX,
    ensures
        ({
            let init = laid(plan.init());
            let tail = boxed_spec(MOOF, moof) + rest;
            Scan::fresh(limits).pushed(init + tail) == (Scan {
                buf: tail,
                base: init.len() as u64,
                phase: Phase::Fragments,
                out: seq![Cut::Init { bytes: init, offset: 0 }],
                saw_moov: true,
                ..Scan::fresh(limits)
            }).scanned()
        }),
{
    let list = plan.init();
    let tail = boxed_spec(MOOF, moof) + rest;
    lemma_laid(list[0], list[1], list[0], list[0], list[0]);
    assert(Seq::<u8>::empty() + (laid(list) + tail) =~= laid(list) + tail);
    lemma_scans_the_init_segment(limits, plan.ftyp(), laid(plan.moov()), moof, rest);
}

/// The file reader and the reader of fragments read the same samples: a
/// `moof` that is read where it is in a file and one that is read out of a
/// fragment cut from the same place come to the same, when the clock starts
/// from zero.
#[verifier::rlimit(40)]
pub proof fn law_a_fragment_reads_the_same_where_it_is_and_cut_out(
    data: Seq<u8>,
    at: u64,
    to: u64,
    track_id: u32,
    defaults: TrexDefaults,
)
    requires
        data.len() <= u64::MAX,
        at <= to <= data.len(),
        to - at <= usize::MAX,
        be32(data, at as int) != 0,
        header_in(
            data,
            data.len() as u64,
            Limits::usual().max_read,
            at,
            data.len() as u64,
        ) matches Ok(Some(span)) && span.kind == MOOF && span.end <= to,
    ensures
        ({
            let span = header_in(
                data,
                data.len() as u64,
                Limits::usual().max_read,
                at,
                data.len() as u64,
            )->Ok_0.unwrap();
            fragment_spec(data.subrange(at as int, to as int), at, track_id, defaults) == match (
            moof_spec(
                data.subrange(span.body as int, span.end as int),
                at,
                span.body,
                Some(track_id),
                defaults,
                0,
                Limits::usual(),
            )) {
                Ok(reach) => Ok(numbered(reach.samples)),
                Err(err) => Err(err),
            }
        }),
{
    let len = data.len() as u64;
    let max_read = Limits::usual().max_read;
    let span = header_in(data, len, max_read, at, len)->Ok_0.unwrap();
    let fragment = data.subrange(at as int, to as int);
    lemma_header_in(data, len, max_read, at, len);
    let want = if len - at < 16 {
        (len - at) as int
    } else {
        16
    };
    let less = if to - at < 16 {
        (to - at) as int
    } else {
        16
    };
    let head = data.subrange(at as int, at + want);
    let short = fragment.take(less);
    assert(head =~= short + head.skip(less));
    assert(fragment =~= short + fragment.skip(less));
    lemma_same32(head, 0, data, at as int);
    lemma_same32(short, 0, data, at as int);
    law_header_needs_no_more(short, head.skip(less), at);
    law_header_needs_no_more(short, fragment.skip(less), at);
    let size = (span.end - at) as nat;
    let lead = (span.body - at) as nat;
    assert(moof_bounds(fragment, at) == Ok::<_, Error>((lead, size)));
    assert(fragment.subrange(lead as int, size as int) =~= data.subrange(
        span.body as int,
        span.end as int,
    ));
}

} // verus!
