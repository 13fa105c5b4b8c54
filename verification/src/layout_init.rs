//! What the bytes of an init segment say.
//!
//! Nothing here runs. The laws say of the segment a track is written with
//! where in which box each field stands, and that whatever is not a field is
//! zero.

use vstd::prelude::*;

use crate::be::{be16, be24, be32, enc16, enc32, group_enc_len, lemma_same16, lemma_same32, zeros};
use crate::boxes::{
    boxed_spec, children_spec, fits, found, full_body, full_boxed_spec, group_box_len, laid,
    law_children_read_back, law_full_box_reads_back, lemma_found, lemma_laid,
};
use crate::codes::{
    DINF, DREF, ESDS, HDLR, ISO5, ISOM, MDHD, MDIA, MINF, MOOV, MP41, MP4A, MVEX, MVHD, SMHD, SOUN,
    STBL, STSD, TKHD, TRAK, TREX, URL, VIDE, VMHD,
};
use crate::layout::{lemma_half_stands, lemma_stands_between, lemma_word_stands, stands};
use crate::limits::Limits;
use crate::mux::{
    audio_fixed, decoder_config, descriptor_spec, entry_body, esds_spec, fixed_channels, fixed_rate,
    length_head, sample_flags, visual_fixed, Boxes, Content, Plan, MATRIX, SOUND_HANDLER,
    VIDEO_HANDLER,
};
use crate::roundtrip::{law_the_init_segment_reads_back, lemma_all_fits, lemma_laid_holds, writable};
use crate::track::{from_init_spec, SampleEntry};

verus! {

/// What the box at the end of a path of kinds holds, the first of its kind at
/// every step.
#[verifier::opaque]
pub open spec fn reached(data: Seq<u8>, path: Seq<[u8; 4]>) -> Option<Seq<u8>>
    decreases path.len(),
{
    if path.len() == 0 {
        Some(data)
    } else {
        match children_spec(data, 0, usize::MAX) {
            Err(_) => None,
            Ok(list) => match found(list, path[0]) {
                None => None,
                Some(body) => reached(body, path.drop_first()),
            },
        }
    }
}

proof fn lemma_reach(list: Boxes, i: int, path: Seq<[u8; 4]>)
    requires
        forall|j: int| 0 <= j < list.len() ==> fits(#[trigger] list[j].1),
        laid(list).len() <= u64::MAX,
        list.len() <= usize::MAX,
        0 <= i < list.len(),
        path.len() > 0,
        list[i].0 == path[0],
        forall|j: int| 0 <= j < i ==> (#[trigger] list[j]).0 != path[0],
    ensures
        reached(laid(list), path) == reached(list[i].1, path.drop_first()),
        path.len() == 1 ==> reached(laid(list), path) == Some(list[i].1),
{
    reveal_with_fuel(reached, 2);
    law_children_read_back(list, 0, usize::MAX);
    lemma_found(list, 0, path[0], i);
}

/// The identity matrix of a track or movie header: one in fixed point at the
/// first and the middle place, one in the finer fixed point at the last, and
/// zero at the others.
pub open spec fn identity_at(data: Seq<u8>, at: int) -> bool {
    forall|i: int|
        0 <= i < 9 ==> #[trigger] be32(data, at + 4 * i) == (if i == 0 || i == 4 {
            0x1_0000u32
        } else if i == 8 {
            0x4000_0000u32
        } else {
            0u32
        })
}

#[verifier::rlimit(40)]
proof fn lemma_matrix(data: Seq<u8>, at: int)
    requires
        stands(data, at, MATRIX@),
    ensures
        identity_at(data, at),
{
    reveal(be32);
    assert forall|i: int| 0 <= i < 9 implies #[trigger] be32(data, at + 4 * i) == (if i == 0 || i
        == 4 {
        0x1_0000u32
    } else if i == 8 {
        0x4000_0000u32
    } else {
        0u32
    }) by {
        let m = data.subrange(at, at + 36);
        assert(m == MATRIX@);
        assert(m[4 * i] == data[at + 4 * i] && m[4 * i + 1] == data[at + 4 * i + 1]);
        assert(m[4 * i + 2] == data[at + 4 * i + 2] && m[4 * i + 3] == data[at + 4 * i + 3]);
        assert(MATRIX@ =~= seq![
            0, 1, 0, 0, 0, 0, 0, 0, 0, 0, 0, 0, 0, 0, 0, 0, 0, 1, 0, 0, 0, 0, 0, 0, 0, 0, 0, 0,
            0, 0, 0, 0, 0x40, 0, 0, 0,
        ]);
    }
}

/// Whether every byte of `data` from `from` to `to` is zero.
pub open spec fn blank(data: Seq<u8>, from: int, to: int) -> bool {
    forall|k: int| from <= k < to ==> #[trigger] data[k] == 0
}

/// The track header states the track's number, and for a video track its
/// picture size in fixed point, the width before the height, each the one its
/// sample entry reads back with; for an audio track it states full volume and
/// no size. The track is enabled and in the movie; all else is zero.
#[verifier::rlimit(40)]
pub proof fn law_the_track_header(plan: Plan)
    requires
        writable(plan),
    ensures
        ({
            let init = laid(plan.init());
            let tkhd = reached(init, seq![MOOV, TRAK, TKHD]).unwrap();
            let entry = from_init_spec(init, Limits::usual())->Ok_0.entry;
            &&& reached(init, seq![MOOV, TRAK, TKHD]) is Some
            &&& tkhd.len() == 84
            &&& tkhd[0] == 0
            &&& be24(tkhd, 1) == 3
            &&& be32(tkhd, 12) == plan.track_id
            &&& identity_at(tkhd, 40)
            &&& blank(tkhd, 4, 12)
            &&& blank(tkhd, 16, 36)
            &&& blank(tkhd, 38, 40)
            &&& match plan.content {
                Content::Video { width, height, .. } => {
                    &&& be16(tkhd, 36) == 0
                    &&& width < 0x1_0000 ==> be32(tkhd, 76) == width * 0x1_0000
                    &&& height < 0x1_0000 ==> be32(tkhd, 80) == height * 0x1_0000
                    &&& entry.visual is Some
                    &&& be32(tkhd, 76) == entry.visual.unwrap().width * 0x1_0000
                    &&& be32(tkhd, 80) == entry.visual.unwrap().height * 0x1_0000
                },
                Content::Audio { .. } => {
                    &&& be16(tkhd, 36) == 0x0100
                    &&& blank(tkhd, 76, 84)
                },
            }
        }),
{
    law_the_init_segment_reads_back(plan);
    lemma_reach_track(plan);
    lemma_tkhd_fields(plan);
}

/// A list of boxes whose whole fits 32 bits is one of boxes that do.
proof fn lemma_fit(list: Boxes)
    requires
        laid(list).len() < 0x1_0000_0000,
    ensures
        forall|j: int| 0 <= j < list.len() ==> fits(#[trigger] list[j].1),
{
    assert forall|j: int| 0 <= j < list.len() implies fits(#[trigger] list[j].1) by {
        lemma_laid_holds(list, j);
    }
}

/// The way to a box in the `moov`.
#[verifier::rlimit(40)]
proof fn lemma_reach_moov(plan: Plan, i: int, path: Seq<[u8; 4]>)
    requires
        writable(plan),
        0 <= i < 3,
        path.len() > 0,
        path[0] == plan.moov()[i].0,
        forall|j: int| 0 <= j < i ==> (#[trigger] plan.moov()[j]).0 != path[0],
    ensures
        reached(laid(plan.init()), seq![MOOV] + path) == reached(
            plan.moov()[i].1,
            path.drop_first(),
        ),
        path.len() == 1 ==> reached(laid(plan.init()), seq![MOOV] + path) == Some(plan.moov()[i].1),
{
    broadcast use {group_enc_len, group_box_len};

    let list = plan.init();
    lemma_laid(list[0], list[1], list[0], list[0], list[0]);
    assert forall|j: int| 0 <= j < list.len() implies fits(#[trigger] list[j].1) by {
        if j == 1 {
            assert(list[j].1 == laid(plan.moov()));
        }
    }
    lemma_reach(list, 1, seq![MOOV] + path);
    assert((seq![MOOV] + path).drop_first() =~= path);
    lemma_fit(plan.moov());
    lemma_reach(plan.moov(), i, path);
}

/// The way to a box in the `trak`.
#[verifier::rlimit(40)]
proof fn lemma_reach_trak(plan: Plan, i: int, path: Seq<[u8; 4]>)
    requires
        writable(plan),
        0 <= i < 2,
        path.len() > 0,
        path[0] == plan.trak()[i].0,
        forall|j: int| 0 <= j < i ==> (#[trigger] plan.trak()[j]).0 != path[0],
    ensures
        reached(laid(plan.init()), seq![MOOV, TRAK] + path) == reached(
            plan.trak()[i].1,
            path.drop_first(),
        ),
        path.len() == 1 ==> reached(laid(plan.init()), seq![MOOV, TRAK] + path) == Some(
            plan.trak()[i].1,
        ),
{
    lemma_all_fits(plan);
    lemma_reach_moov(plan, 1, seq![TRAK] + path);
    assert(seq![MOOV] + (seq![TRAK] + path) =~= seq![MOOV, TRAK] + path);
    assert((seq![TRAK] + path).drop_first() =~= path);
    lemma_fit(plan.trak());
    lemma_reach(plan.trak(), i, path);
}

proof fn lemma_reach_track(plan: Plan)
    requires
        writable(plan),
    ensures
        reached(laid(plan.init()), seq![MOOV, TRAK, TKHD]) == Some(full_body(0, 3, plan.tkhd())),
{
    lemma_reach_trak(plan, 0, seq![TKHD]);
    assert(seq![MOOV, TRAK] + seq![TKHD] =~= seq![MOOV, TRAK, TKHD]);
}

#[verifier::rlimit(40)]
proof fn lemma_tkhd_fields(plan: Plan)
    ensures
        ({
            let tkhd = full_body(0, 3, plan.tkhd());
            let (volume, width, height) = plan.shape();
            &&& tkhd.len() == 84
            &&& tkhd[0] == 0
            &&& be24(tkhd, 1) == 3
            &&& be32(tkhd, 12) == plan.track_id
            &&& identity_at(tkhd, 40)
            &&& blank(tkhd, 4, 12)
            &&& blank(tkhd, 16, 36)
            &&& blank(tkhd, 38, 40)
            &&& be16(tkhd, 36) == volume
            &&& be32(tkhd, 76) == width % 0x1_0000 * 0x1_0000
            &&& be32(tkhd, 80) == height % 0x1_0000 * 0x1_0000
            &&& width == 0 && height == 0 ==> blank(tkhd, 76, 84)
        }),
{
    broadcast use group_enc_len;

    let tkhd = full_body(0, 3, plan.tkhd());
    law_full_box_reads_back(0, 3, plan.tkhd());
    law_full_box_reads_back(0, 3, Seq::empty());
    let (volume, width, height) = plan.shape();
    let o = full_body(0, 3, Seq::empty());
    let id = enc32(plan.track_id);
    let v = enc16(volume);
    let w = enc32((width % 0x1_0000 * 0x1_0000) as u32);
    let h = enc32((height % 0x1_0000 * 0x1_0000) as u32);
    let none = Seq::<u8>::empty();
    let a = o + zeros(8);
    let b = a + id + zeros(20);
    let c = b + v + zeros(2);
    let d = c + MATRIX@;
    assert(d.len() == 76);
    assert(tkhd =~= d + w + h);
    lemma_stands_between(d, w, h);
    lemma_word_stands(tkhd, 76, (width % 0x1_0000 * 0x1_0000) as u32);
    assert(tkhd =~= (d + w) + h + none);
    lemma_stands_between(d + w, h, none);
    lemma_word_stands(tkhd, 80, (height % 0x1_0000 * 0x1_0000) as u32);
    assert(tkhd =~= c + MATRIX@ + (w + h));
    lemma_stands_between(c, MATRIX@, w + h);
    lemma_matrix(tkhd, 40);
    let e = MATRIX@ + w + h;
    assert(tkhd =~= b + v + (zeros(2) + e));
    lemma_stands_between(b, v, zeros(2) + e);
    lemma_half_stands(tkhd, 36, volume);
    let f = zeros(20) + v + zeros(2) + e;
    assert(tkhd =~= a + id + f);
    lemma_stands_between(a, id, f);
    lemma_word_stands(tkhd, 12, plan.track_id);
    if width == 0 && height == 0 {
        lemma_zero_bytes(tkhd, 76);
        lemma_zero_bytes(tkhd, 80);
    }
}

/// The bytes of a word that is zero are zero.
proof fn lemma_zero_bytes(data: Seq<u8>, at: int)
    requires
        be32(data, at) == 0,
    ensures
        data[at] == 0 && data[at + 1] == 0 && data[at + 2] == 0 && data[at + 3] == 0,
{
    reveal(be32);
}

/// The way to a box in the `mdia`.
#[verifier::rlimit(40)]
proof fn lemma_reach_mdia(plan: Plan, i: int, path: Seq<[u8; 4]>)
    requires
        writable(plan),
        0 <= i < 3,
        path.len() > 0,
        path[0] == plan.mdia()[i].0,
        forall|j: int| 0 <= j < i ==> (#[trigger] plan.mdia()[j]).0 != path[0],
    ensures
        reached(laid(plan.init()), seq![MOOV, TRAK, MDIA] + path) == reached(
            plan.mdia()[i].1,
            path.drop_first(),
        ),
        path.len() == 1 ==> reached(laid(plan.init()), seq![MOOV, TRAK, MDIA] + path) == Some(
            plan.mdia()[i].1,
        ),
{
    lemma_all_fits(plan);
    lemma_reach_trak(plan, 1, seq![MDIA] + path);
    assert(seq![MOOV, TRAK] + (seq![MDIA] + path) =~= seq![MOOV, TRAK, MDIA] + path);
    assert((seq![MDIA] + path).drop_first() =~= path);
    lemma_fit(plan.mdia());
    lemma_reach(plan.mdia(), i, path);
}

/// The way to a box in the `minf`.
#[verifier::rlimit(40)]
proof fn lemma_reach_minf(plan: Plan, i: int, path: Seq<[u8; 4]>)
    requires
        writable(plan),
        0 <= i < 3,
        path.len() > 0,
        path[0] == plan.minf()[i].0,
        forall|j: int| 0 <= j < i ==> (#[trigger] plan.minf()[j]).0 != path[0],
    ensures
        reached(laid(plan.init()), seq![MOOV, TRAK, MDIA, MINF] + path) == reached(
            plan.minf()[i].1,
            path.drop_first(),
        ),
        path.len() == 1 ==> reached(laid(plan.init()), seq![MOOV, TRAK, MDIA, MINF] + path) == Some(
            plan.minf()[i].1,
        ),
{
    lemma_all_fits(plan);
    lemma_reach_mdia(plan, 2, seq![MINF] + path);
    assert(seq![MOOV, TRAK, MDIA] + (seq![MINF] + path) =~= seq![MOOV, TRAK, MDIA, MINF] + path);
    assert((seq![MINF] + path).drop_first() =~= path);
    lemma_fit(plan.minf());
    lemma_reach(plan.minf(), i, path);
}

/// The movie header states the movie's timescale, full rate and volume, and
/// a number for the next track that is past this one's, as far as 32 bits
/// go. All else is zero.
#[verifier::rlimit(40)]
pub proof fn law_the_movie_header(plan: Plan)
    requires
        writable(plan),
    ensures
        ({
            let path = seq![[0x6du8, 0x6f, 0x6f, 0x76], [0x6du8, 0x76, 0x68, 0x64]];
            let mvhd = reached(laid(plan.init()), path).unwrap();
            &&& reached(laid(plan.init()), path) is Some
            &&& mvhd.len() == 100
            &&& mvhd[0] == 0
            &&& be24(mvhd, 1) == 0
            &&& blank(mvhd, 4, 12)
            &&& be32(mvhd, 12) == plan.movie_timescale
            &&& blank(mvhd, 16, 20)
            &&& be32(mvhd, 20) == 0x1_0000
            &&& be16(mvhd, 24) == 0x100
            &&& blank(mvhd, 26, 36)
            &&& identity_at(mvhd, 36)
            &&& blank(mvhd, 72, 96)
            &&& plan.track_id < u32::MAX ==> be32(mvhd, 96) == plan.track_id + 1
            &&& plan.track_id == u32::MAX ==> be32(mvhd, 96) == u32::MAX
        }),
{
    broadcast use group_enc_len;

    lemma_reach_moov(plan, 0, seq![MVHD]);
    assert(seq![MOOV] + seq![MVHD] =~= seq![
        [0x6du8, 0x6f, 0x6f, 0x76],
        [0x6du8, 0x76, 0x68, 0x64],
    ]);
    let mvhd = full_body(0, 0, plan.mvhd());
    law_full_box_reads_back(0, 0, plan.mvhd());
    law_full_box_reads_back(0, 0, Seq::empty());
    let none = Seq::<u8>::empty();
    let o = full_body(0, 0, none);
    let scale = enc32(plan.movie_timescale);
    let rate = enc32(0x1_0000);
    let volume = enc16(0x100);
    let next = enc32(plan.next_track_id());
    let a = o + zeros(8);
    let b = a + scale + zeros(4);
    let c = b + rate;
    let d = c + volume + zeros(10);
    let e = d + MATRIX@ + zeros(24);
    let tail = MATRIX@ + zeros(24) + next;
    assert(mvhd =~= e + next + none);
    lemma_stands_between(e, next, none);
    lemma_word_stands(mvhd, 96, plan.next_track_id());
    assert(mvhd =~= d + MATRIX@ + (zeros(24) + next));
    lemma_stands_between(d, MATRIX@, zeros(24) + next);
    lemma_matrix(mvhd, 36);
    assert(mvhd =~= c + volume + (zeros(10) + tail));
    lemma_stands_between(c, volume, zeros(10) + tail);
    lemma_half_stands(mvhd, 24, 0x100);
    let rest = volume + zeros(10) + tail;
    assert(mvhd =~= b + rate + rest);
    lemma_stands_between(b, rate, rest);
    lemma_word_stands(mvhd, 20, 0x1_0000);
    let rest = zeros(4) + rate + rest;
    assert(mvhd =~= a + scale + rest);
    lemma_stands_between(a, scale, rest);
    lemma_word_stands(mvhd, 12, plan.movie_timescale);
}

/// The media header states the track's timescale and an undetermined
/// language, five bits a letter. All else is zero.
#[verifier::rlimit(40)]
pub proof fn law_the_media_header(plan: Plan)
    requires
        writable(plan),
    ensures
        ({
            let path = seq![MOOV, TRAK, MDIA, [0x6du8, 0x64, 0x68, 0x64]];
            let mdhd = reached(laid(plan.init()), path).unwrap();
            let language = be16(mdhd, 20);
            &&& reached(laid(plan.init()), path) is Some
            &&& mdhd.len() == 24
            &&& mdhd[0] == 0
            &&& be24(mdhd, 1) == 0
            &&& blank(mdhd, 4, 12)
            &&& be32(mdhd, 12) == plan.timescale
            &&& blank(mdhd, 16, 20)
            &&& language / 0x400 + 0x60 == 0x75
            &&& language / 0x20 % 0x20 + 0x60 == 0x6e
            &&& language % 0x20 + 0x60 == 0x64
            &&& blank(mdhd, 22, 24)
        }),
{
    broadcast use group_enc_len;

    lemma_reach_mdia(plan, 0, seq![MDHD]);
    assert(seq![MOOV, TRAK, MDIA] + seq![MDHD] =~= seq![
        MOOV,
        TRAK,
        MDIA,
        [0x6du8, 0x64, 0x68, 0x64],
    ]);
    let mdhd = full_body(0, 0, plan.mdhd());
    law_full_box_reads_back(0, 0, plan.mdhd());
    law_full_box_reads_back(0, 0, Seq::empty());
    let o = full_body(0, 0, Seq::empty());
    let scale = enc32(plan.timescale);
    let language = enc16(0x55c4);
    let a = o + zeros(8);
    let b = a + scale + zeros(4);
    assert(mdhd =~= a + scale + (zeros(4) + language + zeros(2)));
    lemma_stands_between(a, scale, zeros(4) + language + zeros(2));
    lemma_word_stands(mdhd, 12, plan.timescale);
    assert(mdhd =~= b + language + zeros(2));
    lemma_stands_between(b, language, zeros(2));
    lemma_half_stands(mdhd, 20, 0x55c4);
}

/// The handler says `vide` or `soun` by what the track carries, names itself,
/// and ends the name with a zero; a video track then has a `vmhd`, with the
/// one flag it must have, and an audio track an `smhd`, both of zeros.
#[verifier::rlimit(40)]
pub proof fn law_the_handler(plan: Plan)
    requires
        writable(plan),
    ensures
        ({
            let init = laid(plan.init());
            let path = seq![MOOV, TRAK, MDIA, [0x68u8, 0x64, 0x6c, 0x72]];
            let vmhd = seq![MOOV, TRAK, MDIA, MINF, [0x76u8, 0x6d, 0x68, 0x64]];
            let smhd = seq![MOOV, TRAK, MDIA, MINF, [0x73u8, 0x6d, 0x68, 0x64]];
            let hdlr = reached(init, path).unwrap();
            &&& reached(init, path) is Some
            &&& hdlr.len() == 37
            &&& blank(hdlr, 0, 8)
            &&& blank(hdlr, 12, 24)
            &&& hdlr[36] == 0
            &&& forall|k: int| 24 <= k < 36 ==> #[trigger] hdlr[k] != 0
            &&& plan.content is Video ==> {
                &&& hdlr.subrange(8, 12) == seq![0x76u8, 0x69, 0x64, 0x65]
                &&& reached(init, vmhd) is Some
                &&& reached(init, vmhd).unwrap().len() == 12
                &&& be32(reached(init, vmhd).unwrap(), 0) == 1
                &&& blank(reached(init, vmhd).unwrap(), 4, 12)
            }
            &&& plan.content is Audio ==> {
                &&& hdlr.subrange(8, 12) == seq![0x73u8, 0x6f, 0x75, 0x6e]
                &&& reached(init, smhd) is Some
                &&& reached(init, smhd).unwrap().len() == 8
                &&& blank(reached(init, smhd).unwrap(), 0, 8)
            }
        }),
{
    broadcast use group_enc_len;

    let init = laid(plan.init());
    lemma_reach_mdia(plan, 1, seq![HDLR]);
    assert(seq![MOOV, TRAK, MDIA] + seq![HDLR] =~= seq![
        MOOV,
        TRAK,
        MDIA,
        [0x68u8, 0x64, 0x6c, 0x72],
    ]);
    let hdlr = full_body(0, 0, plan.hdlr());
    reveal(crate::be::enc24);
    assert(VIDE@ =~= seq![0x76u8, 0x69, 0x64, 0x65]);
    assert(SOUN@ =~= seq![0x73u8, 0x6f, 0x75, 0x6e]);
    if plan.content is Video {
        assert(hdlr.subrange(8, 12) =~= VIDE@);
        assert(forall|k: int| 0 <= k < 12 ==> #[trigger] VIDEO_HANDLER@[k] != 0);
        assert(VIDEO_HANDLER@[12] == 0);
        assert forall|k: int| 24 <= k < 36 implies #[trigger] hdlr[k] != 0 by {
            assert(hdlr[k] == VIDEO_HANDLER@[k - 24]);
        }
        lemma_reach_minf(plan, 0, seq![VMHD]);
        assert(seq![MOOV, TRAK, MDIA, MINF] + seq![VMHD] =~= seq![
            MOOV,
            TRAK,
            MDIA,
            MINF,
            [0x76u8, 0x6d, 0x68, 0x64],
        ]);
        reveal(be32);
    } else {
        assert(hdlr.subrange(8, 12) =~= SOUN@);
        assert(forall|k: int| 0 <= k < 12 ==> #[trigger] SOUND_HANDLER@[k] != 0);
        assert(SOUND_HANDLER@[12] == 0);
        assert forall|k: int| 24 <= k < 36 implies #[trigger] hdlr[k] != 0 by {
            assert(hdlr[k] == SOUND_HANDLER@[k - 24]);
        }
        lemma_reach_minf(plan, 0, seq![SMHD]);
        assert(seq![MOOV, TRAK, MDIA, MINF] + seq![SMHD] =~= seq![
            MOOV,
            TRAK,
            MDIA,
            MINF,
            [0x73u8, 0x6d, 0x68, 0x64],
        ]);
    }
}

/// The data reference says that there is one, and that it is this file: a
/// `url ` with the flag for it and no location.
#[verifier::rlimit(40)]
pub proof fn law_the_data_is_in_the_file(plan: Plan)
    requires
        writable(plan),
    ensures
        ({
            let path = seq![
                MOOV,
                TRAK,
                MDIA,
                MINF,
                [0x64u8, 0x69, 0x6e, 0x66],
                [0x64u8, 0x72, 0x65, 0x66],
            ];
            let dref = reached(laid(plan.init()), path).unwrap();
            &&& reached(laid(plan.init()), path) is Some
            &&& dref.len() == 20
            &&& blank(dref, 0, 4)
            &&& be32(dref, 4) == 1
            &&& be32(dref, 8) == 12
            &&& dref.subrange(12, 16) == seq![0x75u8, 0x72, 0x6c, 0x20]
            &&& be32(dref, 16) == 1
        }),
{
    broadcast use {group_enc_len, group_box_len};

    let dinf = plan.dinf();
    lemma_all_fits(plan);
    lemma_reach_minf(plan, 1, seq![DINF, DREF]);
    assert(seq![MOOV, TRAK, MDIA, MINF] + seq![DINF, DREF] =~= seq![
        MOOV,
        TRAK,
        MDIA,
        MINF,
        [0x64u8, 0x69, 0x6e, 0x66],
        [0x64u8, 0x72, 0x65, 0x66],
    ]);
    assert(seq![DINF, DREF].drop_first() =~= seq![DREF]);
    lemma_laid_holds(plan.minf(), 1);
    lemma_fit(dinf);
    lemma_reach(dinf, 0, seq![DREF]);
    let dref = dinf[0].1;
    assert(URL@ =~= seq![0x75u8, 0x72, 0x6c, 0x20]);
    reveal(crate::be::enc24);
    reveal(enc32);
    reveal(be32);
    assert(dref.subrange(12, 16) =~= URL@);
}

/// The sample description: one entry, of the kind of the track, that begins
/// behind the count; its data in the one place there is. A video entry has
/// the picture size, 72 dots an inch either way in fixed point, one frame a
/// sample, no name, 24 bits of depth and all ones behind it. An audio entry
/// has the channels, sixteen bits a sample, and the rate in fixed point,
/// which is zero where it does not fit.
#[verifier::rlimit(40)]
pub proof fn law_the_sample_description(plan: Plan)
    requires
        writable(plan),
    ensures
        ({
            let path = seq![
                MOOV,
                TRAK,
                MDIA,
                MINF,
                [0x73u8, 0x74, 0x62, 0x6c],
                [0x73u8, 0x74, 0x73, 0x64],
            ];
            let stsd = reached(laid(plan.init()), path).unwrap();
            &&& reached(laid(plan.init()), path) is Some
            &&& stsd.len() >= 44
            &&& blank(stsd, 0, 4)
            &&& be32(stsd, 4) == 1
            &&& be32(stsd, 8) == stsd.len() - 8
            &&& blank(stsd, 16, 22)
            &&& be16(stsd, 22) == 1
            &&& match plan.content {
                Content::Video { kind, width, height, .. } => {
                    &&& stsd.len() >= 94
                    &&& stsd.subrange(12, 16) == kind@
                    &&& blank(stsd, 24, 40)
                    &&& be16(stsd, 40) == width % 0x1_0000
                    &&& be16(stsd, 42) == height % 0x1_0000
                    &&& be32(stsd, 44) == 72 * 0x1_0000
                    &&& be32(stsd, 48) == 72 * 0x1_0000
                    &&& blank(stsd, 52, 56)
                    &&& be16(stsd, 56) == 1
                    &&& blank(stsd, 58, 90)
                    &&& be16(stsd, 90) == 24
                    &&& be16(stsd, 92) == 0xffff
                },
                Content::Audio { sample_rate, channels, .. } => {
                    &&& stsd.subrange(12, 16) == seq![0x6du8, 0x70, 0x34, 0x61]
                    &&& blank(stsd, 24, 32)
                    &&& channels <= 0xffff ==> be16(stsd, 32) == channels
                    &&& channels > 0xffff ==> be16(stsd, 32) == 0xffff
                    &&& be16(stsd, 34) == 16
                    &&& blank(stsd, 36, 40)
                    &&& sample_rate <= 0xffff ==> be32(stsd, 40) == sample_rate * 0x1_0000
                    &&& sample_rate > 0xffff ==> be32(stsd, 40) == 0
                },
            }
        }),
{
    lemma_all_fits(plan);
    lemma_reach_minf(plan, 2, seq![STBL, STSD]);
    assert(seq![MOOV, TRAK, MDIA, MINF] + seq![STBL, STSD] =~= seq![
        MOOV,
        TRAK,
        MDIA,
        MINF,
        [0x73u8, 0x74, 0x62, 0x6c],
        [0x73u8, 0x74, 0x73, 0x64],
    ]);
    assert(seq![STBL, STSD].drop_first() =~= seq![STSD]);
    lemma_fit(plan.stbl());
    lemma_reach(plan.stbl(), 0, seq![STSD]);
    lemma_stsd_head(plan);
    let stsd = plan.stbl()[0].1;
    match plan.content {
        Content::Video { kind, width, height, config } => {
            lemma_visual_fields(width, height);
            lemma_shift(stsd, 16, visual_fixed(width, height));
        },
        Content::Audio { sample_rate, channels, config } => {
            lemma_audio_fields(sample_rate, channels);
            lemma_shift(stsd, 16, audio_fixed(sample_rate, channels));
            assert(MP4A@ =~= seq![0x6du8, 0x70, 0x34, 0x61]);
        },
    }
}

/// What stands somewhere says there what it says on its own.
proof fn lemma_shift(data: Seq<u8>, at: int, part: Seq<u8>)
    requires
        stands(data, at, part),
    ensures
        forall|k: int| 0 <= k < part.len() ==> data[at + k] == #[trigger] part[k],
        forall|k: int| 0 <= k <= part.len() - 2 ==> be16(data, at + k) == #[trigger] be16(part, k),
        forall|k: int| 0 <= k <= part.len() - 4 ==> be32(data, at + k) == #[trigger] be32(part, k),
        forall|k: int| at <= k < at + part.len() ==> #[trigger] data[k] == part[k - at],
{
    assert forall|k: int| at <= k < at + part.len() implies #[trigger] data[k] == part[k - at] by {
        assert(data.subrange(at, at + part.len())[k - at] == data[k]);
    }
    assert forall|k: int| 0 <= k < part.len() implies data[at + k] == #[trigger] part[k] by {}
    assert forall|k: int| 0 <= k <= part.len() - 2 implies be16(data, at + k) == #[trigger] be16(
        part,
        k,
    ) by {
        lemma_same16(data, at + k, part, k);
    }
    assert forall|k: int| 0 <= k <= part.len() - 4 implies be32(data, at + k) == #[trigger] be32(
        part,
        k,
    ) by {
        lemma_same32(data, at + k, part, k);
    }
}

#[verifier::rlimit(40)]
proof fn lemma_stsd_head(plan: Plan)
    requires
        writable(plan),
    ensures
        ({
            let stsd = plan.stbl()[0].1;
            let fixed = match plan.content {
                Content::Video { width, height, .. } => visual_fixed(width, height),
                Content::Audio { sample_rate, channels, .. } => audio_fixed(sample_rate, channels),
            };
            &&& blank(stsd, 0, 4)
            &&& be32(stsd, 4) == 1
            &&& be32(stsd, 8) == stsd.len() - 8
            &&& stsd.subrange(12, 16) == plan.content.entry_kind()@
            &&& stands(stsd, 16, fixed)
        }),
{
    broadcast use {group_enc_len, group_box_len};

    lemma_all_fits(plan);
    let stsd = plan.stbl()[0].1;
    let body = entry_body(plan.content);
    let kind = plan.content.entry_kind()@;
    let n = ((8 + body.len()) % 0x1_0000_0000) as u32;
    let o = full_body(0, 0, Seq::empty());
    law_full_box_reads_back(0, 0, Seq::empty());
    reveal(crate::be::enc24);
    assert(stsd =~= o + enc32(1) + (enc32(n) + kind + body));
    lemma_stands_between(o, enc32(1), enc32(n) + kind + body);
    lemma_word_stands(stsd, 4, 1);
    assert(stsd =~= (o + enc32(1)) + enc32(n) + (kind + body));
    lemma_stands_between(o + enc32(1), enc32(n), kind + body);
    lemma_word_stands(stsd, 8, n);
    assert(stsd.subrange(12, 16) =~= kind);
    let front = o + enc32(1) + enc32(n) + kind;
    match plan.content {
        Content::Video { kind, width, height, config } => {
            let fixed = visual_fixed(width, height);
            let rest = boxed_spec(SampleEntry::config_box_spec(kind).unwrap(), config);
            assert(stsd =~= front + fixed + rest);
            lemma_stands_between(front, fixed, rest);
        },
        Content::Audio { sample_rate, channels, config } => {
            let fixed = audio_fixed(sample_rate, channels);
            let rest = full_boxed_spec(ESDS, 0, 0, esds_spec(config));
            assert(stsd =~= front + fixed + rest);
            lemma_stands_between(front, fixed, rest);
        },
    }
}

#[verifier::rlimit(40)]
proof fn lemma_visual_fields(width: u32, height: u32)
    ensures
        ({
            let fixed = visual_fixed(width, height);
            &&& fixed.len() == 78
            &&& blank(fixed, 0, 6)
            &&& be16(fixed, 6) == 1
            &&& blank(fixed, 8, 24)
            &&& be16(fixed, 24) == width % 0x1_0000
            &&& be16(fixed, 26) == height % 0x1_0000
            &&& be32(fixed, 28) == 72 * 0x1_0000
            &&& be32(fixed, 32) == 72 * 0x1_0000
            &&& blank(fixed, 36, 40)
            &&& be16(fixed, 40) == 1
            &&& blank(fixed, 42, 74)
            &&& be16(fixed, 74) == 24
            &&& be16(fixed, 76) == 0xffff
        }),
{
    broadcast use group_enc_len;

    let fixed = visual_fixed(width, height);
    let w = (width % 0x1_0000) as u16;
    let h = (height % 0x1_0000) as u16;
    let a = zeros(6) + enc16(1) + zeros(16);
    let b = a + enc16(w) + enc16(h);
    let c = b + enc32(0x0048_0000) + enc32(0x0048_0000) + zeros(4);
    let d = c + enc16(1) + zeros(32);
    let none = Seq::<u8>::empty();
    let t = enc16(0x18) + enc16(0xffff);
    assert(fixed =~= d + enc16(0x18) + enc16(0xffff));
    lemma_stands_between(d, enc16(0x18), enc16(0xffff));
    lemma_half_stands(fixed, 74, 0x18);
    assert(fixed =~= (d + enc16(0x18)) + enc16(0xffff) + none);
    lemma_stands_between(d + enc16(0x18), enc16(0xffff), none);
    lemma_half_stands(fixed, 76, 0xffff);
    assert(fixed =~= c + enc16(1) + (zeros(32) + t));
    lemma_stands_between(c, enc16(1), zeros(32) + t);
    lemma_half_stands(fixed, 40, 1);
    let t = zeros(4) + enc16(1) + zeros(32) + t;
    let r = enc32(0x0048_0000);
    assert(fixed =~= b + r + (r + t));
    lemma_stands_between(b, r, r + t);
    lemma_word_stands(fixed, 28, 0x0048_0000);
    assert(fixed =~= (b + r) + r + t);
    lemma_stands_between(b + r, r, t);
    lemma_word_stands(fixed, 32, 0x0048_0000);
    let t = r + r + t;
    assert(fixed =~= a + enc16(w) + (enc16(h) + t));
    lemma_stands_between(a, enc16(w), enc16(h) + t);
    lemma_half_stands(fixed, 24, w);
    assert(fixed =~= (a + enc16(w)) + enc16(h) + t);
    lemma_stands_between(a + enc16(w), enc16(h), t);
    lemma_half_stands(fixed, 26, h);
    let t = zeros(16) + enc16(w) + enc16(h) + t;
    assert(fixed =~= zeros(6) + enc16(1) + t);
    lemma_stands_between(zeros(6), enc16(1), t);
    lemma_half_stands(fixed, 6, 1);
}

#[verifier::rlimit(40)]
proof fn lemma_audio_fields(sample_rate: u32, channels: u32)
    ensures
        ({
            let fixed = audio_fixed(sample_rate, channels);
            &&& fixed.len() == 28
            &&& blank(fixed, 0, 6)
            &&& be16(fixed, 6) == 1
            &&& blank(fixed, 8, 16)
            &&& channels <= 0xffff ==> be16(fixed, 16) == channels
            &&& channels > 0xffff ==> be16(fixed, 16) == 0xffff
            &&& be16(fixed, 18) == 16
            &&& blank(fixed, 20, 24)
            &&& sample_rate <= 0xffff ==> be32(fixed, 24) == sample_rate * 0x1_0000
            &&& sample_rate > 0xffff ==> be32(fixed, 24) == 0
        }),
{
    broadcast use group_enc_len;

    let fixed = audio_fixed(sample_rate, channels);
    let c = fixed_channels(channels);
    let r = fixed_rate(sample_rate);
    let none = Seq::<u8>::empty();
    let a = zeros(6) + enc16(1) + zeros(8);
    let b = a + enc16(c);
    let d = b + enc16(16) + zeros(4);
    assert(fixed =~= d + enc32(r) + none);
    lemma_stands_between(d, enc32(r), none);
    lemma_word_stands(fixed, 24, r);
    assert(fixed =~= b + enc16(16) + (zeros(4) + enc32(r)));
    lemma_stands_between(b, enc16(16), zeros(4) + enc32(r));
    lemma_half_stands(fixed, 18, 16);
    let t = enc16(16) + zeros(4) + enc32(r);
    assert(fixed =~= a + enc16(c) + t);
    lemma_stands_between(a, enc16(c), t);
    lemma_half_stands(fixed, 16, c);
    let t = zeros(8) + enc16(c) + t;
    assert(fixed =~= zeros(6) + enc16(1) + t);
    lemma_stands_between(zeros(6), enc16(1), t);
    lemma_half_stands(fixed, 6, 1);
}

/// The fragments' defaults: the track's number, its one sample description,
/// and no duration, size or flags.
#[verifier::rlimit(40)]
pub proof fn law_the_fragment_defaults(plan: Plan)
    requires
        writable(plan),
    ensures
        ({
            let path = seq![MOOV, [0x6du8, 0x76, 0x65, 0x78], [0x74u8, 0x72, 0x65, 0x78]];
            let trex = reached(laid(plan.init()), path).unwrap();
            &&& reached(laid(plan.init()), path) is Some
            &&& trex.len() == 24
            &&& blank(trex, 0, 4)
            &&& be32(trex, 4) == plan.track_id
            &&& be32(trex, 8) == 1
            &&& blank(trex, 12, 24)
        }),
{
    broadcast use group_enc_len;

    lemma_all_fits(plan);
    lemma_reach_moov(plan, 2, seq![MVEX, TREX]);
    assert(seq![MOOV] + seq![MVEX, TREX] =~= seq![
        MOOV,
        [0x6du8, 0x76, 0x65, 0x78],
        [0x74u8, 0x72, 0x65, 0x78],
    ]);
    assert(seq![MVEX, TREX].drop_first() =~= seq![TREX]);
    lemma_fit(plan.mvex());
    lemma_reach(plan.mvex(), 0, seq![TREX]);
    let trex = plan.mvex()[0].1;
    let o = full_body(0, 0, Seq::empty());
    law_full_box_reads_back(0, 0, Seq::empty());
    reveal(crate::be::enc24);
    let id = enc32(plan.track_id);
    assert(trex =~= o + id + (enc32(1) + zeros(12)));
    lemma_stands_between(o, id, enc32(1) + zeros(12));
    lemma_word_stands(trex, 4, plan.track_id);
    assert(trex =~= (o + id) + enc32(1) + zeros(12));
    lemma_stands_between(o + id, enc32(1), zeros(12));
    lemma_word_stands(trex, 8, 1);
}

/// The file type: `iso5` in version 512, and among the brands it may be read
/// as are `iso5`, `isom`, the sample entry's own and `mp41`.
#[verifier::rlimit(40)]
pub proof fn law_the_file_type(plan: Plan)
    requires
        writable(plan),
    ensures
        ({
            let path = seq![[0x66u8, 0x74, 0x79, 0x70]];
            let ftyp = reached(laid(plan.init()), path).unwrap();
            &&& reached(laid(plan.init()), path) is Some
            &&& ftyp.len() == 24
            &&& ftyp.subrange(0, 4) == seq![0x69u8, 0x73, 0x6f, 0x35]
            &&& be32(ftyp, 4) == 512
            &&& ftyp.subrange(8, 12) == seq![0x69u8, 0x73, 0x6f, 0x35]
            &&& ftyp.subrange(12, 16) == seq![0x69u8, 0x73, 0x6f, 0x6d]
            &&& ftyp.subrange(16, 20) == plan.content.entry_kind()@
            &&& ftyp.subrange(20, 24) == seq![0x6du8, 0x70, 0x34, 0x31]
        }),
{
    broadcast use {group_enc_len, group_box_len};

    let list = plan.init();
    lemma_laid(list[0], list[1], list[0], list[0], list[0]);
    assert forall|j: int| 0 <= j < list.len() implies fits(#[trigger] list[j].1) by {
        if j == 1 {
            assert(list[j].1 == laid(plan.moov()));
        }
    }
    lemma_reach(list, 0, seq![[0x66u8, 0x74, 0x79, 0x70]]);
    let ftyp = plan.ftyp();
    assert(ISO5@ =~= seq![0x69u8, 0x73, 0x6f, 0x35]);
    assert(ISOM@ =~= seq![0x69u8, 0x73, 0x6f, 0x6d]);
    assert(MP41@ =~= seq![0x6du8, 0x70, 0x34, 0x31]);
    let rest = ISO5@ + ISOM@ + plan.content.entry_kind()@ + MP41@;
    assert(ftyp =~= ISO5@ + enc32(512) + rest);
    lemma_stands_between(ISO5@, enc32(512), rest);
    lemma_word_stands(ftyp, 4, 512);
    assert(ftyp.subrange(0, 4) =~= ISO5@ && ftyp.subrange(8, 12) =~= ISO5@);
    assert(ftyp.subrange(12, 16) =~= ISOM@ && ftyp.subrange(20, 24) =~= MP41@);
    assert(ftyp.subrange(16, 20) =~= plan.content.entry_kind()@);
}

// ------------------------------------------------------------------ //
// The descriptors of an audio track.
// ------------------------------------------------------------------ //
/// The length a descriptor goes on with, and what follows it: seven bits a
/// byte, the first the highest, until a byte without its top bit.
pub open spec fn length_from(data: Seq<u8>, sofar: nat) -> (nat, Seq<u8>)
    decreases data.len(),
{
    if data.len() == 0 {
        (sofar, data)
    } else if data[0] < 128 {
        (sofar * 128 + data[0] as nat, data.drop_first())
    } else {
        length_from(data.drop_first(), sofar * 128 + (data[0] - 128) as nat)
    }
}

/// A descriptor taken apart: its tag, what it holds, what follows it.
pub open spec fn opened(data: Seq<u8>) -> (u8, Seq<u8>, Seq<u8>) {
    let (n, rest) = length_from(data.drop_first(), 0);
    (data[0], rest.take(n as int), rest.skip(n as int))
}

proof fn lemma_length_head(n: nat, rest: Seq<u8>)
    ensures
        length_from(length_head(n) + rest, 0) == length_from(rest, n),
    decreases n,
{
    if n == 0 {
        assert(length_head(n) + rest =~= rest);
    } else {
        let byte = (128 + n % 128) as u8;
        let more = seq![byte] + rest;
        assert(length_head(n) + rest =~= length_head(n / 128) + more);
        lemma_length_head(n / 128, more);
        assert(more.drop_first() =~= rest);
    }
}

/// A descriptor of any length reads back: its tag, its payload, and what was
/// behind it.
pub proof fn law_a_descriptor_reads_back(tag: u8, payload: Seq<u8>, rest: Seq<u8>)
    ensures
        opened(descriptor_spec(tag, payload) + rest) == (tag, payload, rest),
{
    let n = payload.len();
    let data = descriptor_spec(tag, payload) + rest;
    let more = seq![(n % 128) as u8] + (payload + rest);
    assert(data.drop_first() =~= length_head(n / 128) + more);
    lemma_length_head(n / 128, more);
    assert(more.drop_first() =~= payload + rest);
    assert((payload + rest).take(n as int) =~= payload);
    assert((payload + rest).skip(n as int) =~= rest);
}

/// The descriptors of an audio track: an elementary stream of number zero that
/// holds a decoder configuration and then a sync layer of the predefined kind.
/// The configuration is of MPEG-4 audio, an audio stream, with no buffer or
/// rate said, and holds the caller's own record, unchanged.
pub proof fn law_the_descriptors_of_an_audio_track(asc: Seq<u8>)
    ensures
        ({
            let (tag, stream, after) = opened(esds_spec(asc));
            let (config_tag, config, sync) = opened(stream.skip(3));
            let (info_tag, info, none) = opened(config.skip(13));
            let (sync_tag, layer, end) = opened(sync);
            &&& tag == 0x03
            &&& after.len() == 0
            &&& blank(stream, 0, 3)
            &&& config_tag == 0x04
            &&& config[0] == 0x40
            &&& config[1] == 0x15
            &&& blank(config, 2, 13)
            &&& info_tag == 0x05
            &&& info == asc
            &&& none.len() == 0
            &&& sync_tag == 0x06
            &&& layer == seq![0x02u8]
            &&& end.len() == 0
        }),
{
    broadcast use group_enc_len;

    let nothing = Seq::<u8>::empty();
    let sync = descriptor_spec(0x06, seq![0x02u8]);
    let config = decoder_config(asc);
    let stream = enc16(0) + seq![0u8] + descriptor_spec(0x04, config) + sync;
    assert(esds_spec(asc) =~= descriptor_spec(0x03, stream) + nothing);
    law_a_descriptor_reads_back(0x03, stream, nothing);
    assert(stream.skip(3) =~= descriptor_spec(0x04, config) + sync);
    law_a_descriptor_reads_back(0x04, config, sync);
    assert(config.skip(13) =~= descriptor_spec(0x05, asc) + nothing);
    law_a_descriptor_reads_back(0x05, asc, nothing);
    assert(sync =~= sync + nothing);
    law_a_descriptor_reads_back(0x06, seq![0x02u8], nothing);
    reveal(enc16);
    reveal(enc32);
}

/// The flags a sample is written with: a keyframe depends on no other sample
/// and any other depends on some, by the two bits for it; only a keyframe is
/// without the bit of a sample that is none; no other bit is set.
pub proof fn law_the_flags_of_a_written_sample(keyframe: bool)
    ensures
        sample_flags(keyframe) / 0x100_0000 % 4 == (if keyframe {
            2int
        } else {
            1
        }),
        sample_flags(keyframe) / 0x1_0000 % 2 == (if keyframe {
            0int
        } else {
            1
        }),
        sample_flags(keyframe) / 0x400_0000 == 0,
        sample_flags(keyframe) / 0x2_0000 % 0x80 == 0,
        sample_flags(keyframe) % 0x1_0000 == 0,
{
}

} // verus!
