//! What the boxes of a movie say together.
//!
//! Nothing here runs. The laws of the other layouts say what one box says;
//! these say which box is asked for what, and what comes of several.

use vstd::prelude::*;

use crate::be::{enc32, group_enc_len};
use crate::boxes::{
    children_spec, first_of, found, full_body, law_top_level_covers_the_file, lemma_tile_order,
    parse_header_spec, tile, top_level_spec, BoxHeader, BoxSize, BoxSpan, Kid,
};
use crate::codes::{MOOF, MOOV, TFHD, TRAF, TRUN};
use crate::error::Error;
use crate::fragment::{
    bytes_before, fragment_spec, lemma_bytes_grow, moof_spec, run_after, run_samples, runs_after,
    sample_bytes_spec, start_spec, tfdt_spec, tfhd_spec, ticks_before, traf_spec, trafs_after,
    trun_spec, Entry, Reach, Tfhd,
};
use crate::layout::{
    broken, law_a_co64_reads_back, law_a_ctts_reads_back, law_an_stco_reads_back,
    law_an_stsc_reads_back, law_an_stss_reads_back, law_an_stsz_reads_back, law_an_stts_reads_back,
    lemma_only_first, lemma_only_run, only, stacked, table_body, twos32,
};
use crate::layout_boxes::{law_a_header_in_every_form, long_boxed, short_boxed};
use crate::limits::Limits;
use crate::tables::{assembled, sizes_spec, stbl_spec, stz2_spec, Charts, Widths};
use crate::time::clamp64;
use crate::track::{
    after_times_spec, all_spec, body_spec, edit_spec, edited, first_kept, first_span,
    fragments_after, from_init_spec, handler_spec, mdhd_spec, moov_track, mvhd_spec, next_dts_spec,
    numbered, picked, read_spec, sample_entry_spec, trak_spec, traks_among, trex_among, Edit,
    Handler, Pick, Reel, Sample, TrexDefaults,
};

verus! {

// ------------------------------------------------------------------ //
// The tables.
// ------------------------------------------------------------------ //
/// The tables of a track: a size for each sample, the chunks by 32 bits or by
/// 64, the chunk map, the times, and the offsets and the sync samples where
/// there are any.
pub struct Book {
    pub sizes: Seq<u32>,
    pub chunks: Seq<u64>,
    pub long: bool,
    pub runs: Seq<(u32, u32, u32)>,
    pub times: Option<Seq<(u32, u32)>>,
    pub composition: Option<Seq<(u32, i32)>>,
    pub sync: Option<Seq<u32>>,
}

impl Book {
    pub open spec fn stsz(self) -> Seq<u8> {
        full_body(
            0,
            0,
            enc32(0) + enc32(self.sizes.len() as u32) + stacked(self.sizes, |v: u32| enc32(v))
                + Seq::empty(),
        )
    }

    pub open spec fn stco(self) -> Seq<u8> {
        let short = self.chunks.map_values(|v: u64| v as u32);
        table_body(0, 0, short.len(), stacked(short, |v: u32| enc32(v)), Seq::empty())
    }

    pub open spec fn co64(self) -> Seq<u8> {
        table_body(
            0,
            0,
            self.chunks.len(),
            stacked(self.chunks, |v: u64| crate::be::enc64(v)),
            Seq::empty(),
        )
    }

    pub open spec fn stsc(self) -> Seq<u8> {
        table_body(
            0,
            0,
            self.runs.len(),
            stacked(self.runs, |row: (u32, u32, u32)| enc32(row.0) + enc32(row.1) + enc32(row.2)),
            Seq::empty(),
        )
    }

    pub open spec fn stts(times: Seq<(u32, u32)>) -> Seq<u8> {
        table_body(
            0,
            0,
            times.len(),
            stacked(times, |row: (u32, u32)| enc32(row.0) + enc32(row.1)),
            Seq::empty(),
        )
    }

    pub open spec fn ctts(composition: Seq<(u32, i32)>) -> Seq<u8> {
        table_body(
            0,
            0,
            composition.len(),
            stacked(composition, |row: (u32, i32)| enc32(row.0) + enc32(twos32(row.1))),
            Seq::empty(),
        )
    }

    pub open spec fn stss(sync: Seq<u32>) -> Seq<u8> {
        table_body(0, 0, sync.len(), stacked(sync, |v: u32| enc32(v)), Seq::empty())
    }

    /// Whether the numbers are ones the tables can hold.
    pub open spec fn holds(self) -> bool {
        &&& self.sizes.len() < 0x1000_0000
        &&& self.chunks.len() < 0x1000_0000
        &&& self.runs.len() < 0x1000_0000
        &&& self.times matches Some(times) ==> times.len() < 0x1000_0000
        &&& self.composition matches Some(composition) ==> composition.len() < 0x1000_0000
        &&& self.sync matches Some(sync) ==> sync.len() < 0x1000_0000
        &&& !self.long ==> forall|c: int|
            0 <= c < self.chunks.len() ==> #[trigger] self.chunks[c] <= u32::MAX
    }

    /// Whether the children of an `stbl` are these tables, each the first of
    /// its kind.
    pub open spec fn is_in(self, stbl: Seq<Kid>) -> bool {
        &&& found(stbl, [0x73u8, 0x74, 0x73, 0x7a]) == Some(self.stsz())
        &&& self.long ==> found(stbl, [0x73u8, 0x74, 0x63, 0x6f]) is None
        &&& self.long ==> found(stbl, [0x63u8, 0x6f, 0x36, 0x34]) == Some(self.co64())
        &&& !self.long ==> found(stbl, [0x73u8, 0x74, 0x63, 0x6f]) == Some(self.stco())
        &&& found(stbl, [0x73u8, 0x74, 0x73, 0x63]) == Some(self.stsc())
        &&& found(stbl, [0x73u8, 0x74, 0x74, 0x73]) == (match self.times {
            Some(times) => Some(Book::stts(times)),
            None => None,
        })
        &&& found(stbl, [0x63u8, 0x74, 0x74, 0x73]) == (match self.composition {
            Some(composition) => Some(Book::ctts(composition)),
            None => None,
        })
        &&& found(stbl, [0x73u8, 0x74, 0x73, 0x73]) == (match self.sync {
            Some(sync) => Some(Book::stss(sync)),
            None => None,
        })
    }
}

/// An `stbl` gives the samples its tables describe, each table out of the box
/// that is there for it; one of more samples than the limit is refused, and
/// one of no samples needs no other table.
#[verifier::rlimit(40)]
pub proof fn law_an_stbl_reads_back(stbl: Seq<Kid>, book: Book, limits: Limits)
    requires
        book.holds(),
        book.is_in(stbl),
    ensures
        ({
            let charts = Charts {
                sizes: Widths::Table(book.sizes),
                chunks: book.chunks,
                runs: book.runs,
                times: match book.times {
                    Some(times) => times,
                    None => Seq::empty(),
                },
                composition: match book.composition {
                    Some(composition) => composition,
                    None => Seq::empty(),
                },
                sync: book.sync,
            };
            &&& book.sizes.len() == 0 ==> stbl_spec(stbl, limits) == Ok::<_, Error>(
                Seq::<Sample>::empty(),
            )
            &&& 0 < book.sizes.len() <= limits.max_samples ==> stbl_spec(stbl, limits)
                == assembled(charts)
            &&& book.sizes.len() > limits.max_samples ==> stbl_spec(stbl, limits) is Err
        }),
{
    let none = Seq::<u8>::empty();
    let kid = first_of(stbl, [0x73u8, 0x74, 0x73, 0x7a]).unwrap();
    law_an_stsz_reads_back(0, 0, 0, 0, book.sizes, none, kid.at, limits);
    if book.long {
        let kid = first_of(stbl, [0x63u8, 0x6f, 0x36, 0x34]).unwrap();
        law_a_co64_reads_back(0, 0, book.chunks, none, kid.at);
    } else {
        let kid = first_of(stbl, [0x73u8, 0x74, 0x63, 0x6f]).unwrap();
        let short = book.chunks.map_values(|v: u64| v as u32);
        law_an_stco_reads_back(0, 0, short, none, kid.at);
        assert(short.map_values(|v: u32| v as u64) =~= book.chunks);
    }
    let kid = first_of(stbl, [0x73u8, 0x74, 0x73, 0x63]).unwrap();
    law_an_stsc_reads_back(0, 0, book.runs, none, kid.at);
    if let Some(times) = book.times {
        let kid = first_of(stbl, [0x73u8, 0x74, 0x74, 0x73]).unwrap();
        law_an_stts_reads_back(0, 0, times, none, kid.at);
    }
    if let Some(composition) = book.composition {
        let kid = first_of(stbl, [0x63u8, 0x74, 0x74, 0x73]).unwrap();
        law_a_ctts_reads_back(0, 0, composition, none, kid.at);
    }
    if let Some(sync) = book.sync {
        let kid = first_of(stbl, [0x73u8, 0x74, 0x73, 0x73]).unwrap();
        law_an_stss_reads_back(0, 0, sync, none, kid.at);
    }
}

/// The sizes of an `stbl` with no `stsz` are those of its `stz2`, and one with
/// neither has no samples.
pub proof fn law_an_stz2_stands_in(stbl: Seq<Kid>, limits: Limits)
    requires
        found(stbl, [0x73u8, 0x74, 0x73, 0x7a]) is None,
    ensures
        first_of(stbl, [0x73u8, 0x74, 0x7a, 0x32]) matches Some(kid) ==> sizes_spec(stbl, limits)
            == stz2_spec(kid.body, kid.at),
        first_of(stbl, [0x73u8, 0x74, 0x7a, 0x32]) is None ==> stbl_spec(stbl, limits) == Ok::<
            _,
            Error,
        >(Seq::<Sample>::empty()),
{
}

// ------------------------------------------------------------------ //
// The track.
// ------------------------------------------------------------------ //
/// Where each thing that is known of a track is kept: its number in the
/// `tkhd`, its timescale in the `mdhd`, its handler in the `hdlr`, its coding
/// in the first entry of the `stsd`, its samples in the tables beside it, its
/// edit list in the `elst`, which is counted in the movie's ticks and the
/// track's, and its fragment defaults in the `trex` of its number. A track
/// without a `tkhd` is the first; one without a `hdlr` has none; one without
/// an `elst` has no edits.
pub proof fn law_what_a_track_is_read_from(
    entry: Kid,
    movie_timescale: u32,
    moov: Seq<Kid>,
    limits: Limits,
    trak: Seq<Kid>,
    mdia: Seq<Kid>,
    minf: Seq<Kid>,
    stbl: Seq<Kid>,
)
    requires
        children_spec(entry.body, entry.at, limits.max_children) == Ok::<_, Error>(trak),
        first_of(trak, [0x6du8, 0x64, 0x69, 0x61]) matches Some(kid) && children_spec(
            kid.body,
            kid.at,
            limits.max_children,
        ) == Ok::<_, Error>(mdia),
        first_of(mdia, [0x6du8, 0x69, 0x6e, 0x66]) matches Some(kid) && children_spec(
            kid.body,
            kid.at,
            limits.max_children,
        ) == Ok::<_, Error>(minf),
        first_of(minf, [0x73u8, 0x74, 0x62, 0x6c]) matches Some(kid) && children_spec(
            kid.body,
            kid.at,
            limits.max_children,
        ) == Ok::<_, Error>(stbl),
        trak_spec(entry, movie_timescale, moov, limits) is Ok,
    ensures
        ({
            let read = trak_spec(entry, movie_timescale, moov, limits)->Ok_0;
            let reel = read.unwrap();
            &&& read is Some
            &&& reel.movie_timescale == movie_timescale
            &&& reel.start_shift == 0
            &&& match first_of(trak, [0x74u8, 0x6b, 0x68, 0x64]) {
                None => reel.track_id == 1,
                Some(tkhd) => after_times_spec(tkhd.body, tkhd.at) == Ok::<_, Error>(reel.track_id),
            }
            &&& match first_of(mdia, [0x6du8, 0x64, 0x68, 0x64]) {
                None => false,
                Some(mdhd) => mdhd_spec(mdhd.body, mdhd.at) == Ok::<_, Error>(reel.timescale),
            }
            &&& match first_of(mdia, [0x68u8, 0x64, 0x6c, 0x72]) {
                None => reel.handler == Handler::Other([0, 0, 0, 0]),
                Some(hdlr) => handler_spec(hdlr.body, hdlr.at) == Ok::<_, Error>(reel.handler),
            }
            &&& match first_of(stbl, [0x73u8, 0x74, 0x73, 0x64]) {
                None => false,
                Some(stsd) => sample_entry_spec(stsd.body, stsd.at, limits) == Ok::<_, Error>(
                    reel.entry,
                ),
            }
            &&& stbl_spec(stbl, limits) == Ok::<_, Error>(reel.samples)
            &&& match first_of(trak, [0x65u8, 0x64, 0x74, 0x73]) {
                None => reel.edit == (Edit { empty: 0, media_time: None }),
                Some(edts) => match first_of(
                    children_spec(edts.body, edts.at, limits.max_children)->Ok_0,
                    [0x65u8, 0x6c, 0x73, 0x74],
                ) {
                    None => reel.edit == (Edit { empty: 0, media_time: None }),
                    Some(elst) => edit_spec(elst.body, elst.at, movie_timescale, reel.timescale)
                        == Ok::<_, Error>(reel.edit),
                },
            }
            &&& match first_of(moov, [0x6du8, 0x76, 0x65, 0x78]) {
                None => reel.defaults == (TrexDefaults { duration: 0, size: 0, flags: 0 }),
                Some(mvex) => trex_among(
                    children_spec(mvex.body, mvex.at, limits.max_children)->Ok_0,
                    reel.track_id,
                ) == Ok::<_, Error>(reel.defaults),
            }
        }),
{
}

/// Whether a track is one that was asked for.
pub open spec fn asked(track: Reel, pick: Pick) -> bool {
    match pick {
        Pick::Video => track.handler is Video,
        Pick::Audio => track.handler is Audio,
        Pick::Id(id) => track.track_id == id,
        Pick::First => true,
    }
}

/// The track that is read is the first that was asked for, and there is none
/// only where no track is.
pub proof fn law_the_first_track_asked_for(list: Seq<Reel>, pick: Pick)
    ensures
        match picked(list, pick) {
            None => forall|j: int| 0 <= j < list.len() ==> !asked(#[trigger] list[j], pick),
            Some(track) => exists|i: int|
                0 <= i < list.len() && #[trigger] list[i] == track && asked(track, pick) && forall|
                    j: int,
                |
                    0 <= j < i ==> !asked(#[trigger] list[j], pick),
        },
    decreases list.len(),
{
    if list.len() > 0 {
        let rest = list.drop_first();
        law_the_first_track_asked_for(rest, pick);
        if asked(list[0], pick) {
            assert(list[0] == picked(list, pick).unwrap());
        } else {
            match picked(rest, pick) {
                None => {
                    assert forall|j: int| 0 <= j < list.len() implies !asked(
                        #[trigger] list[j],
                        pick,
                    ) by {
                        if j > 0 {
                            assert(rest[j - 1] == list[j]);
                        }
                    }
                },
                Some(track) => {
                    let i = choose|i: int|
                        0 <= i < rest.len() && #[trigger] rest[i] == track && asked(track, pick)
                            && forall|j: int| 0 <= j < i ==> !asked(#[trigger] rest[j], pick);
                    assert(list[i + 1] == track);
                    assert forall|j: int| 0 <= j < i + 1 implies !asked(
                        #[trigger] list[j],
                        pick,
                    ) by {
                        if j > 0 {
                            assert(rest[j - 1] == list[j]);
                        }
                    }
                },
            }
        }
    }
}

/// The tracks among some boxes are those among the first of them and then
/// those among the rest.
#[verifier::rlimit(40)]
pub proof fn law_tracks_come_in_order(
    a: Seq<Kid>,
    b: Seq<Kid>,
    movie_timescale: u32,
    moov: Seq<Kid>,
    limits: Limits,
)
    ensures
        ({
            let all = traks_among(a + b, movie_timescale, moov, limits);
            let before = traks_among(a, movie_timescale, moov, limits);
            let after = traks_among(b, movie_timescale, moov, limits);
            &&& all is Ok <==> before is Ok && after is Ok
            &&& all is Ok ==> all->Ok_0 == before->Ok_0 + after->Ok_0
        }),
    decreases a.len(),
{
    let after = traks_among(b, movie_timescale, moov, limits);
    if a.len() == 0 {
        assert(a + b =~= b);
        if after is Ok {
            assert(Seq::<Reel>::empty() + after->Ok_0 =~= after->Ok_0);
        }
    } else {
        let rest = a.drop_first();
        assert((a + b).drop_first() =~= rest + b);
        law_tracks_come_in_order(rest, b, movie_timescale, moov, limits);
        let before = traks_among(rest, movie_timescale, moov, limits);
        if before is Ok && after is Ok {
            assert forall|front: Seq<Reel>|
                front + (before->Ok_0 + after->Ok_0) == #[trigger] (front + before->Ok_0)
                    + after->Ok_0 by {
                assert(front + (before->Ok_0 + after->Ok_0) =~= (front + before->Ok_0)
                    + after->Ok_0);
            }
        }
    }
}

/// A `trak` is a track, unless it has no `mdia`; another box is none.
pub proof fn law_a_trak_is_a_track(
    entry: Kid,
    movie_timescale: u32,
    moov: Seq<Kid>,
    limits: Limits,
)
    ensures
        ({
            let list = traks_among(seq![entry], movie_timescale, moov, limits);
            let trak = entry.kind == [0x74u8, 0x72, 0x61, 0x6b];
            let children = children_spec(entry.body, entry.at, limits.max_children);
            let read = trak_spec(entry, movie_timescale, moov, limits);
            &&& !trak ==> list == Ok::<_, Error>(Seq::<Reel>::empty())
            &&& trak && children is Ok && found(children->Ok_0, [0x6du8, 0x64, 0x69, 0x61]) is None
                ==> list == Ok::<_, Error>(Seq::<Reel>::empty())
            &&& trak && (read matches Ok(Some(_))) ==> list == Ok::<_, Error>(
                seq![read->Ok_0.unwrap()],
            )
        }),
{
    assert(seq![entry].drop_first() =~= Seq::empty());
    let rest = traks_among(seq![entry].drop_first(), movie_timescale, moov, limits);
    assert(rest == Ok::<_, Error>(Seq::<Reel>::empty()));
    assert forall|front: Seq<Reel>| #[trigger] (front + Seq::<Reel>::empty()) == front by {
        assert(front + Seq::<Reel>::empty() =~= front);
    }
}

/// The movie's timescale is its `mvhd`'s, and a thousand where it has none.
pub proof fn law_the_movie_timescale(moov: Seq<u8>, at: u64, limits: Limits, list: Seq<Kid>)
    requires
        children_spec(moov, at, limits.max_children) == Ok::<_, Error>(list),
    ensures
        first_of(list, [0x6du8, 0x76, 0x68, 0x64]) is None ==> all_spec(moov, at, limits)
            == traks_among(list, 1000, list, limits),
        (first_of(list, [0x6du8, 0x76, 0x68, 0x64]) matches Some(mvhd) && mvhd_spec(
            mvhd.body,
            mvhd.at,
        ) is Ok) ==> all_spec(moov, at, limits) == traks_among(
            list,
            mvhd_spec(
                first_of(list, [0x6du8, 0x76, 0x68, 0x64]).unwrap().body,
                first_of(list, [0x6du8, 0x76, 0x68, 0x64]).unwrap().at,
            )->Ok_0,
            list,
            limits,
        ),
{
}

/// The edit list moves a track so that the first sample it keeps, the first
/// that is shown no earlier than the media time, is shown when the empty edits
/// are over; where none is kept, the media time itself is moved there, and
/// with no media time nothing but the empty edits counts.
pub proof fn law_where_an_edit_list_moves_a_track(track: Reel, i: int)
    requires
        track.edit.media_time is Some ==> 0 <= i <= track.samples.len() && (forall|j: int|
            0 <= j < i ==> (#[trigger] track.samples[j]).pts < track.edit.media_time.unwrap()) && (i
            < track.samples.len() ==> track.samples[i].pts >= track.edit.media_time.unwrap()),
    ensures
        ({
            let moved = edited(track);
            &&& track.edit.media_time is None ==> moved.start_shift == track.edit.empty
            &&& track.edit.media_time matches Some(media_time) ==> {
                &&& i < track.samples.len() ==> moved.start_shift == clamp64(
                    track.edit.empty - track.samples[i].pts,
                )
                &&& i == track.samples.len() ==> moved.start_shift == clamp64(
                    track.edit.empty - media_time,
                )
            }
            &&& moved.samples.len() == track.samples.len()
            &&& moved.track_id == track.track_id
            &&& moved.handler == track.handler
            &&& moved.timescale == track.timescale
            &&& moved.movie_timescale == track.movie_timescale
            &&& moved.entry == track.entry
            &&& moved.edit == track.edit
            &&& moved.defaults == track.defaults
            &&& forall|k: int|
                0 <= k < track.samples.len() ==> (#[trigger] moved.samples[k]).pts == clamp64(
                    track.samples[k].pts + moved.start_shift,
                ) && moved.samples[k].dts == clamp64(track.samples[k].dts + moved.start_shift)
        }),
{
    if let Some(media_time) = track.edit.media_time {
        lemma_kept(track.samples, media_time, i);
    }
}

proof fn lemma_kept(samples: Seq<Sample>, media_time: i64, i: int)
    requires
        0 <= i <= samples.len(),
        forall|j: int| 0 <= j < i ==> (#[trigger] samples[j]).pts < media_time,
        i < samples.len() ==> samples[i].pts >= media_time,
    ensures
        first_kept(samples, media_time) == (if i < samples.len() {
            samples[i].pts
        } else {
            media_time
        }),
    decreases i,
{
    if i > 0 {
        assert(samples[0].pts < media_time);
        let rest = samples.drop_first();
        assert forall|j: int| 0 <= j < i - 1 implies (#[trigger] rest[j]).pts < media_time by {
            assert(rest[j] == samples[j + 1]);
        }
        lemma_kept(rest, media_time, i - 1);
    }
}

// ------------------------------------------------------------------ //
// The fragments.
// ------------------------------------------------------------------ //
/// The runs among some boxes are read in order, each from where the ones
/// before it came to.
pub proof fn law_runs_come_in_order(
    reach: Reach,
    a: Seq<Kid>,
    b: Seq<Kid>,
    tfhd: Tfhd,
    trex: TrexDefaults,
    base: u64,
    mine: bool,
    limits: Limits,
)
    ensures
        runs_after(reach, a + b, tfhd, trex, base, mine, limits) == (match runs_after(
            reach,
            a,
            tfhd,
            trex,
            base,
            mine,
            limits,
        ) {
            Err(err) => Err(err),
            Ok(next) => runs_after(next, b, tfhd, trex, base, mine, limits),
        }),
    decreases a.len(),
{
    if a.len() == 0 {
        assert(a + b =~= b);
    } else {
        let rest = a.drop_first();
        assert((a + b).drop_first() =~= rest + b);
        if a[0].kind != TRUN {
            law_runs_come_in_order(reach, rest, b, tfhd, trex, base, mine, limits);
        } else if let Ok(run) = trun_spec(a[0].body, a[0].at, tfhd, trex, limits) {
            if let Ok(next) = run_after(reach, run, base, mine, a[0].at, limits) {
                law_runs_come_in_order(next, rest, b, tfhd, trex, base, mine, limits);
            }
        }
    }
}

/// Where the data of a track fragment is counted from: the place its `tfhd`
/// gives, else the `moof` where the `tfhd` says so or it is the first, else
/// the end of the data before it.
pub open spec fn counted_from(tfhd: Tfhd, moof_start: u64, first: bool, previous: u64) -> u64 {
    match tfhd.base_data_offset {
        Some(base) => base,
        None => if tfhd.base_is_moof || first {
            moof_start
        } else {
            previous
        },
    }
}

/// A track fragment of one run: its first sample is as far from the place its
/// data is counted from as the run says, and is decoded when the `tfdt` says
/// or, without one, when the samples before it are over. Every other sample is
/// behind the one before, in the file and in time. A sample is as large, lasts
/// as long and is shown as far from its decode time as its row says, and is a
/// keyframe when its flags do not have the bit that says it is none. The data
/// ends where the last sample does, and the clock stands where it is over.
#[verifier::rlimit(40)]
pub proof fn law_what_a_track_fragment_says(
    traf: Kid,
    moof_start: u64,
    first: bool,
    previous: u64,
    want: Option<u32>,
    trex: TrexDefaults,
    clock: i64,
    limits: Limits,
    a: int,
    b: int,
    i: int,
)
    requires
        ({
            let inner = children_spec(traf.body, traf.at, limits.max_children)->Ok_0;
            let tfhd = tfhd_spec(inner[a].body, inner[a].at)->Ok_0;
            let run = trun_spec(inner[b].body, inner[b].at, tfhd, trex, limits)->Ok_0;
            &&& children_spec(traf.body, traf.at, limits.max_children) is Ok
            &&& only(inner, TFHD, a)
            &&& only(inner, TRUN, b)
            &&& traf_spec(traf, moof_start, first, previous, want, trex, clock, limits) is Ok
            &&& want matches Some(id) ==> id == tfhd.track_id
            &&& 0 <= i < run.1.len()
        }),
    ensures
        ({
            let inner = children_spec(traf.body, traf.at, limits.max_children)->Ok_0;
            let tfhd = tfhd_spec(inner[a].body, inner[a].at)->Ok_0;
            let (offset, rows) = trun_spec(inner[b].body, inner[b].at, tfhd, trex, limits)->Ok_0;
            let reach = traf_spec(
                traf,
                moof_start,
                first,
                previous,
                want,
                trex,
                clock,
                limits,
            )->Ok_0;
            let sample = reach.samples[i];
            &&& reach.samples.len() == rows.len()
            &&& i == 0 ==> sample.offset == counted_from(tfhd, moof_start, first, previous) + (
            match offset {
                Some(offset) => offset as int,
                None => 0,
            })
            &&& i == 0 ==> (match first_of(inner, [0x74u8, 0x66, 0x64, 0x74]) {
                None => sample.dts == clock,
                Some(tfdt) => tfdt_spec(tfdt.body, tfdt.at) == Ok::<_, Error>(sample.dts),
            })
            &&& i > 0 ==> sample.offset == reach.samples[i - 1].offset + reach.samples[i - 1].size
            &&& i > 0 ==> sample.dts == clamp64(
                reach.samples[i - 1].dts + reach.samples[i - 1].duration,
            )
            &&& sample.size == rows[i].size
            &&& sample.duration == rows[i].duration
            &&& sample.pts == clamp64(sample.dts + rows[i].composition_offset)
            &&& sample.keyframe == (rows[i].flags & 0x1_0000 == 0)
            &&& i == rows.len() - 1 ==> reach.end == sample.offset + sample.size
            &&& i == rows.len() - 1 ==> reach.clock == clamp64(sample.dts + sample.duration)
        }),
{
    let inner = children_spec(traf.body, traf.at, limits.max_children)->Ok_0;
    lemma_only_first(inner, TFHD, a);
    let tfhd = tfhd_spec(inner[a].body, inner[a].at)->Ok_0;
    let run = trun_spec(inner[b].body, inner[b].at, tfhd, trex, limits)->Ok_0;
    let base = tfhd.base_spec(moof_start, first, previous);
    let start = start_spec(inner, true, clock)->Ok_0;
    let empty = Reach { samples: Seq::empty(), end: base, clock: start };
    lemma_only_run(empty, inner, b, tfhd, trex, base, true, limits);
    let from = match run.0 {
        Some(offset) => base + offset,
        None => base as int,
    };
    let samples = run_samples(run.1, from as u64, start);
    assert(Seq::<Sample>::empty() + samples =~= samples);
    let n = run.1.len();
    lemma_bytes_grow(run.1, (i + 1) as nat, n);
    assert(bytes_before(run.1, 0) == 0 && ticks_before(run.1, 0) == 0);
    assert(bytes_before(run.1, (i + 1) as nat) == bytes_before(run.1, i as nat) + run.1[i].size);
    assert(ticks_before(run.1, (i + 1) as nat) == ticks_before(run.1, i as nat)
        + run.1[i].duration);
    if i > 0 {
        lemma_bytes_grow(run.1, i as nat, n);
        lemma_bytes_grow(run.1, (i - 1) as nat, n);
        assert(bytes_before(run.1, i as nat) == bytes_before(run.1, (i - 1) as nat) + run.1[i
            - 1].size);
        assert(ticks_before(run.1, i as nat) == ticks_before(run.1, (i - 1) as nat) + run.1[i
            - 1].duration);
    }
}

/// A `moof` of two track fragments: the samples of the first and then those of
/// the second, whose data is counted from the end of the first's where its
/// `tfhd` does not say otherwise, and whose clock goes on from the first's.
pub proof fn law_two_track_fragments(
    body: Seq<u8>,
    moof_start: u64,
    body_at: u64,
    want: Option<u32>,
    trex: TrexDefaults,
    clock: i64,
    limits: Limits,
    a: Seq<Kid>,
    one: Kid,
    b: Seq<Kid>,
    two: Kid,
    c: Seq<Kid>,
)
    requires
        children_spec(body, body_at, limits.max_children) == Ok::<_, Error>(
            a + (seq![one] + (b + (seq![two] + c))),
        ),
        one.kind == [0x74u8, 0x72, 0x61, 0x66],
        two.kind == [0x74u8, 0x72, 0x61, 0x66],
        forall|j: int| 0 <= j < a.len() ==> (#[trigger] a[j]).kind != TRAF,
        forall|j: int| 0 <= j < b.len() ==> (#[trigger] b[j]).kind != TRAF,
        forall|j: int| 0 <= j < c.len() ==> (#[trigger] c[j]).kind != TRAF,
    ensures
        ({
            let read = moof_spec(body, moof_start, body_at, want, trex, clock, limits);
            let first = traf_spec(one, moof_start, true, moof_start, want, trex, clock, limits);
            let second = traf_spec(
                two,
                moof_start,
                false,
                first->Ok_0.end,
                want,
                trex,
                first->Ok_0.clock,
                limits,
            );
            &&& read is Ok <==> first is Ok && second is Ok
            &&& read is Ok ==> {
                &&& read->Ok_0.samples == first->Ok_0.samples + second->Ok_0.samples
                &&& read->Ok_0.end == second->Ok_0.end
                &&& read->Ok_0.clock == second->Ok_0.clock
            }
        }),
{
    let empty = Reach { samples: Seq::empty(), end: moof_start, clock };
    let rest = b + (seq![two] + c);
    lemma_skip_others(empty, true, a, seq![one] + rest, moof_start, want, trex, limits);
    assert((seq![one] + rest).drop_first() =~= rest);
    let first = traf_spec(one, moof_start, true, moof_start, want, trex, clock, limits);
    if let Ok(first) = first {
        assert(Seq::<Sample>::empty() + first.samples =~= first.samples);
        lemma_skip_others(first, false, b, seq![two] + c, moof_start, want, trex, limits);
        assert((seq![two] + c).drop_first() =~= c);
        let second = traf_spec(
            two,
            moof_start,
            false,
            first.end,
            want,
            trex,
            first.clock,
            limits,
        );
        if let Ok(second) = second {
            let both = Reach { samples: first.samples + second.samples, ..second };
            lemma_skip_others(both, false, c, Seq::empty(), moof_start, want, trex, limits);
            assert(c + Seq::<Kid>::empty() =~= c);
        }
    }
}

proof fn lemma_skip_others(
    reach: Reach,
    first: bool,
    a: Seq<Kid>,
    b: Seq<Kid>,
    moof_start: u64,
    want: Option<u32>,
    trex: TrexDefaults,
    limits: Limits,
)
    requires
        forall|j: int| 0 <= j < a.len() ==> (#[trigger] a[j]).kind != TRAF,
    ensures
        trafs_after(reach, first, a + b, moof_start, want, trex, limits) == trafs_after(
            reach,
            first,
            b,
            moof_start,
            want,
            trex,
            limits,
        ),
    decreases a.len(),
{
    if a.len() == 0 {
        assert(a + b =~= b);
    } else {
        let rest = a.drop_first();
        assert(a[0].kind != TRAF);
        assert((a + b).drop_first() =~= rest + b);
        assert forall|j: int| 0 <= j < rest.len() implies (#[trigger] rest[j]).kind != TRAF by {
            assert(rest[j] == a[j + 1]);
        }
        lemma_skip_others(reach, first, rest, b, moof_start, want, trex, limits);
    }
}

/// The data of another track's fragment takes up its place all the same: where
/// it ends does not depend on which track was asked for.
pub proof fn law_another_tracks_data_takes_its_place(
    reach: Reach,
    other: Reach,
    run: (Option<i64>, Seq<Entry>),
    base: u64,
    trun_at: u64,
    limits: Limits,
)
    requires
        reach.end == other.end,
    ensures
        ({
            let mine = run_after(reach, run, base, true, trun_at, limits);
            let not = run_after(other, run, base, false, trun_at, limits);
            mine is Ok && not is Ok ==> mine->Ok_0.end == not->Ok_0.end
        }),
{
}

/// A file's one `moof` carries on where the samples of its `moov` ended: in the
/// file's list its samples are behind those, its clock begins when the last of
/// those is over, and its defaults are the track's. The edit list then moves
/// all of them.
pub proof fn law_a_fragment_carries_on(
    data: Seq<u8>,
    len: u64,
    limits: Limits,
    pick: Pick,
    top: Seq<BoxSpan>,
    m: int,
)
    requires
        len <= data.len(),
        top_level_spec(data, len, limits) == Ok::<_, Error>(top),
        0 <= m < top.len(),
        forall|j: int|
            0 <= j < top.len() ==> ((#[trigger] top[j]).kind == [0x6du8, 0x6f, 0x6f, 0x66] <==> j
                == m),
        read_spec(data, len, limits, pick) is Ok,
    ensures
        ({
            let track = moov_track(data, len, limits, top, pick)->Ok_0;
            let clock = if track.samples.len() == 0 {
                0
            } else {
                clamp64(track.samples.last().dts + track.samples.last().duration)
            };
            let reach = moof_spec(
                data.subrange(top[m].body as int, top[m].end as int),
                top[m].start,
                top[m].body,
                Some(track.track_id),
                track.defaults,
                clock,
                limits,
            );
            &&& reach is Ok
            &&& read_spec(data, len, limits, pick)->Ok_0 == edited(
                Reel { samples: track.samples + reach->Ok_0.samples, ..track },
            )
        }),
{
    let track = moov_track(data, len, limits, top, pick)->Ok_0;
    let clock = next_dts_spec(track.samples);
    law_top_level_covers_the_file(data, len, limits);
    let to = choose|to: int| #[trigger] tile(top, 0, to) && to <= len < to + 8;
    assert(top[m].start + 8 <= top[m].body && top[m].body <= top[m].end);
    if m < top.len() - 1 {
        lemma_tile_order(top, 0, to, m, top.len() - 1);
    }
    law_fragments_come_in_order(
        data,
        len,
        limits,
        top,
        m,
        track.track_id,
        track.defaults,
        track.samples,
        clock,
    );
    let reach = moof_spec(
        data.subrange(top[m].body as int, top[m].end as int),
        top[m].start,
        top[m].body,
        Some(track.track_id),
        track.defaults,
        clock,
        limits,
    )->Ok_0;
    let rest = top.skip(m + 1);
    assert forall|j: int| 0 <= j < rest.len() implies (#[trigger] rest[j]).kind != MOOF by {
        assert(rest[j] == top[j + m + 1]);
    }
    lemma_no_moof(
        data,
        len,
        limits,
        rest,
        track.track_id,
        track.defaults,
        track.samples + reach.samples,
        reach.clock,
    );
}

proof fn lemma_no_moof(
    data: Seq<u8>,
    len: u64,
    limits: Limits,
    list: Seq<BoxSpan>,
    track_id: u32,
    defaults: TrexDefaults,
    samples: Seq<Sample>,
    clock: i64,
)
    requires
        forall|j: int| 0 <= j < list.len() ==> (#[trigger] list[j]).kind != MOOF,
    ensures
        fragments_after(data, len, limits, list, track_id, defaults, samples, clock) == Ok::<
            _,
            Error,
        >(samples),
    decreases list.len(),
{
    if list.len() > 0 {
        let rest = list.drop_first();
        assert(list[0].kind != MOOF);
        assert forall|j: int| 0 <= j < rest.len() implies (#[trigger] rest[j]).kind != MOOF by {
            assert(rest[j] == list[j + 1]);
        }
        lemma_no_moof(data, len, limits, rest, track_id, defaults, samples, clock);
    }
}

/// The fragments of a file are read in order: what the first adds is behind the
/// samples there were, and the next goes on from its clock.
pub proof fn law_fragments_come_in_order(
    data: Seq<u8>,
    len: u64,
    limits: Limits,
    list: Seq<BoxSpan>,
    m: int,
    track_id: u32,
    defaults: TrexDefaults,
    samples: Seq<Sample>,
    clock: i64,
)
    requires
        len <= data.len(),
        0 <= m < list.len(),
        list[m].body <= list[m].end <= len,
        list[m].kind == [0x6du8, 0x6f, 0x6f, 0x66],
        forall|j: int| 0 <= j < m ==> (#[trigger] list[j]).kind != [0x6du8, 0x6f, 0x6f, 0x66],
        fragments_after(data, len, limits, list, track_id, defaults, samples, clock) is Ok,
    ensures
        ({
            let reach = moof_spec(
                data.subrange(list[m].body as int, list[m].end as int),
                list[m].start,
                list[m].body,
                Some(track_id),
                defaults,
                clock,
                limits,
            );
            &&& reach is Ok
            &&& fragments_after(data, len, limits, list, track_id, defaults, samples, clock)
                == fragments_after(
                data,
                len,
                limits,
                list.skip(m + 1),
                track_id,
                defaults,
                samples + reach->Ok_0.samples,
                reach->Ok_0.clock,
            )
        }),
    decreases list.len(),
{
    let rest = list.drop_first();
    if m > 0 {
        assert(list[0].kind != MOOF);
        assert forall|j: int| 0 <= j < m - 1 implies (#[trigger] rest[j]).kind != MOOF by {
            assert(rest[j] == list[j + 1]);
        }
        law_fragments_come_in_order(
            data,
            len,
            limits,
            rest,
            m - 1,
            track_id,
            defaults,
            samples,
            clock,
        );
        assert(rest.skip(m) =~= list.skip(m + 1));
    } else {
        let body = body_spec(data, len, limits, list[0])->Ok_0;
        assert(body =~= data.subrange(list[0].body as int, list[0].end as int));
        assert(rest =~= list.skip(1));
    }
}

/// A file without fragments is the track its `moov` describes, moved by its
/// edit list.
pub proof fn law_a_file_without_fragments(
    data: Seq<u8>,
    len: u64,
    limits: Limits,
    pick: Pick,
    top: Seq<BoxSpan>,
)
    requires
        top_level_spec(data, len, limits) == Ok::<_, Error>(top),
        forall|j: int|
            0 <= j < top.len() ==> (#[trigger] top[j]).kind != [0x6du8, 0x6f, 0x6f, 0x66],
        moov_track(data, len, limits, top, pick) is Ok,
    ensures
        read_spec(data, len, limits, pick) == Ok::<_, Error>(
            edited(moov_track(data, len, limits, top, pick)->Ok_0),
        ),
{
    let track = moov_track(data, len, limits, top, pick)->Ok_0;
    lemma_no_moof(
        data,
        len,
        limits,
        top,
        track.track_id,
        track.defaults,
        track.samples,
        next_dts_spec(track.samples),
    );
}

/// The `moov` that is read is the first, wherever in the file it is, and the
/// track is the one of its tracks that was asked for.
pub proof fn law_the_first_moov_is_read(
    data: Seq<u8>,
    len: u64,
    limits: Limits,
    pick: Pick,
    top: Seq<BoxSpan>,
    m: int,
)
    requires
        len <= data.len(),
        0 <= m < top.len(),
        top[m].body <= top[m].end <= len,
        top[m].kind == [0x6du8, 0x6f, 0x6f, 0x76],
        forall|j: int| 0 <= j < m ==> (#[trigger] top[j]).kind != [0x6du8, 0x6f, 0x6f, 0x76],
        moov_track(data, len, limits, top, pick) is Ok,
    ensures
        ({
            let list = all_spec(
                data.subrange(top[m].body as int, top[m].end as int),
                top[m].body,
                limits,
            );
            &&& list is Ok
            &&& picked(list->Ok_0, pick) == Some(moov_track(data, len, limits, top, pick)->Ok_0)
        }),
{
    lemma_first_at(top, m);
    let body = body_spec(data, len, limits, top[m])->Ok_0;
    assert(body =~= data.subrange(top[m].body as int, top[m].end as int));
}

proof fn lemma_first_at(list: Seq<BoxSpan>, m: int)
    requires
        0 <= m < list.len(),
        list[m].kind == MOOV,
        forall|j: int| 0 <= j < m ==> (#[trigger] list[j]).kind != MOOV,
    ensures
        first_span(list, MOOV) == Some(list[m]),
    decreases m,
{
    if m > 0 {
        let rest = list.drop_first();
        assert(list[0].kind != MOOV);
        assert forall|j: int| 0 <= j < m - 1 implies (#[trigger] rest[j]).kind != MOOV by {
            assert(rest[j] == list[j + 1]);
        }
        lemma_first_at(rest, m - 1);
    }
}

proof fn lemma_moof_opens(
    all: Seq<u8>,
    head: u64,
    size: u64,
    at: u64,
    track_id: u32,
    defaults: TrexDefaults,
)
    requires
        parse_header_spec(all, at) == Ok::<_, Error>(
            Some(BoxHeader { kind: MOOF, header_len: head, size: BoxSize::Exact(size) }),
        ),
        size <= all.len(),
        size <= usize::MAX,
    ensures
        fragment_spec(all, at, track_id, defaults) == (match moof_spec(
            all.subrange(head as int, size as int),
            at,
            (at + head) as u64,
            Some(track_id),
            defaults,
            0,
            Limits::usual(),
        ) {
            Err(err) => Err(err),
            Ok(reach) => Ok(numbered(reach.samples)),
        }),
{
}

/// A fragment is read from the `moof` it opens with, in either form of its
/// header, whatever follows it: the samples are those of the track asked for,
/// from a clock of zero, numbered from the first.
#[verifier::rlimit(40)]
pub proof fn law_a_fragment_is_read_from_its_moof(
    payload: Seq<u8>,
    long: bool,
    rest: Seq<u8>,
    at: u64,
    track_id: u32,
    defaults: TrexDefaults,
    i: int,
)
    requires
        16 + payload.len() < 0x1_0000_0000,
        16 + payload.len() <= usize::MAX,
        at + 16 + payload.len() + rest.len() <= u64::MAX,
    ensures
        ({
            let head: int = if long {
                16
            } else {
                8
            };
            let kind = [0x6du8, 0x6f, 0x6f, 0x66];
            let moof = if long {
                long_boxed(kind, (16 + payload.len()) as u64, payload)
            } else {
                short_boxed(kind, (8 + payload.len()) as u32, payload)
            };
            let read = fragment_spec(moof + rest, at, track_id, defaults);
            let inner = moof_spec(
                payload,
                at,
                (at + head) as u64,
                Some(track_id),
                defaults,
                0,
                Limits::usual(),
            );
            &&& read is Ok <==> inner is Ok
            &&& read is Ok ==> {
                &&& read->Ok_0.len() == inner->Ok_0.samples.len()
                &&& 0 <= i < read->Ok_0.len() ==> read->Ok_0[i] == (Sample {
                    index: (i % 0x1_0000_0000) as u32,
                    ..inner->Ok_0.samples[i]
                })
            }
        }),
{
    broadcast use group_enc_len;

    let kind = [0x6du8, 0x6f, 0x6f, 0x66];
    let size = (8 + payload.len()) as u32;
    let wide = (16 + payload.len()) as u64;
    law_a_header_in_every_form(kind, size, wide, payload + rest, at);
    if long {
        let all = long_boxed(kind, wide, payload) + rest;
        assert(all =~= long_boxed(kind, wide, payload + rest));
        assert(all.subrange(16, wide as int) =~= payload);
        lemma_moof_opens(all, 16, wide, at, track_id, defaults);
    } else {
        let all = short_boxed(kind, size, payload) + rest;
        assert(all =~= short_boxed(kind, size, payload + rest));
        assert(all.subrange(8, size as int) =~= payload);
        lemma_moof_opens(all, 8, size as u64, at, track_id, defaults);
    }
}

/// The bytes of a sample are those of its fragment from its place on, as many
/// as it is large, counted from where the fragment begins; a sample that is
/// not all in its fragment has none.
pub proof fn law_the_bytes_of_a_sample(
    before: Seq<u8>,
    data: Seq<u8>,
    after: Seq<u8>,
    at: u64,
    sample: Sample,
)
    requires
        before.len() + data.len() + after.len() <= usize::MAX,
        at + before.len() + data.len() + after.len() <= u64::MAX,
    ensures
        sample.offset == at + before.len() && sample.size == data.len() ==> sample_bytes_spec(
            before + data + after,
            at,
            sample,
        ) == Ok::<_, Error>(data),
        sample.offset < at || sample.offset + sample.size > at + before.len() + data.len()
            + after.len() ==> sample_bytes_spec(before + data + after, at, sample) is Err,
{
    let all = before + data + after;
    let from = before.len() as int;
    assert(all.subrange(from, from + data.len()) =~= data);
}

/// An init segment is read as the one track of its first `moov`; one without a
/// `moov` or a track breaks a rule, and one of several tracks is not carried.
pub proof fn law_an_init_segment_has_one_track(
    init: Seq<u8>,
    limits: Limits,
    list: Seq<Kid>,
    tracks: Seq<Reel>,
)
    requires
        children_spec(init, 0, 0x1_0000) == Ok::<_, Error>(list),
        first_of(list, [0x6du8, 0x6f, 0x6f, 0x76]) matches Some(moov) ==> all_spec(
            moov.body,
            moov.at,
            limits,
        ) == Ok::<_, Error>(tracks),
    ensures
        ({
            let read = from_init_spec(init, limits);
            let moov = first_of(list, [0x6du8, 0x6f, 0x6f, 0x76]);
            &&& moov is None || tracks.len() == 0 ==> broken(read)
            &&& moov is Some && tracks.len() == 1 ==> read == Ok::<_, Error>(tracks[0])
            &&& moov is Some && tracks.len() > 1 ==> (read matches Err(err) && err is Unsupported)
        }),
{
}

} // verus!
