//! What a scanner makes of the boxes of a stream.
//!
//! Nothing here runs. The laws say which segment a box goes to, by the boxes
//! before it, and which streams are refused.

use vstd::prelude::*;

use crate::be::be32;
use crate::boxes::{boxed_spec, law_built_header_reads_back, parse_header_spec, BoxSize, Kid};
use crate::codes::{MFHD, TFHD, TRAF, TRUN};
use crate::error::Error;
use crate::fragment::{set_in, tfhd_spec, NON_SYNC};
use crate::scanner::{
    flags_among, holdable, moof_summary_spec, sequence_spec, summary_after, traf_flags_spec, Cut,
    MoofSummary, OpenEnded, Phase, Scan,
};

verus! {

/// A `moof` is refused where none may be: before any `moov`, inside a fragment
/// that has no `mdat` yet, and behind the trailer's first box. Nothing is
/// taken off the stream then, nor cut.
pub proof fn law_where_no_moof_may_be(scan: Scan)
    requires
        scan.open_ended == OpenEnded::No,
        parse_header_spec(scan.buf, scan.base) matches Ok(Some(header)) && header.kind == [
            0x6du8,
            0x6f,
            0x6f,
            0x66,
        ] && (header.size matches BoxSize::Exact(size) && size <= scan.limits.max_buffered_box),
        scan.phase == Phase::Init && !scan.saw_moov || scan.phase == Phase::Fragments
            && scan.frag.len() > 0 || scan.phase == Phase::Trailer,
    ensures
        scan.scanned().0 matches Err(err) && err is Format,
        scan.scanned().1 == scan,
{
    reveal(Scan::scanned);
}

/// A box that says it is longer than a scanner will hold is refused as soon as
/// its header is there, whatever it is and wherever in the stream.
pub proof fn law_no_box_is_too_long(scan: Scan)
    requires
        scan.open_ended == OpenEnded::No,
        parse_header_spec(scan.buf, scan.base) matches Ok(Some(header)) && (
        header.size matches BoxSize::Exact(size) && size > scan.limits.max_buffered_box),
    ensures
        scan.scanned().0 matches Err(err) && err is Unsupported,
        scan.scanned().1 == scan,
{
    reveal(Scan::scanned);
}

/// A box that is not all there, or of which not even the header is, is waited
/// for, and nothing changes meanwhile.
pub proof fn law_a_box_is_waited_for(scan: Scan)
    requires
        scan.open_ended == OpenEnded::No,
        match parse_header_spec(scan.buf, scan.base) {
            Err(_) => false,
            Ok(None) => true,
            Ok(Some(header)) => (header.size matches BoxSize::Exact(size) && scan.buf.len() < size
                <= scan.limits.max_buffered_box) && (header.kind == [0x6du8, 0x6f, 0x6f, 0x66]
                <==> scan.phase == Phase::Fragments && scan.frag.len() == 0),
        },
    ensures
        scan.scanned() == (Ok::<(), Error>(()), scan),
{
    reveal(Scan::scanned);
}

/// A box between a `moof` and its `mdat` belongs to the fragment, behind what
/// there is of it; the `moof` alone is what the fragment is summed up by.
pub proof fn law_a_box_joins_the_fragment(
    scan: Scan,
    kind: [u8; 4],
    payload: Seq<u8>,
    rest: Seq<u8>,
)
    requires
        scan.sane(),
        scan.open_ended == OpenEnded::No,
        scan.phase == Phase::Fragments,
        scan.frag.len() > 0,
        kind != [0x6du8, 0x6f, 0x6f, 0x66],
        kind != [0x6du8, 0x64, 0x61, 0x74],
        holdable(scan.limits, payload),
        scan.buf == boxed_spec(kind, payload) + rest,
    ensures
        scan.scanned() == (Scan {
            buf: rest,
            base: (scan.base + 8 + payload.len()) as u64,
            frag: scan.frag + boxed_spec(kind, payload),
            ..scan
        }).scanned(),
{
    reveal(Scan::scanned);
    law_built_header_reads_back(kind, payload, rest, scan.base);
    let size = (8 + payload.len()) as int;
    assert(scan.buf.take(size) =~= boxed_spec(kind, payload));
    assert(scan.buf.skip(size) =~= rest);
}

/// An `mdat` ends the fragment it is behind: all of it comes out, from where
/// its `moof` began, with what the `moof` says, and the next may begin.
pub proof fn law_an_mdat_ends_the_fragment(scan: Scan, payload: Seq<u8>, rest: Seq<u8>)
    requires
        scan.sane(),
        scan.open_ended == OpenEnded::No,
        scan.phase == Phase::Fragments,
        scan.frag.len() > 0,
        holdable(scan.limits, payload),
        moof_summary_spec(scan.frag.take(scan.frag_moof_len as int), scan.frag_start) is Ok,
        scan.buf == boxed_spec([0x6du8, 0x64, 0x61, 0x74], payload) + rest,
    ensures
        scan.scanned() == (Scan {
            buf: rest,
            base: (scan.base + 8 + payload.len()) as u64,
            frag: Seq::empty(),
            frag_moof_len: 0,
            out: scan.out.push(
                Cut::Fragment {
                    bytes: scan.frag + boxed_spec([0x6du8, 0x64, 0x61, 0x74], payload),
                    offset: scan.frag_start,
                    summary: moof_summary_spec(
                        scan.frag.take(scan.frag_moof_len as int),
                        scan.frag_start,
                    )->Ok_0,
                },
            ),
            ..scan
        }).scanned(),
{
    reveal(Scan::scanned);
    let kind = [0x6du8, 0x64, 0x61, 0x74];
    law_built_header_reads_back(kind, payload, rest, scan.base);
    let size = (8 + payload.len()) as int;
    let mdat = boxed_spec(kind, payload);
    assert(scan.buf.take(size) =~= mdat);
    assert(scan.buf.skip(size) =~= rest);
    let n = scan.frag_moof_len as int;
    assert((scan.frag + mdat).take(n) =~= scan.frag.take(n));
}

/// A box that is no `moof` behind a fragment begins the trailer, and every box
/// from there on belongs to it.
pub proof fn law_a_box_joins_the_trailer(
    scan: Scan,
    kind: [u8; 4],
    payload: Seq<u8>,
    rest: Seq<u8>,
)
    requires
        scan.sane(),
        scan.open_ended == OpenEnded::No,
        scan.phase == Phase::Fragments && scan.frag.len() == 0 || scan.phase == Phase::Trailer,
        kind != [0x6du8, 0x6f, 0x6f, 0x66],
        holdable(scan.limits, payload),
        scan.buf == boxed_spec(kind, payload) + rest,
    ensures
        scan.scanned() == (Scan {
            phase: Phase::Trailer,
            buf: rest,
            base: (scan.base + 8 + payload.len()) as u64,
            trailer: scan.trailer + boxed_spec(kind, payload),
            ..scan
        }).scanned(),
{
    reveal_with_fuel(Scan::scanned, 2);
    law_built_header_reads_back(kind, payload, rest, scan.base);
    let size = (8 + payload.len()) as int;
    assert(scan.buf.take(size) =~= boxed_spec(kind, payload));
    assert(scan.buf.skip(size) =~= rest);
}

/// A box without a length takes all that comes: what is buffered at once, and
/// every chunk after it, each behind the last, as far as a scanner will hold.
pub proof fn law_an_open_ended_box_takes_all_that_comes(scan: Scan, chunk: Seq<u8>)
    requires
        scan.sane(),
        scan.open_ended != OpenEnded::No,
        scan.base + chunk.len() <= u64::MAX,
    ensures
        ({
            let (done, next) = scan.pushed(chunk);
            &&& next.base == scan.base + chunk.len()
            &&& next.buf == scan.buf
            &&& next.out == scan.out
            &&& next.open_ended == scan.open_ended
            &&& next.init == scan.init + (if scan.open_ended == OpenEnded::Init {
                chunk
            } else {
                Seq::empty()
            })
            &&& next.frag == scan.frag + (if scan.open_ended == OpenEnded::Fragment {
                chunk
            } else {
                Seq::empty()
            })
            &&& next.trailer == scan.trailer + (if scan.open_ended == OpenEnded::Trailer {
                chunk
            } else {
                Seq::empty()
            })
            &&& done is Ok <==> scan.base + chunk.len() - scan.open_start
                <= scan.limits.max_buffered_box
        }),
{
    let none = Seq::<u8>::empty();
    assert(scan.init + none =~= scan.init);
    assert(scan.frag + none =~= scan.frag);
    assert(scan.trailer + none =~= scan.trailer);
}

/// Which box is open, by where it is: before the first `moof` it is the init
/// segment's, behind a `moof` the fragment's, and else the trailer's; all that
/// is buffered is its own.
pub proof fn law_where_an_open_ended_box_goes(scan: Scan)
    requires
        scan.sane(),
        scan.open_ended == OpenEnded::No,
        parse_header_spec(scan.buf, scan.base) matches Ok(Some(header)) && header.size
            == BoxSize::ToEnd && header.kind != [0x6du8, 0x6f, 0x6f, 0x66],
        scan.buf.len() <= scan.limits.max_buffered_box,
    ensures
        ({
            let (done, next) = scan.scanned();
            &&& done is Ok
            &&& next.buf.len() == 0
            &&& next.base == scan.base + scan.buf.len()
            &&& next.open_start == scan.base
            &&& next.out == scan.out
            &&& match scan.phase {
                Phase::Init => next.open_ended == OpenEnded::Init && next.init == scan.init
                    + scan.buf,
                Phase::Fragments => if scan.frag.len() > 0 {
                    next.open_ended == OpenEnded::Fragment && next.frag == scan.frag + scan.buf
                        && next.frag_start == scan.frag_start && next.frag_moof_len
                        == scan.frag_moof_len
                } else {
                    next.open_ended == OpenEnded::Trailer && next.trailer == scan.trailer
                        + scan.buf
                },
                Phase::Trailer => next.open_ended == OpenEnded::Trailer && next.trailer
                    == scan.trailer + scan.buf,
            }
        }),
{
    reveal_with_fuel(Scan::scanned, 2);
    assert(scan.buf.take(scan.buf.len() as int) =~= scan.buf);
}

/// How a stream may end: with the last fragment cut and nothing begun, or in
/// an open-ended box of the trailer, or in one of a fragment, which comes out
/// with it. A stream that ends inside a box, inside a fragment, or before any
/// fragment is refused as cut short.
pub proof fn law_how_a_stream_may_end(scan: Scan)
    requires
        scan.sane(),
    ensures
        ({
            let (done, next) = scan.finished();
            let moof = scan.frag.take(scan.frag_moof_len as int);
            match scan.open_ended {
                OpenEnded::No => {
                    &&& next == scan
                    &&& done is Ok <==> scan.frag.len() == 0 && scan.buf.len() == 0 && scan.phase
                        != Phase::Init
                    &&& done matches Err(err) ==> err is Truncated
                },
                OpenEnded::Init => next == scan && (done matches Err(err) && err is Truncated),
                OpenEnded::Trailer => done is Ok && next.trailer == scan.trailer && next.out
                    == scan.out,
                OpenEnded::Fragment => {
                    let summary = moof_summary_spec(moof, scan.frag_start);
                    &&& done is Ok <==> summary is Ok
                    &&& done is Ok ==> next.frag.len() == 0 && next.out == scan.out.push(
                        Cut::Fragment {
                            bytes: scan.frag,
                            offset: scan.frag_start,
                            summary: summary->Ok_0,
                        },
                    )
                },
            }
        }),
{
}

/// The segments come out in the order they were cut, one at a time.
pub proof fn law_segments_come_out_in_order(scan: Scan, i: int)
    requires
        0 <= i < scan.out.len() - 1,
    ensures
        scan.polled().out.len() == scan.out.len() - 1,
        scan.polled().out[i] == scan.out[i + 1],
        scan.polled().buf == scan.buf,
        scan.polled().base == scan.base,
        scan.polled().trailer == scan.trailer,
{
}

// ------------------------------------------------------------------ //
// The summary of a fragment.
// ------------------------------------------------------------------ //
/// Once a track fragment has said whether its first sample is a keyframe, no
/// later box says otherwise.
pub proof fn law_the_first_answer_stands(known: MoofSummary, list: Seq<Kid>)
    requires
        known.first_sample_keyframe is Some,
    ensures
        summary_after(known, list) matches Ok(summary) ==> summary.first_sample_keyframe
            == known.first_sample_keyframe,
    decreases list.len(),
{
    if list.len() > 0 {
        if list[0].kind == MFHD {
            if let Ok(sequence) = sequence_spec(list[0].body, list[0].at) {
                law_the_first_answer_stands(
                    MoofSummary { sequence: Some(sequence), ..known },
                    list.drop_first(),
                );
            }
        } else {
            law_the_first_answer_stands(known, list.drop_first());
        }
    }
}

/// A track fragment that does not say leaves the question to the next, and the
/// first that does say answers it, by the bit of its flags.
pub proof fn law_a_track_fragment_is_asked(known: MoofSummary, one: Kid, rest: Seq<Kid>)
    requires
        known.first_sample_keyframe is None,
        one.kind == [0x74u8, 0x72, 0x61, 0x66],
        summary_after(known, seq![one] + rest) is Ok,
    ensures
        traf_flags_spec(one) is Ok,
        traf_flags_spec(one)->Ok_0 is None ==> summary_after(known, seq![one] + rest)
            == summary_after(known, rest),
        traf_flags_spec(one)->Ok_0 matches Some(flags) ==> summary_after(
            known,
            seq![one] + rest,
        )->Ok_0.first_sample_keyframe == Some(flags & 0x1_0000 == 0),
{
    let list = seq![one] + rest;
    assert(list[0] == one);
    assert(list.drop_first() =~= rest);
    if let Ok(Some(flags)) = traf_flags_spec(one) {
        law_the_first_answer_stands(
            MoofSummary { first_sample_keyframe: Some(flags & 0x1_0000 == 0), ..known },
            rest,
        );
    }
}

/// In a track fragment the first run answers, and what is behind it changes
/// nothing.
pub proof fn law_the_first_run_answers(list: Seq<Kid>, more: Seq<Kid>, b: int, default: Option<u32>)
    requires
        0 <= b < list.len(),
        list[b].kind == [0x74u8, 0x72, 0x75, 0x6e],
    ensures
        flags_among(list + more, default) == flags_among(list, default),
    decreases list.len(),
{
    let rest = list.drop_first();
    assert((list + more).drop_first() =~= rest + more);
    if list[0].kind == TFHD {
        if let Ok(tfhd) = tfhd_spec(list[0].body, list[0].at) {
            law_the_first_run_answers(rest, more, b - 1, tfhd.default_flags);
        }
    } else if list[0].kind != TRUN {
        law_the_first_run_answers(rest, more, b - 1, default);
    }
}

/// A fragment is numbered by its `mfhd`, wherever among its boxes that is, and
/// is not numbered without one.
pub proof fn law_the_number_of_a_fragment(known: MoofSummary, list: Seq<Kid>, i: int)
    requires
        0 <= i <= list.len(),
        forall|j: int|
            0 <= j < list.len() ==> ((#[trigger] list[j]).kind == [0x6du8, 0x66, 0x68, 0x64]
                <==> j == i),
    ensures
        summary_after(known, list) matches Ok(summary) ==> {
            &&& i == list.len() ==> summary.sequence == known.sequence
            &&& i < list.len() ==> list[i].body.len() >= 8 && summary.sequence == Some(
                be32(list[i].body, 4),
            )
        },
    decreases list.len(),
{
    if list.len() > 0 {
        let rest = list.drop_first();
        assert(list[0].kind == MFHD <==> 0 == i);
        assert forall|j: int| 0 <= j < rest.len() implies ((#[trigger] rest[j]).kind == MFHD <==> j
            == i - 1) by {
            assert(rest[j] == list[j + 1]);
        }
        if i == 0 {
            if let Ok(sequence) = sequence_spec(list[0].body, list[0].at) {
                law_the_number_of_a_fragment(
                    MoofSummary { sequence: Some(sequence), ..known },
                    rest,
                    rest.len() as int,
                );
            }
        } else {
            law_the_number_of_a_fragment(known, rest, i - 1);
            if list[0].kind == TRAF && known.first_sample_keyframe is None {
                if let Ok(Some(flags)) = traf_flags_spec(list[0]) {
                    law_the_number_of_a_fragment(
                        MoofSummary {
                            first_sample_keyframe: Some(!set_in(flags, NON_SYNC)),
                            ..known
                        },
                        rest,
                        i - 1,
                    );
                }
            }
        }
    }
}

} // verus!
