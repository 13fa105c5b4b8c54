//! What a muxer makes of the packets it is given.
//!
//! Nothing here runs. The laws say in numbers what becomes of a packet's
//! times, and which tracks and packets are refused.

use vstd::prelude::*;

use crate::be::{be32, enc32, group_enc_len};
use crate::error::Error;
use crate::mux::{
    data_of, duration_of, first_known, flowing, fresh, held, in64, law_the_sync_flag_is_the_packets,
    left_waiting, lemma_emit, lemma_first_known, lemma_one_leaves, moof_len, refusal, resolved,
    Content, Mode, Mux, Packet, Waiting,
};

verus! {

// ------------------------------------------------------------------ //
// The track.
// ------------------------------------------------------------------ //
/// Which tracks can be written: a video track of one of the five kinds that
/// keep a record of their own, with a record; an audio track with a record and
/// channels; and either only in a time base that is positive.
pub proof fn law_which_tracks_are_refused(content: Content, num: i32, den: i32)
    ensures
        refusal(content, num, den) is None <==> num > 0 && den > 0 && (match content {
            Content::Video { kind, config, .. } => config.len() > 0 && (kind == [
                0x61u8,
                0x76,
                0x63,
                0x31,
            ] || kind == [0x61u8, 0x76, 0x63, 0x33] || kind == [0x68u8, 0x76, 0x63, 0x31] || kind
                == [0x68u8, 0x65, 0x76, 0x31] || kind == [0x61u8, 0x76, 0x30, 0x31]),
            Content::Audio { channels, config, .. } => config.len() > 0 && channels > 0,
        }),
        refusal(content, num, den) matches Some(err) ==> (err is Unsupported <==> (
        content matches Content::Video { kind, .. } && !content.carried())),
        refusal(content, num, den) matches Some(err) ==> err is Unsupported || err is Format,
{
}

/// A muxer begins with the track it was made for: its ticks a second are the
/// denominator of the time base and a packet's tick is the numerator of them,
/// the movie counts in milliseconds, the track is the first, a fragment holds
/// one sample, and the first is numbered one.
pub proof fn law_a_new_muxer(content: Content, num: i32, den: i32)
    requires
        num > 0,
        den > 0,
    ensures
        ({
            let mux = fresh(content, num, den);
            &&& mux.plan.content == content
            &&& mux.plan.timescale == den
            &&& mux.plan.movie_timescale == 1000
            &&& mux.plan.track_id == 1
            &&& mux.tick_scale == num
            &&& mux.mode == Mode::PerSample
            &&& mux.sequence == 1
            &&& mux.pending.len() == 0
            &&& mux.open.len() == 0
            &&& mux.dts_shift is None
            &&& mux.last_duration is None
        }),
{
}

// ------------------------------------------------------------------ //
// The decode times.
// ------------------------------------------------------------------ //
/// While no packet has a decode time, none is settled; when nothing more comes
/// they are decoded in the order they are shown.
pub proof fn law_a_stream_without_decode_times(pending: Seq<Waiting>, i: int)
    requires
        forall|j: int| 0 <= j < pending.len() ==> (#[trigger] pending[j]).dts is None,
        0 <= i < pending.len(),
    ensures
        resolved(pending, false) == Some(Ok::<_, Error>(Seq::<i64>::empty())),
        resolved(pending, true) matches Some(Ok(dts)) && dts.len() == pending.len() && dts[i]
            == pending[i].pts,
{
    lemma_first_known(pending);
    if let Some(k) = first_known(pending) {
        assert(pending[k as int].dts is None);
    }
}

/// Packets that all have decode times keep them.
pub proof fn law_decode_times_that_came_are_kept(pending: Seq<Waiting>, flush: bool, i: int)
    requires
        forall|j: int| 0 <= j < pending.len() ==> (#[trigger] pending[j]).dts is Some,
        0 <= i < pending.len(),
    ensures
        resolved(pending, flush) matches Some(out) ==> (out matches Ok(dts) && dts.len()
            == pending.len() && dts[i] == pending[i].dts.unwrap()),
{
    assert(pending[0].dts is Some);
    lemma_first_known(pending);
    if let Some(k) = first_known(pending) {
        if k > 0 {
            assert(pending[0].dts is None);
        }
    } else {
        assert(pending[0].dts is None);
    }
}

/// The first decode time settles nothing before it until the next packet says
/// what a step is; when nothing more comes, what is before it is decoded with
/// it. The one that came is kept.
pub proof fn law_one_decode_time(pending: Seq<Waiting>, i: int)
    requires
        pending.len() > 1,
        pending.last().dts is Some,
        forall|j: int| 0 <= j < pending.len() - 1 ==> (#[trigger] pending[j]).dts is None,
        0 <= i < pending.len(),
    ensures
        resolved(pending, false) == Some(Ok::<_, Error>(Seq::<i64>::empty())),
        resolved(pending, true) matches Some(Ok(dts)) && dts.len() == pending.len() && dts[i]
            == pending.last().dts.unwrap(),
{
    let last = (pending.len() - 1) as nat;
    lemma_first_known(pending);
    assert(pending[last as int].dts is Some);
    match first_known(pending) {
        None => {},
        Some(k) => {
            if k < last {
                assert(pending[k as int].dts is None);
            }
            assert(k == last);
            assert forall|j: int| 0 <= j < k implies in64(0 * (k - j)) && in64(
                #[trigger] crate::mux::decode_time(pending, k, 0, j),
            ) by {
                assert(0 * (k - j) == 0);
                assert(pending[j].dts is None);
            }
            assert(0 * (k - i) == 0);
            if i < last {
                assert(pending[i].dts is None);
            }
        },
    }
}

/// Once a decode time has come every packet has to bring one: a stream that
/// does not is refused, as far as the numbers on the way fit.
pub proof fn law_a_decode_time_that_is_missing(pending: Seq<Waiting>, k: int, j: int)
    requires
        0 <= k < j < pending.len(),
        pending[k].dts is Some,
        pending[j].dts is None,
    ensures
        resolved(pending, true) is None || (resolved(pending, true) matches Some(Err(err)) && err
            is Format),
        !(resolved(pending, false) matches Some(Ok(dts)) && dts.len() > 0),
{
    lemma_first_known(pending);
    if first_known(pending) is None {
        assert(pending[k].dts is None);
    } else {
        let first = first_known(pending).unwrap();
        if first > k {
            assert(pending[k].dts is None);
        }
        assert(!crate::mux::known_from(pending, first)) by {
            assert(pending[j].dts is None);
        }
    }
}

/// A packet lasts as long as it says; one that does not say lasts until the
/// next is decoded, which may not be before it; the last of all lasts as long
/// as the last that was known, or not at all.
pub proof fn law_how_long_a_packet_lasts(
    sample: Waiting,
    dts: Seq<i64>,
    i: int,
    last: Option<i64>,
)
    requires
        0 <= i < dts.len(),
    ensures
        duration_of(sample, dts, i, last) matches Some(Ok(duration)) ==> {
            &&& sample.duration matches Some(own) ==> duration == own
            &&& sample.duration is None && i + 1 < dts.len() ==> dts[i] + duration == dts[i + 1]
                && dts[i] <= dts[i + 1]
            &&& sample.duration is None && i + 1 == dts.len() ==> duration == (match last {
                Some(last) => last,
                None => 0,
            })
        },
        sample.duration is None && i + 1 < dts.len() && dts[i + 1] < dts[i] && in64(
            dts[i + 1] - dts[i],
        ) ==> (duration_of(sample, dts, i, last) matches Some(Err(_))),
        sample.duration is Some || i + 1 == dts.len() || dts[i] <= dts[i + 1] && in64(
            dts[i + 1] - dts[i],
        ) ==> (duration_of(sample, dts, i, last) matches Some(Ok(_))),
{
}

/// What a sample is settled as: decoded at its decode time and shown at its
/// presentation time, both moved up by the same, which is what the stream was
/// moved by before or, for the first, what brings a negative decode time to
/// zero; counted in media ticks, of which a tick of the packets is so many.
/// It is as long as its bytes, and it is refused exactly where a number does
/// not fit its field.
#[verifier::rlimit(40)]
pub proof fn law_what_a_sample_is_settled_as(mux: Mux, sample: Waiting, dts: i64, duration: i64)
    requires
        mux.wf(),
        -0x2000_0000_0000_0000 <= dts <= 0x2000_0000_0000_0000,
        mux.dts_shift matches Some(shift) ==> 0 <= shift <= 0x2000_0000_0000_0000,
        in64(dts * mux.tick_scale * 2),
        in64((sample.pts - dts) * mux.tick_scale),
        in64(duration * mux.tick_scale),
        mux.dts_shift matches Some(shift) ==> in64((dts + shift) * mux.tick_scale),
    ensures
        ({
            let shift = match mux.dts_shift {
                Some(shift) => shift as int,
                None => if dts < 0 {
                    -dts
                } else {
                    0
                },
            };
            let scale = mux.tick_scale as int;
            let out = mux.settle(sample, dts, duration);
            let fits = dts + shift >= 0 && i32::MIN <= (sample.pts - dts) * scale <= i32::MAX && 0
                <= duration * scale <= u32::MAX;
            &&& out is Some
            &&& out.unwrap().1.dts_shift == Some(shift as i64)
            &&& out.unwrap().0 is Ok <==> fits
            &&& out.unwrap().0 matches Err(err) ==> err is Format && out.unwrap().1.open
                == mux.open
            &&& fits ==> {
                let ready = out.unwrap().1.open.last();
                &&& out.unwrap().1.open.drop_last() == mux.open
                &&& ready.base_decode_time == (dts + shift) * scale
                &&& ready.base_decode_time + ready.entry.cts == (sample.pts + shift) * scale
                &&& ready.entry.duration == duration * scale
                &&& ready.data == sample.data
                &&& ready.pts == sample.pts
                &&& sample.data.len() < 0x1_0000_0000 ==> ready.entry.size == sample.data.len()
                &&& sample.keyframe == (ready.entry.flags & 0x1_0000 == 0)
            }
        }),
{
    let shift = mux.shift_for(dts);
    let scale = mux.tick_scale as int;
    law_the_sync_flag_is_the_packets(sample.keyframe);
    let offset = sample.pts - dts;
    assert(in64(offset)) by (nonlinear_arith)
        requires
            in64(offset * scale),
            scale >= 1,
    ;
    assert(dts + shift >= 0 ==> (dts + shift) * scale >= 0) by (nonlinear_arith)
        requires
            scale >= 1,
    ;
    assert((dts + shift) * scale + offset * scale == (sample.pts + shift) * scale)
        by (nonlinear_arith)
        requires
            offset == sample.pts - dts,
    ;
    if mux.dts_shift is None {
        assert(in64((dts + shift) * scale)) by (nonlinear_arith)
            requires
                in64(dts * scale * 2),
                scale >= 1,
                shift == -dts || shift == 0,
        ;
    }
    if let Some((Ok(_), next)) = mux.settle(sample, dts, duration) {
        assert(next.open.drop_last() =~= mux.open);
    }
}

/// The duration a last packet falls back to is the last that was not zero.
#[verifier::rlimit(60)]
pub proof fn law_the_last_duration_is_remembered(
    mux: Mux,
    before: Option<Waiting>,
    packet: Packet<'_>,
)
    requires
        flowing(mux, before),
        packet.data@.len() > 0,
        packet.dts is Some,
    ensures
        mux.pushed(packet) matches Some((Ok(_), next)) ==> {
            let step = packet.dts.unwrap() - left_waiting(before)[0].dts.unwrap();
            let known = if left_waiting(before).len() > 0 && step > 0 {
                Some(step as i64)
            } else {
                mux.last_duration
            };
            next.last_duration == (match packet.duration {
                Some(own) => if own > 0 {
                    Some(own)
                } else {
                    known
                },
                None => known,
            })
        },
{
    let one = held(packet);
    let dts = one.dts.unwrap();
    let waited = left_waiting(before);
    let fed = Mux { pending: mux.pending.push(one), ..mux };
    let list = fed.pending;
    reveal_with_fuel(first_known, 2);
    assert(list[0].dts is Some);
    assert(first_known(list) == Some(0nat));
    if mux.pushed(packet) matches Some((Ok(_), _)) {
        let times = resolved(list, false)->Some_0->Ok_0;
        let count = fed.going(times, false) as int;
        let start = Mux { pending: list.skip(count), ..fed };
        let samples = list.take(count);
        lemma_emit(start, samples, times, 0);
        if waited.len() > 0 {
            let earlier = waited[0].dts.unwrap();
            assert(list =~= seq![waited[0], one]);
            assert(times =~= seq![earlier, dts]);
            assert(samples[0] == waited[0]);
            let step = (dts - earlier) as i64;
            lemma_one_leaves(start, samples, times, 0, step);
            let then = start.after_one(earlier, step);
            let rest = samples.drop_first();
            if let Some(own) = one.duration {
                assert(rest =~= seq![one]);
                lemma_one_leaves(then, rest, times, 1, own);
                assert(rest.drop_first() =~= Seq::empty());
            } else {
                assert(rest =~= Seq::empty());
            }
        } else {
            assert(list =~= seq![one]);
            assert(times =~= seq![dts]);
            if let Some(own) = one.duration {
                assert(samples =~= seq![one]);
                lemma_one_leaves(start, samples, times, 0, own);
                assert(samples.drop_first() =~= Seq::empty());
            } else {
                assert(samples =~= Seq::empty());
            }
        }
    }
}

/// What a fragment says of itself: its number, and of its first sample the
/// decode time, the presentation time and whether a decoder may start there;
/// how many samples it has. Its bytes end with an `mdat` of the samples', one
/// behind another, and the next fragment's number is one more.
pub proof fn law_what_a_fragment_says_of_itself(mux: Mux)
    requires
        mux.open.len() > 0,
    ensures
        mux.close() matches Some((Some(piece), next)) ==> {
            let data = data_of(mux.open);
            let start = piece.bytes.len() - data.len() - 8;
            &&& piece.sequence == mux.sequence
            &&& piece.base_decode_time == mux.open[0].base_decode_time
            &&& piece.pts == mux.open[0].pts
            &&& piece.samples == mux.open.len()
            &&& piece.keyframe == (mux.open[0].entry.flags & 0x1_0000 == 0)
            &&& next.sequence == mux.sequence + 1
            &&& next.open.len() == 0
            &&& next.pending == mux.pending
            &&& next.dts_shift == mux.dts_shift
            &&& next.last_duration == mux.last_duration
            &&& next.plan == mux.plan
            &&& piece.bytes.skip(start + 8) == data
            &&& piece.bytes.subrange(start + 4, start + 8) == seq![0x6du8, 0x64, 0x61, 0x74]
            &&& data.len() + 8 < 0x1_0000_0000 ==> be32(piece.bytes, start) == data.len() + 8
        },
        mux.sequence < u32::MAX && moof_len(mux.open.len()) + 8 <= usize::MAX && 8 + data_of(
            mux.open,
        ).len() <= usize::MAX ==> (mux.close() matches Some((Some(_), _))),
{
    broadcast use group_enc_len;

    if let Some((Some(piece), _)) = mux.close() {
        let data = data_of(mux.open);
        let front = crate::mux::moof_bytes(
            mux.plan.track_id,
            mux.sequence,
            mux.open[0].base_decode_time,
            crate::mux::entries_of(mux.open),
        );
        let n = ((8 + data.len()) % 0x1_0000_0000) as u32;
        let kind = crate::codes::MDAT@;
        assert(kind =~= seq![0x6du8, 0x64, 0x61, 0x74]);
        assert(piece.bytes =~= front + enc32(n) + (kind + data));
        crate::layout::lemma_stands_between(front, enc32(n), kind + data);
        crate::layout::lemma_word_stands(piece.bytes, front.len() as int, n);
        let start = front.len() as int;
        assert(piece.bytes.skip(start + 8) =~= data);
        assert(piece.bytes.subrange(start + 4, start + 8) =~= kind);
    }
}

} // verus!
