//! What the tables of a track say of its samples.
//!
//! Nothing here runs. The laws say where a sample is, when it is shown and
//! whether a decoder may start at it, by the rows of the tables that speak of
//! it and by the samples before it.

use vstd::prelude::*;

use crate::tables::{
    assembled, chunk_places, counts, from_one, lemma_span_grows, mapped_chunks, places, run_chunks,
    said_of, Charts, Widths,
};
use crate::time::clamp64;

verus! {

// ------------------------------------------------------------------ //
// Where a sample is.
// ------------------------------------------------------------------ //
/// How many samples the first `n` chunks hold.
pub open spec fn held_before(held: Seq<u32>, n: nat) -> nat
    decreases n,
{
    if n == 0 {
        0
    } else {
        held_before(held, (n - 1) as nat) + held[n - 1] as nat
    }
}

/// Whether a chunk map says that the chunks hold so many samples each: the
/// runs begin with the first chunk and go up, and a chunk holds what the last
/// run to begin no later than it says. Chunks are counted from one in the map.
pub open spec fn maps(runs: Seq<(u32, u32, u32)>, held: Seq<u32>) -> bool {
    &&& runs.len() > 0
    &&& runs[0].0 == 1
    &&& runs.last().0 <= held.len()
    &&& forall|r: int| 0 <= r < runs.len() - 1 ==> (#[trigger] runs[r]).0 < runs[r + 1].0
    &&& forall|r: int, c: int|
        #![trigger runs[r], held[c]]
        0 <= r < runs.len() && 0 <= c < held.len() && runs[r].0 <= c + 1 && (r + 1 < runs.len()
            ==> c + 1 < runs[r + 1].0) ==> held[c] == runs[r].1
}

/// Every chunk of a list, with how many samples it holds.
spec fn paired(chunks: Seq<u64>, held: Seq<u32>) -> Seq<(u64, u32)> {
    Seq::new(chunks.len(), |c: int| (chunks[c], held[c]))
}

proof fn lemma_runs_go_up(runs: Seq<(u32, u32, u32)>, i: int, j: int)
    requires
        forall|r: int| 0 <= r < runs.len() - 1 ==> (#[trigger] runs[r]).0 < runs[r + 1].0,
        0 <= i <= j < runs.len(),
    ensures
        runs[i].0 <= runs[j].0,
    decreases j - i,
{
    if i < j {
        lemma_runs_go_up(runs, i, j - 1);
        assert(runs[j - 1].0 < runs[j - 1 + 1].0);
    }
}

proof fn lemma_mapped(runs: Seq<(u32, u32, u32)>, i: nat, chunks: Seq<u64>, held: Seq<u32>)
    requires
        maps(runs, held),
        held.len() == chunks.len(),
        i < runs.len(),
    ensures
        mapped_chunks(runs, i, chunks) == paired(chunks, held).skip(runs[i as int].0 - 1),
    decreases runs.len() - i,
{
    let all = paired(chunks, held);
    let first = runs[i as int].0 - 1;
    let last = runs.len() - 1;
    lemma_runs_go_up(runs, 0, i as int);
    lemma_runs_go_up(runs, i as int, last);
    let mine = run_chunks(runs, i as int, chunks);
    let after = if i + 1 < runs.len() {
        assert(runs[i as int].0 < runs[i as int + 1].0);
        lemma_runs_go_up(runs, i as int + 1, last);
        lemma_mapped(runs, i + 1, chunks, held);
        runs[i as int + 1].0 - 1
    } else {
        assert(mapped_chunks(runs, i + 1, chunks) =~= all.skip(chunks.len() as int));
        chunks.len() as int
    };
    assert(mine.len() == after - first);
    assert forall|k: int| 0 <= k < mine.len() implies mine[k] == #[trigger] all[first + k] by {
        assert(runs[i as int].0 <= first + k + 1);
        assert(held[first + k] == runs[i as int].1);
    }
    assert(mine + all.skip(after) =~= all.skip(first));
}

proof fn lemma_held_first(held: Seq<u32>, n: nat)
    requires
        0 < n <= held.len(),
    ensures
        held_before(held, n) == held[0] + held_before(held.drop_first(), (n - 1) as nat),
    decreases n,
{
    if n > 1 {
        lemma_held_first(held, (n - 1) as nat);
        assert(held.drop_first()[n - 2] == held[n - 1]);
    } else {
        assert(held_before(held, 0) == 0);
        assert(held_before(held.drop_first(), 0) == 0);
    }
}

proof fn lemma_held_grows(held: Seq<u32>, n: nat, m: nat)
    requires
        n <= m <= held.len(),
    ensures
        held_before(held, n) <= held_before(held, m),
    decreases m,
{
    if n < m {
        lemma_held_grows(held, n, (m - 1) as nat);
    }
}

proof fn lemma_places(
    chunks: Seq<u64>,
    held: Seq<u32>,
    from: nat,
    sizes: Widths,
    c: int,
    k: int,
)
    requires
        held.len() == chunks.len(),
        places(paired(chunks, held), from, sizes) is Ok,
        0 <= c < chunks.len(),
        0 <= k < held[c],
        from + held_before(held, c as nat) + k < sizes.total(),
    ensures
        ({
            let at = places(paired(chunks, held), from, sizes)->Ok_0;
            let i = held_before(held, c as nat) + k;
            &&& 0 <= i < at.len()
            &&& at[i] == chunks[c] + sizes.span(
                (from + held_before(held, c as nat)) as nat,
                k as nat,
            )
        }),
    decreases chunks.len(),
{
    let list = paired(chunks, held);
    let count = if held[0] < sizes.total() - from {
        held[0] as nat
    } else {
        (sizes.total() - from) as nat
    };
    let rest = paired(chunks.drop_first(), held.drop_first());
    assert(list.drop_first() =~= rest);
    let mine = chunk_places(chunks[0], from, count, sizes);
    assert(list[0] == (chunks[0], held[0]));
    if c == 0 {
        assert(held_before(held, 0) == 0);
        lemma_span_grows(sizes, from, k as nat, count);
    } else {
        lemma_held_first(held, c as nat);
        lemma_held_grows(held.drop_first(), 0, (c - 1) as nat);
        assert(held_before(held.drop_first(), 0) == 0);
        assert(count == held[0]);
        assert(held.drop_first()[c - 1] == held[c]);
        assert(chunks.drop_first()[c - 1] == chunks[c]);
        lemma_places(chunks.drop_first(), held.drop_first(), from + count, sizes, c - 1, k);
    }
}

proof fn lemma_places_all(chunks: Seq<u64>, held: Seq<u32>, from: nat, sizes: Widths)
    requires
        held.len() == chunks.len(),
        from <= sizes.total(),
        forall|c: int| 0 <= c < chunks.len() ==> #[trigger] chunks[c] + u32::MAX * held[c]
            <= u64::MAX,
    ensures
        places(paired(chunks, held), from, sizes) matches Ok(at) && at.len() == (if from
            + held_before(held, held.len()) < sizes.total() {
            held_before(held, held.len())
        } else {
            (sizes.total() - from) as nat
        }),
    decreases chunks.len(),
{
    let list = paired(chunks, held);
    if chunks.len() == 0 {
        assert(held_before(held, 0) == 0);
    } else if from < sizes.total() {
        let count = if held[0] < sizes.total() - from {
            held[0] as nat
        } else {
            (sizes.total() - from) as nat
        };
        let rest = paired(chunks.drop_first(), held.drop_first());
        assert(list.drop_first() =~= rest);
        assert(list[0] == (chunks[0], held[0]));
        lemma_held_first(held, held.len());
        lemma_span_bounded(sizes, from, count);
        assert(chunks[0] + u32::MAX * held[0] <= u64::MAX);
        assert(count * u32::MAX <= u32::MAX * held[0]) by (nonlinear_arith)
            requires
                count <= held[0],
        ;
        let tail = chunks.drop_first();
        assert forall|c: int| 0 <= c < tail.len() implies #[trigger] tail[c] + u32::MAX
            * held.drop_first()[c] <= u64::MAX by {
            assert(chunks[c + 1] + u32::MAX * held[c + 1] <= u64::MAX);
        }
        lemma_places_all(tail, held.drop_first(), from + count, sizes);
        lemma_held_grows(held.drop_first(), 0, (held.len() - 1) as nat);
    }
}

proof fn lemma_span_bounded(sizes: Widths, from: nat, n: nat)
    ensures
        sizes.span(from, n) <= n * u32::MAX,
    decreases n,
{
    if n > 0 {
        lemma_span_bounded(sizes, from, (n - 1) as nat);
        assert(n * u32::MAX == (n - 1) * u32::MAX + u32::MAX) by (nonlinear_arith);
    }
}

/// The first sample of a chunk is where the chunk begins, and each other
/// sample of it is behind the one before: which chunk a sample is in, the
/// chunk map says.
pub proof fn law_where_a_sample_is(charts: Charts, held: Seq<u32>, c: int, k: int)
    requires
        maps(charts.runs, held),
        held.len() == charts.chunks.len(),
        assembled(charts) is Ok,
        0 <= c < held.len(),
        0 <= k < held[c],
        held_before(held, c as nat) + k < charts.sizes.total(),
    ensures
        ({
            let samples = assembled(charts)->Ok_0;
            let i = held_before(held, c as nat) + k;
            &&& samples.len() == charts.sizes.total()
            &&& k == 0 ==> samples[i].offset == charts.chunks[c]
            &&& k > 0 ==> samples[i].offset == samples[i - 1].offset + samples[i - 1].size
        }),
{
    lemma_mapped(charts.runs, 0, charts.chunks, held);
    let list = paired(charts.chunks, held);
    assert(list.skip(0) =~= list);
    lemma_places(charts.chunks, held, 0, charts.sizes, c, k);
    if k > 0 {
        lemma_places(charts.chunks, held, 0, charts.sizes, c, k - 1);
    }
}

/// The tables describe a sample for each of the size table's when the chunks
/// hold as many, and are refused when they do not.
///
/// Left out are chunks so near the end of what 64 bits can count that samples
/// of the largest size would leave it.
pub proof fn law_the_chunks_hold_the_samples(charts: Charts, held: Seq<u32>)
    requires
        maps(charts.runs, held),
        held.len() == charts.chunks.len(),
        forall|c: int|
            0 <= c < held.len() ==> #[trigger] charts.chunks[c] + u32::MAX * held[c] <= u64::MAX,
    ensures
        assembled(charts) is Ok <==> charts.sizes.total() <= held_before(held, held.len()),
{
    lemma_mapped(charts.runs, 0, charts.chunks, held);
    let list = paired(charts.chunks, held);
    assert(list.skip(0) =~= list);
    lemma_places_all(charts.chunks, held, 0, charts.sizes);
}

// ------------------------------------------------------------------ //
// When it is shown.
// ------------------------------------------------------------------ //
/// The row of a run-length table behind rows that count so many samples
/// speaks of those that come next, as many as it counts; past the last row
/// nothing is said.
pub proof fn law_a_row_speaks_of_its_samples<T>(
    a: Seq<(u32, T)>,
    row: (u32, T),
    b: Seq<(u32, T)>,
    k: nat,
)
    ensures
        k < row.0 ==> said_of(a + seq![row] + b, counts(a) + k) == Some(row.1),
        said_of(a, counts(a) + k) == None::<T>,
    decreases a.len(),
{
    let all = a + seq![row] + b;
    if a.len() == 0 {
        assert(all[0] == row);
    } else {
        let rest = a.drop_first();
        assert(all.drop_first() =~= rest + seq![row] + b);
        assert(all[0] == a[0]);
        law_a_row_speaks_of_its_samples(rest, row, b, k);
    }
}

/// A sample lasts as long as the row of the time table that speaks of it says,
/// and not at all past the last row.
pub proof fn law_how_long_a_sample_lasts(
    charts: Charts,
    a: Seq<(u32, u32)>,
    row: (u32, u32),
    b: Seq<(u32, u32)>,
    k: nat,
)
    requires
        assembled(charts) is Ok,
        counts(a) + k < charts.sizes.total(),
    ensures
        ({
            let sample = assembled(charts)->Ok_0[(counts(a) + k) as int];
            &&& charts.times == a + seq![row] + b && k < row.0 ==> sample.duration == row.1
            &&& charts.times == a ==> sample.duration == 0
        }),
{
    law_a_row_speaks_of_its_samples(a, row, b, k);
}

/// A sample is shown as far from its decode time as the row of the composition
/// table that speaks of it says, and at it past the last row.
pub proof fn law_when_a_sample_is_shown(
    charts: Charts,
    a: Seq<(u32, i32)>,
    row: (u32, i32),
    b: Seq<(u32, i32)>,
    k: nat,
)
    requires
        assembled(charts) is Ok,
        counts(a) + k < charts.sizes.total(),
    ensures
        ({
            let sample = assembled(charts)->Ok_0[(counts(a) + k) as int];
            &&& charts.composition == a + seq![row] + b && k < row.0 ==> sample.pts == clamp64(
                sample.dts + row.1,
            )
            &&& charts.composition == a ==> sample.pts == sample.dts
        }),
{
    law_a_row_speaks_of_its_samples(a, row, b, k);
}

/// The first sample is decoded at zero and every other when the one before it
/// has lasted; each has the size its table gives it and its own number.
pub proof fn law_when_a_sample_is_decoded(charts: Charts, i: int)
    requires
        assembled(charts) is Ok,
        0 <= i < charts.sizes.total(),
    ensures
        ({
            let samples = assembled(charts)->Ok_0;
            &&& samples.len() == charts.sizes.total()
            &&& i == 0 ==> samples[i].dts == 0
            &&& i > 0 ==> samples[i].dts == clamp64(samples[i - 1].dts + samples[i - 1].duration)
            &&& samples[i].index == i % 0x1_0000_0000
            &&& match charts.sizes {
                Widths::Uniform { size, count } => samples[i].size == size && samples.len()
                    == count,
                Widths::Table(list) => samples[i].size == list[i] && samples.len() == list.len(),
            }
        }),
{
}

/// A decoder may start at a sample exactly when there is no table of sync
/// samples or the table has its number, counted from one; a zero in it is the
/// first.
pub proof fn law_where_a_decoder_may_start(charts: Charts, i: int)
    requires
        assembled(charts) is Ok,
        0 <= i < charts.sizes.total(),
    ensures
        assembled(charts)->Ok_0[i].keyframe == (match charts.sync {
            None => true,
            Some(numbers) => numbers.contains((i + 1) as u32) && i < u32::MAX || i == 0
                && numbers.contains(0),
        }),
{
    if let Some(numbers) = charts.sync {
        let n = (i + 1) as u32;
        assert forall|k: int|
            0 <= k < numbers.len() && from_one(#[trigger] numbers[k]) == i implies (numbers[k] == i
            + 1 || i == 0 && numbers[k] == 0) by {}
        if numbers.contains(n) && i < u32::MAX {
            let k = choose|k: int| 0 <= k < numbers.len() && numbers[k] == n;
            assert(from_one(numbers[k]) == i);
        }
        if i == 0 && numbers.contains(0) {
            let k = choose|k: int| 0 <= k < numbers.len() && numbers[k] == 0;
            assert(from_one(numbers[k]) == i);
        }
    }
}

} // verus!
