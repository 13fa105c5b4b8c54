//! What becomes of a file that a box is written into.
//!
//! Nothing here runs. The laws say which box is a selector's, where it is
//! looked for, where a new one goes, and what a read costs.

use vstd::prelude::*;

use crate::be::{be32, be64, enc32, group_enc_len, kind_at, lemma_same32, lemma_same64};
use crate::boxes::{law_top_level_covers_the_file, tile, top_level_spec, BoxSpan};
use crate::error::Error;
use crate::layout::{lemma_stands_between, lemma_word_stands};
use crate::limits::Limits;
use crate::patch::{
    at_tail_spec, claimed, copied, find_spec, found_of, hit, hit_from, installed, is_one_of,
    last_bytes, law_what_is_found_is_a_top_level_box, lemma_guess_is_the_last, lemma_hit_inside,
    lemma_spot_inside, lemma_tail_window, none_claimed, rewritten, spot_spec, walked, Placed,
    Selector, Spot, TAIL_WINDOW,
};
use crate::source::{charged, overwritten, pulled, read_at_spec, Tally};

verus! {

// ------------------------------------------------------------------ //
// The box.
// ------------------------------------------------------------------ //
/// A selector's box: its length in 32 bits, its kind, and its payload; for a
/// box known by sixteen bytes the kind is `uuid`, and they stand before the
/// payload.
pub proof fn law_a_selectors_box(selector: Selector, payload: Seq<u8>)
    requires
        24 + payload.len() < 0x1_0000_0000,
    ensures
        ({
            let built = selector.boxed_spec(payload);
            &&& be32(built, 0) == built.len()
            &&& match selector {
                Selector::Kind(kind) => {
                    &&& built.len() == 8 + payload.len()
                    &&& built.subrange(4, 8) == kind@
                    &&& built.skip(8) == payload
                },
                Selector::Uuid(uuid) => {
                    &&& built.len() == 24 + payload.len()
                    &&& built.subrange(4, 8) == seq![0x75u8, 0x75, 0x69, 0x64]
                    &&& built.subrange(8, 24) == uuid@
                    &&& built.skip(24) == payload
                },
            }
        }),
{
    broadcast use group_enc_len;

    let built = selector.boxed_spec(payload);
    let kind = selector.kind()@;
    let inner = selector.lead() + payload;
    let n = ((8 + inner.len()) % 0x1_0000_0000) as u32;
    let none = Seq::<u8>::empty();
    assert(built =~= none + enc32(n) + (kind + inner));
    lemma_stands_between(none, enc32(n), kind + inner);
    lemma_word_stands(built, 0, n);
    assert(built.subrange(4, 8) =~= kind);
    match selector {
        Selector::Kind(kind) => {
            assert(built.skip(8) =~= payload);
        },
        Selector::Uuid(uuid) => {
            assert(crate::codes::UUID@ =~= seq![0x75u8, 0x75, 0x69, 0x64]);
            assert(built.subrange(8, 24) =~= uuid@);
            assert(built.skip(24) =~= payload);
        },
    }
}

/// A top-level box is a selector's when it is of the kind, or when it is a
/// `uuid` whose body begins with the sixteen bytes.
pub proof fn law_which_box_is_a_selectors(
    data: Seq<u8>,
    limits: Limits,
    span: BoxSpan,
    selector: Selector,
)
    requires
        data.len() <= u64::MAX,
        16 <= limits.max_read,
        span.body <= span.end <= data.len(),
    ensures
        claimed(data, data.len() as u64, limits, span, selector) <==> (match selector {
            Selector::Kind(kind) => span.kind == kind,
            Selector::Uuid(uuid) => span.kind == [0x75u8, 0x75, 0x69, 0x64] && span.end - span.body
                >= 16 && data.subrange(span.body as int, span.body + 16) == uuid@,
        }),
{
    if let Selector::Uuid(uuid) = selector {
        if span.end - span.body >= 16 {
            let head = data.subrange(span.body as int, span.body + 16);
            assert(head.take(16) =~= head);
        }
    }
}

/// Where the box of a selector is in a file: the last box of the file where
/// that is one, or else the first that is; and what is found is where that box
/// is, its payload behind the sixteen bytes where there are any.
pub proof fn law_which_box_is_found(
    data: Seq<u8>,
    limits: Limits,
    selector: Selector,
    top: Seq<BoxSpan>,
)
    requires
        data.len() <= u64::MAX,
        TAIL_WINDOW <= limits.max_read,
        top_level_spec(data, data.len() as u64, limits) == Ok::<_, Error>(top),
    ensures
        find_spec(data, data.len() as u64, limits, selector) matches Ok(Some(found)) ==> exists|
            k: int,
        |
            #![trigger top[k]]
            {
                &&& 0 <= k < top.len()
                &&& claimed(data, data.len() as u64, limits, top[k], selector)
                &&& k == top.len() - 1 || forall|j: int|
                    0 <= j < k ==> !claimed(
                        data,
                        data.len() as u64,
                        limits,
                        #[trigger] top[j],
                        selector,
                    )
                &&& found.start == top[k].start
                &&& found.end == top[k].end
                &&& found.last == (k == top.len() - 1)
                &&& found.body == (match selector {
                    Selector::Kind(_) => top[k].body,
                    Selector::Uuid(_) => (top[k].body + 16) as u64,
                })
            },
{
    let len = data.len() as u64;
    lemma_tail_window(data, limits);
    let guess = at_tail_spec(data, len, limits, selector)->Ok_0;
    if guess is Some && is_one_of(guess.unwrap(), top) {
        let k = lemma_guess_is_the_last(data, limits, selector, guess.unwrap(), top);
        assert(top[k].start == guess.unwrap().start);
        lemma_hit_inside(last_bytes(data), 0, len, selector);
        assert(guess.unwrap().last);
    } else {
        lemma_walks_to_the_first(data, len, limits, top, 0, selector);
        if let Ok(Some(found)) = walked(data, len, limits, top, 0, selector) {
            let k = choose|k: int|
                #![trigger top[k]]
                0 <= k < top.len() && claimed(data, len, limits, top[k], selector) && (forall|
                    j: int,
                |
                    0 <= j < k ==> !claimed(data, len, limits, #[trigger] top[j], selector))
                    && found == found_of(top, k, selector);
            assert(top[k].start == found.start);
        }
    }
}

proof fn lemma_walks_to_the_first(
    data: Seq<u8>,
    len: u64,
    limits: Limits,
    top: Seq<BoxSpan>,
    i: nat,
    selector: Selector,
)
    requires
        16 <= limits.max_read,
    ensures
        walked(data, len, limits, top, i, selector) matches Ok(Some(found)) ==> exists|k: int|
            #![trigger top[k]]
            i <= k < top.len() && claimed(data, len, limits, top[k], selector) && (forall|j: int|
                i <= j < k ==> !claimed(data, len, limits, #[trigger] top[j], selector)) && found
                == found_of(top, k, selector),
    decreases top.len() - i,
{
    if i < top.len() {
        let here = top[i as int];
        if claimed(data, len, limits, here, selector) {
            assert(walked(data, len, limits, top, i, selector) == Ok::<_, Error>(
                Some(found_of(top, i as int, selector)),
            ));
        } else {
            lemma_walks_to_the_first(data, len, limits, top, i + 1, selector);
            if let Ok(Some(found)) = walked(data, len, limits, top, i, selector) {
                let k = choose|k: int|
                    #![trigger top[k]]
                    i + 1 <= k < top.len() && claimed(data, len, limits, top[k], selector) && (
                    forall|j: int|
                        i + 1 <= j < k ==> !claimed(
                            data,
                            len,
                            limits,
                            #[trigger] top[j],
                            selector,
                        )) && found == found_of(top, k, selector);
                assert(top[k].start == found.start);
            }
        }
    }
}

// ------------------------------------------------------------------ //
// Where it goes.
// ------------------------------------------------------------------ //
/// Where a box goes in a file that has none of the selector's: in front of an
/// `mfra` that is the last box, and behind everything else.
pub proof fn law_where_a_new_box_goes(
    data: Seq<u8>,
    limits: Limits,
    selector: Selector,
    top: Seq<BoxSpan>,
)
    requires
        data.len() <= u64::MAX,
        TAIL_WINDOW <= limits.max_read,
        top_level_spec(data, data.len() as u64, limits) == Ok::<_, Error>(top),
        none_claimed(data, data.len() as u64, limits, top, selector),
    ensures
        spot_spec(data, data.len() as u64, limits, selector) == Ok::<_, Error>(
            if top.len() > 0 && top.last().kind == [0x6du8, 0x66, 0x72, 0x61] {
                Spot::BeforeMfra(top.last().start)
            } else {
                Spot::End(data.len() as u64)
            },
        ),
{
    law_what_is_found_is_a_top_level_box(data, limits, selector, top);
}

/// Where it goes in a file that has one: over it where it is the last box, and
/// nowhere without a copy of the file where it is not.
pub proof fn law_where_a_second_box_goes(
    data: Seq<u8>,
    limits: Limits,
    selector: Selector,
    top: Seq<BoxSpan>,
    k: int,
)
    requires
        data.len() <= u64::MAX,
        TAIL_WINDOW <= limits.max_read,
        top_level_spec(data, data.len() as u64, limits) == Ok::<_, Error>(top),
        0 <= k < top.len(),
        forall|j: int|
            0 <= j < top.len() ==> (claimed(
                data,
                data.len() as u64,
                limits,
                #[trigger] top[j],
                selector,
            ) <==> j == k),
    ensures
        spot_spec(data, data.len() as u64, limits, selector) == Ok::<_, Error>(
            if k == top.len() - 1 {
                Spot::Over(top[k].start)
            } else {
                Spot::Rewrite(top[k].start, top[k].end)
            },
        ),
{
    law_what_is_found_is_a_top_level_box(data, limits, selector, top);
    assert(claimed(data, data.len() as u64, limits, top[k], selector));
}

/// What writing at each place makes of a file: the box behind all of it, or
/// behind what was in front of the box that is replaced, or between what was
/// in front of the `mfra` and the `mfra`. Only a box in the middle, and an
/// `mfra` that is more than a reader will hold, are refused.
pub proof fn law_what_writing_makes_of_a_file(
    data: Seq<u8>,
    limits: Limits,
    selector: Selector,
    payload: Seq<u8>,
)
    requires
        data.len() <= u64::MAX,
        spot_spec(data, data.len() as u64, limits, selector) is Ok,
    ensures
        ({
            let built = selector.boxed_spec(payload);
            let out = installed(data, limits, selector, payload);
            match spot_spec(data, data.len() as u64, limits, selector)->Ok_0 {
                Spot::End(at) => at == data.len() && out == Ok::<_, Error>(
                    (Placed::Appended { at }, data + built),
                ),
                Spot::Over(at) => out == Ok::<_, Error>(
                    (Placed::Replaced { at }, data.take(at as int) + built),
                ),
                Spot::BeforeMfra(at) => if data.len() - at <= limits.max_read {
                    out == Ok::<_, Error>(
                        (
                            Placed::BeforeMfra { at, moved: (data.len() - at) as u64 },
                            data.take(at as int) + built + data.skip(at as int),
                        ),
                    )
                } else {
                    out matches Err(err) && err is Unsupported
                },
                Spot::Rewrite(..) => out matches Err(err) && err is Unsupported,
            }
        }),
{
    lemma_spot_inside(data, data.len() as u64, limits, selector);
}

/// A copy of a file with a box is the file without the one that was there, and
/// then the box, wherever that one was; where there was none, all of the file
/// comes first. It is refused only where less than a chunk can be held.
pub proof fn law_what_a_copy_holds(
    data: Seq<u8>,
    limits: Limits,
    selector: Selector,
    payload: Seq<u8>,
)
    requires
        data.len() <= u64::MAX,
        spot_spec(data, data.len() as u64, limits, selector) is Ok,
    ensures
        ({
            let built = selector.boxed_spec(payload);
            let (done, copy) = rewritten(data, data.len() as u64, limits, selector, payload);
            &&& limits.max_read >= 0x10_0000 ==> done is Ok
            &&& done is Ok ==> copy == (match spot_spec(
                data,
                data.len() as u64,
                limits,
                selector,
            )->Ok_0 {
                Spot::Rewrite(start, end) => data.take(start as int) + data.skip(end as int)
                    + built,
                Spot::Over(start) => data.take(start as int) + built,
                _ => data + built,
            })
        }),
{
    lemma_spot_inside(data, data.len() as u64, limits, selector);
    let len = data.len() as u64;
    let (start, end) = match spot_spec(data, len, limits, selector)->Ok_0 {
        Spot::Rewrite(start, end) => (start, end),
        Spot::Over(start) => (start, len),
        _ => (len, len),
    };
    let front = copied(data, limits.max_read, 0, start);
    let back = copied(data, limits.max_read, end, len);
    if front is Ok && back is Ok {
        assert(front->Ok_0 =~= data.take(start as int));
        assert(back->Ok_0 =~= data.skip(end as int));
        assert(data.skip(len as int) =~= Seq::empty());
        assert(data.take(start as int) + Seq::<u8>::empty() =~= data.take(start as int));
        assert(data.take(len as int) =~= data);
    }
}

// ------------------------------------------------------------------ //
// What is read and written.
// ------------------------------------------------------------------ //
/// A read gives the bytes that are there, as many as were asked for or as the
/// file has left, and is refused exactly where more is asked for than a reader
/// will hold.
pub proof fn law_what_a_read_gives(data: Seq<u8>, max_read: usize, at: u64, want: usize, k: int)
    requires
        data.len() <= u64::MAX,
    ensures
        ({
            let read = read_at_spec(data, data.len() as u64, max_read, at, want);
            &&& read is Ok <==> want <= max_read
            &&& read is Ok ==> {
                &&& read->Ok_0.len() <= want
                &&& at + want <= data.len() ==> read->Ok_0.len() == want
                &&& at <= data.len() < at + want ==> read->Ok_0.len() == data.len() - at
                &&& at > data.len() ==> read->Ok_0.len() == 0
                &&& 0 <= k < read->Ok_0.len() ==> read->Ok_0[k] == data[at + k]
            }
        }),
{
}

/// A read is charged the bytes it gives, and a move of the head where it gives
/// any and the head was somewhere else.
pub proof fn law_what_a_read_costs(
    data: Seq<u8>,
    max_read: usize,
    cost: Tally,
    place: u64,
    at: u64,
    want: usize,
)
    requires
        data.len() <= u64::MAX,
        cost.bytes_read + want <= u64::MAX,
        cost.seeks < u64::MAX,
    ensures
        ({
            let read = read_at_spec(data, data.len() as u64, max_read, at, want);
            let after = charged(
                cost,
                place,
                at,
                pulled(data.len() as u64, max_read, at, want),
            );
            let given = if read is Ok {
                read->Ok_0.len()
            } else {
                0
            };
            &&& after.bytes_read == cost.bytes_read + given
            &&& after.seeks == cost.seeks + (if given > 0 && place != at {
                1int
            } else {
                0
            })
            &&& after.len == cost.len
        }),
{
}

/// Bytes written at a place are there afterwards; what was in front of them and
/// what is past them is as it was, and the file is longer only where they go
/// past its end.
pub proof fn law_what_a_write_leaves(data: Seq<u8>, head: nat, bytes: Seq<u8>, k: int)
    requires
        head <= data.len(),
    ensures
        ({
            let after = overwritten(data, head, bytes);
            &&& after.len() == (if head + bytes.len() > data.len() {
                head + bytes.len()
            } else {
                data.len()
            })
            &&& 0 <= k < bytes.len() ==> after[head + k] == bytes[k]
            &&& 0 <= k < head ==> after[k] == data[k]
            &&& head + bytes.len() <= k < data.len() ==> after[k] == data[k]
        }),
{
}

// ------------------------------------------------------------------ //
// The guess at the end of a file.
// ------------------------------------------------------------------ //
/// Whether the bytes of a file at a place say they are a box of the kind that
/// ends where the file does, in either form of a header.
pub open spec fn ends_the_file(data: Seq<u8>, at: int, kind: [u8; 4]) -> bool {
    &&& 0 <= at
    &&& at + 8 <= data.len()
    &&& kind_at(data, at + 4) == kind
    &&& (be32(data, at) == data.len() - at && be32(data, at) != 1) || (be32(data, at) == 1 && at
        + 16 <= data.len() && be64(data, at + 8) == data.len() - at)
}

proof fn lemma_window(data: Seq<u8>, window: Seq<u8>, i: int)
    requires
        window.len() <= data.len(),
        window == data.skip(data.len() - window.len()),
        0 <= i,
        i + 8 <= window.len(),
    ensures
        be32(window, i) == be32(data, data.len() - window.len() + i),
        i + 16 <= window.len() ==> be64(window, i + 8) == be64(
            data,
            data.len() - window.len() + i + 8,
        ),
        kind_at(window, i + 4) == kind_at(data, data.len() - window.len() + i + 4),
{
    let off = data.len() - window.len();
    lemma_same32(window, i, data, off + i);
    if i + 16 <= window.len() {
        lemma_same64(window, i + 8, data, off + i + 8);
    }
    assert(kind_at(window, i + 4) =~= kind_at(data, off + i + 4));
}

proof fn lemma_hit_ends(data: Seq<u8>, window: Seq<u8>, i: nat, selector: Selector)
    requires
        data.len() <= u64::MAX,
        window.len() <= data.len(),
        window == data.skip(data.len() - window.len()),
    ensures
        hit_from(window, i, data.len() as u64, selector) matches Some(found) ==> {
            &&& data.len() - window.len() + i <= found.start
            &&& ends_the_file(data, found.start as int, selector.kind())
        },
    decreases window.len() - i,
{
    let len = data.len() as u64;
    if i + 8 + selector.prefix() <= window.len() {
        lemma_window(data, window, i as int);
        if !hit(window, i as int, len, selector) {
            lemma_hit_ends(data, window, i + 1, selector);
        }
    }
}

proof fn lemma_first_hit(data: Seq<u8>, window: Seq<u8>, i: nat, p: int, selector: Selector)
    requires
        data.len() <= u64::MAX,
        window.len() <= data.len(),
        window == data.skip(data.len() - window.len()),
        i <= p,
        p + 8 + selector.prefix() <= window.len(),
        hit(window, p, data.len() as u64, selector),
        forall|q: int|
            data.len() - window.len() + i <= q < data.len() - window.len() + p ==> !(
            #[trigger] ends_the_file(data, q, selector.kind())),
    ensures
        hit_from(window, i, data.len() as u64, selector) matches Some(found) && found.start
            == data.len() - window.len() + p && found.end == data.len(),
    decreases p - i,
{
    if i < p {
        lemma_window(data, window, i as int);
        let q = data.len() - window.len() + i;
        assert(!ends_the_file(data, q, selector.kind()));
        lemma_first_hit(data, window, i + 1, p, selector);
    }
}

/// The guess is a header near the end of the file, of the selector's kind,
/// whose box ends with the file.
pub proof fn law_what_the_guess_is(data: Seq<u8>, limits: Limits, selector: Selector)
    requires
        data.len() <= u64::MAX,
        TAIL_WINDOW <= limits.max_read,
    ensures
        at_tail_spec(data, data.len() as u64, limits, selector) matches Ok(Some(found)) ==> {
            &&& ends_the_file(data, found.start as int, selector.kind())
            &&& data.len() - found.start <= 4096
            &&& found.end == data.len()
            &&& found.last
        },
{
    lemma_tail_window(data, limits);
    let window = last_bytes(data);
    assert(window =~= data.skip(data.len() - window.len()));
    lemma_hit_ends(data, window, 0, selector);
    lemma_hit_inside(window, 0, data.len() as u64, selector);
}

/// A box that was built for a selector is a hit where it ends the window.
proof fn lemma_built_hits(window: Seq<u8>, p: int, len: u64, selector: Selector, payload: Seq<u8>)
    requires
        0 <= p <= window.len(),
        window.len() - p <= 4096,
        window.skip(p) == selector.boxed_spec(payload),
    ensures
        hit(window, p, len, selector),
        p + 8 + selector.prefix() <= window.len(),
{
    broadcast use group_enc_len;

    let built = selector.boxed_spec(payload);
    assert(built.len() == window.len() - p);
    law_a_selectors_box(selector, payload);
    assert forall|k: int| 0 <= k < built.len() implies window[p + k] == #[trigger] built[k] by {
        assert(window.skip(p)[k] == window[p + k]);
    }
    lemma_same32(window, p, built, 0);
    assert(kind_at(window, p + 4) == kind_at(built, 4));
    assert(kind_at(built, 4)@ =~= built.subrange(4, 8));
    assert(selector.kind()@ =~= built.subrange(4, 8));
    assert(kind_at(built, 4) =~= selector.kind());
    if let Selector::Uuid(uuid) = selector {
        assert(window.skip(p + 8).take(16) =~= built.subrange(8, 24));
    }
}

/// The last box of a file, where it is a selector's and near enough the end,
/// is found before any other of the selector's, unless bytes before it look
/// like the header of a box that ends with the file.
#[verifier::rlimit(40)]
pub proof fn law_the_last_box_is_found_first(
    data: Seq<u8>,
    limits: Limits,
    selector: Selector,
    top: Seq<BoxSpan>,
    payload: Seq<u8>,
)
    requires
        data.len() <= u64::MAX,
        TAIL_WINDOW <= limits.max_read,
        top_level_spec(data, data.len() as u64, limits) == Ok::<_, Error>(top),
        top.len() > 0,
        top.last().end == data.len(),
        data.len() - top.last().start <= 4096,
        data.skip(top.last().start as int) == selector.boxed_spec(payload),
        forall|q: int|
            data.len() - 4096 <= q < top.last().start ==> !(#[trigger] ends_the_file(
                data,
                q,
                selector.kind(),
            )),
    ensures
        find_spec(data, data.len() as u64, limits, selector) matches Ok(Some(found)) && found.start
            == top.last().start && found.end == data.len(),
{
    let len = data.len() as u64;
    let start = top.last().start as int;
    lemma_tail_window(data, limits);
    let window = last_bytes(data);
    assert(window =~= data.skip(data.len() - window.len()));
    law_top_level_covers_the_file(data, len, limits);
    let to = choose|to: int| #[trigger] tile(top, 0, to) && to <= len < to + 8;
    assert(top[top.len() - 1].start + 8 <= top[top.len() - 1].body);
    assert(top.last().start <= len);
    let p = start - (data.len() - window.len());
    assert(window.skip(p) =~= data.skip(start));
    lemma_built_hits(window, p, len, selector, payload);
    lemma_first_hit(data, window, 0, p, selector);
    let guess = hit_from(window, 0, len, selector).unwrap();
    assert(is_one_of(guess, top)) by {
        assert(top[top.len() - 1].start == guess.start && top[top.len() - 1].end == guess.end);
    }
}

} // verus!
