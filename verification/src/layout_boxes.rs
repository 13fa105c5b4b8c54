//! What the bytes of a box header say.
//!
//! Nothing here runs. A box says how long it is in 32 bits, or in 64 behind a
//! one, or not at all with a zero; the laws say what the reader makes of each.

use vstd::prelude::*;

use crate::be::{be32, be64, enc32, enc64, group_enc_len, kind_at};
use crate::boxes::{
    boxed_spec, children_spec, count_spec, fits, header_in, kids_from, laid,
    law_built_header_reads_back, law_first_child, parse_header_spec, BoxHeader, BoxSize, BoxSpan,
    Kid, Walk,
};
use crate::error::Error;
use crate::layout::{broken, lemma_long_stands, lemma_stands_between, lemma_word_stands};

verus! {

/// A box whose length is in the 64 bits behind its kind.
pub open spec fn long_boxed(kind: [u8; 4], size: u64, payload: Seq<u8>) -> Seq<u8> {
    enc32(1) + kind@ + enc64(size) + payload
}

/// A box with a word for its length.
pub open spec fn short_boxed(kind: [u8; 4], size: u32, payload: Seq<u8>) -> Seq<u8> {
    enc32(size) + kind@ + payload
}

proof fn lemma_opening(kind: [u8; 4], size: u32, rest: Seq<u8>)
    ensures
        be32(short_boxed(kind, size, rest), 0) == size,
        kind_at(short_boxed(kind, size, rest), 4) == kind,
        short_boxed(kind, size, rest).len() == 8 + rest.len(),
{
    broadcast use group_enc_len;

    let data = short_boxed(kind, size, rest);
    let none = Seq::<u8>::empty();
    assert(data =~= none + enc32(size) + (kind@ + rest));
    lemma_stands_between(none, enc32(size), kind@ + rest);
    lemma_word_stands(data, 0, size);
    assert(kind_at(data, 4) =~= kind);
}

proof fn lemma_long_opening(kind: [u8; 4], size: u64, rest: Seq<u8>)
    ensures
        be32(long_boxed(kind, size, rest), 0) == 1,
        be64(long_boxed(kind, size, rest), 8) == size,
        kind_at(long_boxed(kind, size, rest), 4) == kind,
        long_boxed(kind, size, rest).len() == 16 + rest.len(),
{
    broadcast use group_enc_len;

    let data = long_boxed(kind, size, rest);
    lemma_opening(kind, 1, enc64(size) + rest);
    assert(data =~= short_boxed(kind, 1, enc64(size) + rest));
    let front = enc32(1) + kind@;
    assert(data =~= front + enc64(size) + rest);
    lemma_stands_between(front, enc64(size), rest);
    lemma_long_stands(data, 8, size);
}

/// A header reads as what it was written with, whatever follows: a length in
/// 32 bits is the box's, where it is no shorter than the header's eight bytes
/// and neither one nor zero; behind a one it is in 64 bits, and then no
/// shorter than sixteen; a zero is a box that goes on to the end. Bytes that
/// end before the header does are no header yet.
pub proof fn law_a_header_in_every_form(
    kind: [u8; 4],
    short: u32,
    long: u64,
    rest: Seq<u8>,
    at: u64,
)
    ensures
        short >= 8 ==> parse_header_spec(short_boxed(kind, short, rest), at) == Ok::<_, Error>(
            Some(BoxHeader { kind, header_len: 8, size: BoxSize::Exact(short as u64) }),
        ),
        2 <= short < 8 ==> (parse_header_spec(short_boxed(kind, short, rest), at) matches Err(
            Error::Format(fault),
        ) && fault.at == Some(at) && fault.kind == Some(kind)),
        parse_header_spec(short_boxed(kind, 0, rest), at) == Ok::<_, Error>(
            Some(BoxHeader { kind, header_len: 8, size: BoxSize::ToEnd }),
        ),
        long >= 16 ==> parse_header_spec(long_boxed(kind, long, rest), at) == Ok::<_, Error>(
            Some(BoxHeader { kind, header_len: 16, size: BoxSize::Exact(long) }),
        ),
        long < 16 ==> (parse_header_spec(long_boxed(kind, long, rest), at) matches Err(
            Error::Format(fault),
        ) && fault.at == Some(at) && fault.kind == Some(kind)),
        rest.len() < 8 ==> parse_header_spec(rest, at) == Ok::<Option<BoxHeader>, Error>(None),
        rest.len() < 8 ==> parse_header_spec(short_boxed(kind, 1, rest), at) == Ok::<
            Option<BoxHeader>,
            Error,
        >(None),
{
    lemma_opening(kind, short, rest);
    lemma_opening(kind, 0, rest);
    lemma_opening(kind, 1, rest);
    lemma_long_opening(kind, long, rest);
}

/// A box in the longer form in front of other bytes is a child like any other,
/// its payload behind sixteen bytes, and the others are children behind it.
pub proof fn law_a_long_child(
    kind: [u8; 4],
    payload: Seq<u8>,
    more: Seq<u8>,
    here: u64,
    top: u64,
    max: usize,
    count: nat,
)
    requires
        count + 1 <= max,
        16 + payload.len() <= usize::MAX,
        here + 16 + payload.len() + more.len() <= u64::MAX,
    ensures
        ({
            let size = 16 + payload.len();
            let kids = kids_from(
                long_boxed(kind, size as u64, payload) + more,
                here,
                top,
                max,
                count,
            );
            let rest = kids_from(more, (here + size) as u64, top, max, count + 1);
            &&& kids is Ok <==> rest is Ok
            &&& kids is Ok ==> kids->Ok_0 == seq![
                Kid { kind, body: payload, at: (here + 16) as u64 },
            ] + rest->Ok_0
        }),
{
    broadcast use group_enc_len;

    let size = (16 + payload.len()) as u64;
    let all = long_boxed(kind, size, payload) + more;
    lemma_long_opening(kind, size, payload + more);
    assert(all =~= long_boxed(kind, size, payload + more));
    assert(all.subrange(16, size as int) =~= payload);
    assert(all.skip(size as int) =~= more);
}

/// A box with no length is the last child, and all that is left is its
/// payload.
pub proof fn law_an_open_ended_child(kind: [u8; 4], payload: Seq<u8>, at: u64, max: usize)
    requires
        1 <= max,
        8 + payload.len() <= usize::MAX,
        at + 8 + payload.len() <= u64::MAX,
    ensures
        children_spec(short_boxed(kind, 0, payload), at, max) == Ok::<_, Error>(
            seq![Kid { kind, body: payload, at: (at + 8) as u64 }],
        ),
{
    broadcast use group_enc_len;

    let all = short_boxed(kind, 0, payload);
    lemma_opening(kind, 0, payload);
    assert(all.subrange(8, all.len() as int) =~= payload);
    assert(all.skip(all.len() as int) =~= Seq::empty());
    let one = seq![Kid { kind, body: payload, at: (at + 8) as u64 }];
    assert(one + Seq::<Kid>::empty() =~= one);
    reveal_with_fuel(kids_from, 2);
}

/// A child that is longer than what is left of its parent is refused, in
/// either form.
pub proof fn law_a_child_stays_in_its_parent(
    kind: [u8; 4],
    short: u32,
    long: u64,
    rest: Seq<u8>,
    at: u64,
    max: usize,
)
    ensures
        short > 8 + rest.len() ==> (children_spec(
            short_boxed(kind, short, rest),
            at,
            max,
        ) matches Err(Error::Format(fault)) && fault.at == Some(at)),
        long > 16 + rest.len() ==> (children_spec(
            long_boxed(kind, long, rest),
            at,
            max,
        ) matches Err(Error::Format(fault)) && fault.at == Some(at)),
{
    lemma_opening(kind, short, rest);
    lemma_long_opening(kind, long, rest);
}

/// A box of a file is where its header says, in every form: from the header on
/// for as many bytes as it says, or to the end where it does not say, its
/// payload behind the eight or sixteen bytes of the header. One that says more
/// than there is, is refused.
pub proof fn law_a_box_of_a_file(
    before: Seq<u8>,
    kind: [u8; 4],
    short: u32,
    long: u64,
    rest: Seq<u8>,
    max_read: usize,
)
    requires
        before.len() + 16 + rest.len() <= u64::MAX,
        max_read >= 16,
    ensures
        ({
            let at = before.len() as u64;
            let one = before + short_boxed(kind, short, rest);
            let found = header_in(one, one.len() as u64, max_read, at, one.len() as u64);
            &&& 8 <= short <= 8 + rest.len() ==> found == Ok::<_, Error>(
                Some(
                    BoxSpan {
                        kind,
                        start: at,
                        body: (at + 8) as u64,
                        end: (at + short) as u64,
                    },
                ),
            )
            &&& short == 0 ==> found == Ok::<_, Error>(
                Some(
                    BoxSpan {
                        kind,
                        start: at,
                        body: (at + 8) as u64,
                        end: one.len() as u64,
                    },
                ),
            )
            &&& short > 8 + rest.len() ==> found is Err
        }),
        ({
            let at = before.len() as u64;
            let other = before + long_boxed(kind, long, rest);
            let found = header_in(other, other.len() as u64, max_read, at, other.len() as u64);
            &&& 16 <= long <= 16 + rest.len() ==> found == Ok::<_, Error>(
                Some(
                    BoxSpan {
                        kind,
                        start: at,
                        body: (at + 16) as u64,
                        end: (at + long) as u64,
                    },
                ),
            )
            &&& long > 16 + rest.len() ==> found is Err
        }),
{
    broadcast use group_enc_len;

    let at = before.len() as int;
    let one = before + short_boxed(kind, short, rest);
    let want = if rest.len() < 8 {
        8 + rest.len()
    } else {
        16
    };
    lemma_opening(kind, short, rest);
    let head = one.subrange(at, at + want);
    assert(head =~= short_boxed(kind, short, rest.take(want - 8)));
    lemma_opening(kind, short, rest.take(want - 8));
    let other = before + long_boxed(kind, long, rest);
    lemma_long_opening(kind, long, rest);
    let none = Seq::<u8>::empty();
    let head = other.subrange(at, at + 16);
    assert(head =~= long_boxed(kind, long, none));
    lemma_long_opening(kind, long, none);
}

/// A table's count is what was written, exactly where the bytes behind it hold
/// that many entries; an entry of no bytes is taken as one of one.
pub proof fn law_a_count_is_backed_by_bytes(
    before: Seq<u8>,
    count: u32,
    rest: Seq<u8>,
    entry_size: nat,
    base: u64,
)
    requires
        before.len() + 4 + rest.len() <= usize::MAX,
    ensures
        ({
            let walk = Walk {
                data: before + enc32(count) + rest,
                at: before.len(),
                base,
            };
            let least = if entry_size == 0 {
                1
            } else {
                entry_size
            };
            &&& count * least <= rest.len() ==> count_spec(walk, entry_size) == Ok::<_, Error>(
                count as usize,
            )
            &&& count * least > rest.len() ==> count_spec(walk, entry_size) is Err
        }),
{
    broadcast use group_enc_len;

    lemma_stands_between(before, enc32(count), rest);
    lemma_word_stands(before + enc32(count) + rest, before.len() as int, count);
}

/// More children than a box may have are refused, and none of them is left out
/// for it.
pub proof fn law_too_many_children_are_refused(
    list: Seq<([u8; 4], Seq<u8>)>,
    here: u64,
    top: u64,
    max: usize,
    count: nat,
)
    requires
        forall|i: int| 0 <= i < list.len() ==> fits(#[trigger] list[i].1),
        here + laid(list).len() <= u64::MAX,
        count <= max,
        count + list.len() > max,
    ensures
        broken(kids_from(laid(list), here, top, max, count)),
    decreases list.len(),
{
    let payload = list[0].1;
    let rest = list.drop_first();
    assert(fits(list[0].1));
    law_built_header_reads_back(list[0].0, payload, Seq::empty(), here);
    assert(laid(list) =~= boxed_spec(list[0].0, payload) + laid(rest));
    if count < max {
        law_first_child(list[0].0, payload, laid(rest), here, top, max, count);
        assert forall|i: int| 0 <= i < rest.len() implies fits(#[trigger] rest[i].1) by {
            assert(rest[i] == list[i + 1]);
        }
        law_too_many_children_are_refused(
            rest,
            (here + 8 + payload.len()) as u64,
            top,
            max,
            count + 1,
        );
    } else {
        law_built_header_reads_back(list[0].0, payload, laid(rest), here);
    }
}

} // verus!
