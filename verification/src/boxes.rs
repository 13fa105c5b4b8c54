//! The box, and the cursor that walks what is inside one.
//!
//! ISO/IEC 14496-12 §4.2 gives a box three ways to say how long it is, and
//! all three are read here: a 32-bit `size`, a `size` of 1 followed by a
//! 64-bit `largesize`, and a `size` of 0 meaning the box runs to the end of
//! its parent, which at the top level is the end of the file. The third one
//! is the one implementations quietly drop; ffmpeg writes it for the `mdat`
//! of a stream it is muxing into a pipe, so a reader that calls it malformed
//! is a reader that cannot read that file.
//!
//! **A declared size never becomes an allocation.** [`parse_header`] returns
//! the size; it does not go and get the bytes. The file reader turns a size
//! into a span and reads the span through [`Source`], which clamps it
//! against the file's real length; the streaming scanner waits for the bytes
//! to arrive and bounds what it will hold; the in-memory walk in
//! [`children`] only ever narrows a slice it already has. That is why there
//! is no blanket "no box may be larger than N" rule: the rule would have to
//! be wrong for `mdat`, and it is not the rule that keeps a reader safe.

use vstd::prelude::*;
use vstd::slice::slice_subrange;

use crate::be::{
    as_signed32, be16, be24, be32, be64, enc24, enc32, get16, get24, get32, get64, get_kind,
    group_enc_len, kind_at, lemma_enc24, lemma_enc24_len, lemma_enc32, lemma_enc32_len,
    lemma_same16, lemma_same24, lemma_same32, lemma_same64, put, put24, put32, signed32,
};
use crate::codes::{same, UUID};
use crate::error::{seen, settled, Error, Result};
use crate::limits::{Limits, MAX_CHILDREN};
use crate::source::{cheap, read_at_spec, Input, Source};

verus! {

// ------------------------------------------------------------------ //
// The header.
// ------------------------------------------------------------------ //
/// How long a box says it is (§4.2).
#[derive(Clone, Copy, Debug, PartialEq, Eq, Structural)]
pub enum BoxSize {
    /// A `size` or `largesize` that names the total length of the box, its
    /// own header included.
    Exact(u64),
    /// A `size` of 0: the box runs to the end of its parent, which at the
    /// top level is the end of the file, and in a stream is the end of the
    /// stream.
    ToEnd,
}

/// A box header as its own bytes describe it, resolved against nothing
/// (§4.2).
#[derive(Clone, Copy, Debug, PartialEq, Eq)]
pub struct BoxHeader {
    /// The four characters of `boxtype`.
    pub kind: [u8; 4],
    /// How long the header itself is: 8, or 16 when a `largesize` follows.
    pub header_len: u64,
    /// What `size` said.
    pub size: BoxSize,
}

impl BoxHeader {
    pub open spec fn total_spec(self, from: u64, limit: u64) -> Result<u64> {
        match self.size {
            BoxSize::Exact(size) => Ok(size),
            BoxSize::ToEnd => if from <= limit {
                Ok((limit - from) as u64)
            } else {
                Err(Error::format("a box that begins past its own parent").at(from))
            },
        }
    }

    /// What every header that was read is: eight or sixteen bytes long, and
    /// around a size that holds at least itself.
    pub open spec fn sane(self) -> bool {
        &&& self.header_len == 8 || self.header_len == 16
        &&& match self.size {
            BoxSize::Exact(size) => size >= self.header_len,
            BoxSize::ToEnd => self.header_len == 8,
        }
    }

    pub fn is(&self, kind: &[u8; 4]) -> (is: bool)
        ensures
            is == (self.kind == *kind),
    {
        same(&self.kind, kind)
    }

    /// The total length of the box, given where its parent ends.
    pub fn total(&self, from: u64, limit: u64) -> (size: Result<u64>)
        ensures
            size == self.total_spec(from, limit),
    {
        match self.size {
            BoxSize::Exact(size) => Ok(size),
            BoxSize::ToEnd => if from <= limit {
                Ok(limit - from)
            } else {
                Err(Error::format("a box that begins past its own parent").at(from))
            },
        }
    }
}

/// A header of a declared size, refused where the size does not hold the
/// header itself.
pub open spec fn sized_header(kind: [u8; 4], header_len: u64, size: u64, at: u64) -> Result<
    Option<BoxHeader>,
> {
    if size < header_len {
        Err(Error::format("a box shorter than its own header").at(at).in_box(kind))
    } else {
        Ok(Some(BoxHeader { kind, header_len, size: BoxSize::Exact(size) }))
    }
}

pub open spec fn parse_header_spec(data: Seq<u8>, at: u64) -> Result<Option<BoxHeader>> {
    let short = be32(data, 0);
    let kind = kind_at(data, 4);
    if data.len() < 8 || (short == 1 && data.len() < 16) {
        Ok(None)
    } else if short == 1 {
        sized_header(kind, 16, be64(data, 8), at)
    } else if short == 0 {
        Ok(Some(BoxHeader { kind, header_len: 8, size: BoxSize::ToEnd }))
    } else {
        sized_header(kind, 8, short as u64, at)
    }
}

/// The header at the head of `data`, or `None` when `data` is shorter than
/// the header itself, which in a stream means "not yet" and in a file means
/// "no more boxes".
///
/// `at` is the absolute position of `data[0]`, carried only so an error can
/// say where it was.
pub fn parse_header(data: &[u8], at: u64) -> (header: Result<Option<BoxHeader>>)
    ensures
        header == parse_header_spec(data@, at),
        header matches Ok(Some(header)) ==> header.sane() && header.header_len <= data@.len(),
{
    if data.len() < 8 {
        return Ok(None);
    }
    let short: u32 = get32(data, 0);
    let kind = get_kind(data, 4);
    if short == 0 {
        return Ok(Some(BoxHeader { kind, header_len: 8, size: BoxSize::ToEnd }));
    }
    if short == 1 && data.len() < 16 {
        return Ok(None);
    }
    let (size, header_len): (u64, u64) = if short == 1 {
        (get64(data, 8), 16)
    } else {
        (short as u64, 8)
    };
    if size < header_len {
        return Err(Error::format("a box shorter than its own header").at(at).in_box(kind));
    }
    Ok(Some(BoxHeader { kind, header_len, size: BoxSize::Exact(size) }))
}

// ------------------------------------------------------------------ //
// The boxes of a file.
// ------------------------------------------------------------------ //
/// One box of a file, placed: where it begins, where its body begins, and
/// where it ends.
#[derive(Clone, Copy, Debug, PartialEq, Eq)]
pub struct BoxSpan {
    pub kind: [u8; 4],
    /// Where the box begins, at its `size` field.
    pub start: u64,
    /// Where its body begins, past `size`, `boxtype` and any `largesize`.
    pub body: u64,
    /// Where it ends.
    pub end: u64,
}

impl BoxSpan {
    pub open spec fn body_len_spec(self) -> u64 {
        if self.end >= self.body {
            (self.end - self.body) as u64
        } else {
            0
        }
    }

    pub fn is(&self, kind: &[u8; 4]) -> (is: bool)
        ensures
            is == (self.kind == *kind),
    {
        same(&self.kind, kind)
    }

    pub fn body_len(&self) -> (len: u64)
        ensures
            len == self.body_len_spec(),
    {
        self.end.saturating_sub(self.body)
    }
}

/// A header resolved against where its box begins and its parent ends.
pub open spec fn span_of(header: BoxHeader, at: u64, limit: u64) -> Result<Option<BoxSpan>> {
    match header.total_spec(at, limit) {
        Err(err) => Err(err),
        Ok(size) => if at + size > u64::MAX {
            Err(Error::format("a box whose size overflows the file").at(at))
        } else if at + size > limit || header.header_len > size {
            Err(
                Error::format("a box that runs past the file or its parent").at(at).in_box(
                    header.kind,
                ),
            )
        } else {
            Ok(
                Some(
                    BoxSpan {
                        kind: header.kind,
                        start: at,
                        body: (at + header.header_len) as u64,
                        end: (at + size) as u64,
                    },
                ),
            )
        },
    }
}

/// The box at `at` of a file of `len` bytes, under a parent that ends at
/// `limit`.
pub open spec fn header_in(
    data: Seq<u8>,
    len: u64,
    max_read: usize,
    at: u64,
    limit: u64,
) -> Result<Option<BoxSpan>> {
    if limit < at || limit - at < 8 {
        Ok(None)
    } else {
        let want = if limit - at < 16 {
            (limit - at) as usize
        } else {
            16
        };
        match read_at_spec(data, len, max_read, at, want) {
            Err(err) => Err(err),
            Ok(head) => match parse_header_spec(head, at) {
                Err(err) => Err(err),
                Ok(None) => Err(Error::truncated("a box that ends inside its own size").at(at)),
                Ok(Some(header)) => span_of(header, at, limit),
            },
        }
    }
}

/// The header of the box at `at`, read through the source, or `None` when
/// `limit` leaves no room for one.
///
/// A `size` of 0 resolves to `limit`, which is what §4.2 means by "to the
/// end of the file" when the parent is the file itself.
pub fn read_header<R: Input>(src: &mut Source<R>, at: u64, limit: u64) -> (span: Result<
    Option<BoxSpan>,
>)
    requires
        old(src).wf(),
    ensures
        final(src).ended(old(src), span),
        span matches Err(Error::Io(_)) || span == header_in(
            old(src).data(),
            old(src).size(),
            old(src).bounds().max_read,
            at,
            limit,
        ),
        match span {
            Ok(None) => final(src).cost() == old(src).cost(),
            Err(Error::Io(_)) => true,
            _ => cheap(final(src).cost(), old(src).cost(), 16, 1),
        },
{
    if limit < at || limit - at < 8 {
        return Ok(None);
    }
    let want: usize = if limit - at < 16 {
        (limit - at) as usize
    } else {
        16
    };
    let head = src.read_at(at, want)?;
    let header = match parse_header(head.as_slice(), at)? {
        Some(header) => header,
        // Eight bytes were there, so this is a `largesize` whose own bytes
        // the file does not reach: a truncation, not an end.
        None => return Err(Error::truncated("a box that ends inside its own size").at(at)),
    };
    let size = header.total(at, limit)?;
    if size > u64::MAX - at {
        return Err(Error::format("a box whose size overflows the file").at(at));
    }
    let end: u64 = at + size;
    if end > limit || header.header_len > size {
        return Err(
            Error::format("a box that runs past the file or its parent").at(at).in_box(
                header.kind,
            ),
        );
    }
    Ok(Some(BoxSpan { kind: header.kind, start: at, body: at + header.header_len, end }))
}

/// A list put in front of what the rest of a walk came to.
pub open spec fn joined<T>(front: Seq<T>, rest: Result<Seq<T>>) -> Result<Seq<T>> {
    match rest {
        Ok(rest) => Ok(front + rest),
        Err(err) => Err(err),
    }
}

/// The boxes of a file of `len` bytes from `at` on, after `count` others.
pub open spec fn boxes_from(data: Seq<u8>, len: u64, limits: Limits, at: u64, count: nat) -> Result<
    Seq<BoxSpan>,
>
    decreases len - at,
{
    match header_in(data, len, limits.max_read, at, len) {
        Err(err) => Err(err),
        Ok(None) => Ok(Seq::empty()),
        Ok(Some(span)) => if span.end <= at || span.end > len {
            Err(Error::format("a box of no length, which would not end").at(at))
        } else if count + 1 > limits.max_top_level {
            Err(Error::format("more top-level boxes than a file has"))
        } else {
            joined(seq![span], boxes_from(data, len, limits, span.end, count + 1))
        },
    }
}

/// Every top-level box of a file of `len` bytes, in order.
pub open spec fn top_level_spec(data: Seq<u8>, len: u64, limits: Limits) -> Result<Seq<BoxSpan>> {
    boxes_from(data, len, limits, 0, 0)
}

/// Every top-level box of a file, in order (§4.2). A header is all that is
/// read of each.
pub fn top_level<R: Input>(src: &mut Source<R>) -> (top: Result<Vec<BoxSpan>>)
    requires
        old(src).wf(),
    ensures
        final(src).ended(old(src), top),
        top matches Err(Error::Io(_)) || seen(top) == top_level_spec(
            old(src).data(),
            old(src).size(),
            old(src).bounds(),
        ),
        top matches Ok(top) ==> forall|i: int|
            0 <= i < top@.len() ==> (#[trigger] top@[i]).start + 8 <= top@[i].body && top@[i].body
                <= top@[i].end && top@[i].end <= old(src).size(),
        top matches Ok(top) ==> cheap(
            final(src).cost(),
            old(src).cost(),
            16 * top@.len() as int,
            top@.len() as int,
        ),
{
    let limit: u64 = src.len();
    let max: usize = src.limits().max_top_level;
    let ghost data = src.data();
    let ghost limits = src.bounds();
    let mut out: Vec<BoxSpan> = Vec::new();
    let mut at: u64 = 0;
    assert(joined(out@, boxes_from(data, limit, limits, 0, 0)) == boxes_from(
        data,
        limit,
        limits,
        0,
        0,
    )) by {
        if let Ok(rest) = boxes_from(data, limit, limits, 0, 0) {
            assert(out@ + rest =~= rest);
        }
    }
    loop
        invariant
            src.wf(),
            src.same_as(old(src)),
            cheap(src.cost(), old(src).cost(), 16 * out@.len() as int, out@.len() as int),
            data == old(src).data(),
            limits == old(src).bounds(),
            limit == old(src).size(),
            max == limits.max_top_level,
            at <= limit,
            forall|i: int|
                0 <= i < out@.len() ==> (#[trigger] out@[i]).start + 8 <= out@[i].body
                    && out@[i].body <= out@[i].end && out@[i].end <= limit,
            joined(out@, boxes_from(data, limit, limits, at, out@.len())) == top_level_spec(
                data,
                limit,
                limits,
            ),
        decreases limit - at,
    {
        let ghost before = out@;
        let span = match read_header(src, at, limit) {
            Err(err) => return Err(err),
            Ok(None) => {
                assert(out@ + Seq::<BoxSpan>::empty() =~= out@);
                return Ok(out);
            },
            Ok(Some(span)) => span,
        };
        if out.len() >= max {
            return Err(Error::format("more top-level boxes than a file has"));
        }
        out.push(span);
        proof {
            lemma_header_in(data, limit, limits.max_read, at, limit);
            if let Ok(rest) = boxes_from(data, limit, limits, span.end, out@.len()) {
                assert(before + (seq![span] + rest) =~= out@ + rest);
            }
        }
        at = span.end;
    }
}

// ------------------------------------------------------------------ //
// The boxes of a body.
// ------------------------------------------------------------------ //
/// One child box of a body already in hand.
#[derive(Clone, Copy, Debug)]
pub struct Child<'a> {
    pub kind: [u8; 4],
    /// The child's body, which is a slice of the parent's.
    pub body: &'a [u8],
    /// Where `body[0]` sits in the file or stream, when the caller knew
    /// where the parent was.
    pub at: u64,
}

/// A child box by what it holds.
pub struct Kid {
    pub kind: [u8; 4],
    pub body: Seq<u8>,
    pub at: u64,
}

impl View for Child<'_> {
    type V = Kid;

    open spec fn view(&self) -> Kid {
        Kid { kind: self.kind, body: self.body@, at: self.at }
    }
}

impl Child<'_> {
    pub fn is(&self, kind: &[u8; 4]) -> (is: bool)
        ensures
            is == (self.kind == *kind),
    {
        same(&self.kind, kind)
    }
}

/// A list of children by what they hold.
pub open spec fn kids_of(list: Seq<Child<'_>>) -> Seq<Kid> {
    Seq::new(list.len(), |i: int| list[i]@)
}

/// Whether every child of a list ends where a file can.
pub open spec fn all_fit(list: Seq<Child<'_>>) -> bool {
    forall|i: int|
        0 <= i < list.len() ==> (#[trigger] list[i]).at + list[i].body.len() <= u64::MAX
}

/// What a walk came to, by what its children hold.
pub open spec fn kids_seen(list: Result<Vec<Child<'_>>>) -> Result<Seq<Kid>> {
    match list {
        Ok(list) => Ok(kids_of(list@)),
        Err(err) => Err(err),
    }
}

/// How long a child is, `rest` being what is left of its parent.
pub open spec fn child_size(header: BoxHeader, rest: nat, here: u64) -> Result<nat> {
    let size = match header.size {
        BoxSize::Exact(size) => size as nat,
        BoxSize::ToEnd => rest,
    };
    if size > usize::MAX {
        Err(Error::format("a box wider than memory").at(here))
    } else if size < header.header_len || size > rest {
        Err(Error::format("a child box that runs past its parent").at(here).in_box(header.kind))
    } else {
        Ok(size)
    }
}

/// The child boxes of what is left of a body, after `count` others. `here`
/// is where that begins and `top` where the body did.
pub open spec fn kids_from(rest: Seq<u8>, here: u64, top: u64, max: usize, count: nat) -> Result<
    Seq<Kid>,
>
    decreases rest.len(),
{
    if rest.len() < 8 {
        Ok(Seq::empty())
    } else {
        match parse_header_spec(rest, here) {
            Err(err) => Err(err),
            Ok(None) => Err(Error::truncated("a box that ends inside its own size").at(here)),
            Ok(Some(header)) => match child_size(header, rest.len(), here) {
                Err(err) => Err(err),
                Ok(size) => if count + 1 > max {
                    Err(Error::format("more child boxes than a box has").at(top))
                } else if size == 0 {
                    Ok(Seq::empty())
                } else {
                    joined(
                        seq![
                            Kid {
                                kind: header.kind,
                                body: rest.subrange(header.header_len as int, size as int),
                                at: (here + header.header_len) as u64,
                            },
                        ],
                        kids_from(
                            rest.skip(size as int),
                            (here + size) as u64,
                            top,
                            max,
                            count + 1,
                        ),
                    )
                },
            },
        }
    }
}

/// The child boxes of a body, flat.
pub open spec fn children_spec(body: Seq<u8>, at: u64, max: usize) -> Result<Seq<Kid>> {
    kids_from(body, at, at, max, 0)
}

/// The child boxes of a body, flat, with the default child bound.
///
/// `at` is where `body[0]` sits in the file, or 0 when the caller does not
/// know or does not care.
pub fn children(body: &[u8], at: u64) -> (list: Result<Vec<Child<'_>>>)
    requires
        at + body.len() <= u64::MAX,
    ensures
        settled(list),
        kids_seen(list) == children_spec(body@, at, MAX_CHILDREN),
        list matches Ok(list) ==> all_fit(list@),
{
    children_bounded(body, at, MAX_CHILDREN)
}

/// The same, bounded by a caller's own [`Limits::max_children`].
pub fn children_bounded(body: &[u8], at: u64, max: usize) -> (list: Result<Vec<Child<'_>>>)
    requires
        at + body.len() <= u64::MAX,
    ensures
        settled(list),
        kids_seen(list) == children_spec(body@, at, max),
        list matches Ok(list) ==> all_fit(list@),
{
    let mut out: Vec<Child<'_>> = Vec::new();
    let mut pos: usize = 0;
    proof {
        assert(body@.skip(0) =~= body@);
        assert(kids_of(out@) =~= Seq::empty());
        if let Ok(rest) = children_spec(body@, at, max) {
            assert(kids_of(out@) + rest =~= rest);
        }
    }
    while body.len() - pos >= 8
        invariant
            at + body.len() <= u64::MAX,
            pos <= body.len(),
            joined(
                kids_of(out@),
                kids_from(body@.skip(pos as int), (at + pos) as u64, at, max, out@.len()),
            ) == children_spec(body@, at, max),
        decreases body.len() - pos,
    {
        let here: u64 = at + pos as u64;
        let ghost before = out@;
        let rest = slice_subrange(body, pos, body.len());
        assert(rest@ =~= body@.skip(pos as int));
        let header = match parse_header(rest, here)? {
            Some(header) => header,
            None => return Err(Error::truncated("a box that ends inside its own size").at(here)),
        };
        // Inside a body the parent's own end is the limit, so a size of 0
        // is the rest of the parent.
        let size: usize = match header.size {
            BoxSize::Exact(size) => {
                if size > usize::MAX as u64 {
                    return Err(Error::format("a box wider than memory").at(here));
                }
                size as usize
            },
            BoxSize::ToEnd => rest.len(),
        };
        if size > rest.len() {
            return Err(
                Error::format("a child box that runs past its parent").at(here).in_box(
                    header.kind,
                ),
            );
        }
        if out.len() >= max {
            return Err(Error::format("more child boxes than a box has").at(at));
        }
        let head: usize = header.header_len as usize;
        let kid = Child {
            kind: header.kind,
            body: slice_subrange(rest, head, size),
            at: here + header.header_len,
        };
        out.push(kid);
        pos = pos + size;
        proof {
            assert(rest@.skip(size as int) =~= body@.skip(pos as int));
            assert(kids_of(out@) =~= kids_of(before) + seq![kid@]);
            if let Ok(more) = kids_from(
                body@.skip(pos as int),
                (at + pos) as u64,
                at,
                max,
                out@.len(),
            ) {
                assert(kids_of(before) + (seq![kid@] + more) =~= kids_of(out@) + more);
            }
        }
    }
    proof {
        assert(kids_of(out@) + Seq::<Kid>::empty() =~= kids_of(out@));
        law_children_lie_inside(body@, at, max);
        assert forall|i: int| 0 <= i < out@.len() implies (#[trigger] out@[i]).at
            + out@[i].body.len() <= u64::MAX by {
            assert(lies_in(kids_of(out@)[i], body@, at as int));
        }
    }
    Ok(out)
}

/// The child bound a [`Limits`] asks for, for the walks inside this crate.
pub fn kids<'a>(body: &'a [u8], at: u64, limits: &Limits) -> (list: Result<Vec<Child<'a>>>)
    requires
        at + body.len() <= u64::MAX,
    ensures
        settled(list),
        kids_seen(list) == children_spec(body@, at, limits.max_children),
        list matches Ok(list) ==> all_fit(list@),
{
    children_bounded(body, at, limits.max_children)
}

/// The first child of a kind.
pub open spec fn first_of(list: Seq<Kid>, kind: [u8; 4]) -> Option<Kid>
    decreases list.len(),
{
    if list.len() == 0 {
        None
    } else if list[0].kind == kind {
        Some(list[0])
    } else {
        first_of(list.drop_first(), kind)
    }
}

/// The body of the first child of a kind.
pub open spec fn found(list: Seq<Kid>, kind: [u8; 4]) -> Option<Seq<u8>> {
    match first_of(list, kind) {
        Some(kid) => Some(kid.body),
        None => None,
    }
}

/// The body of the first child of a kind.
pub fn child<'a>(list: &[Child<'a>], kind: &[u8; 4]) -> (body: Option<&'a [u8]>)
    ensures
        match body {
            Some(body) => found(kids_of(list@), *kind) == Some(body@),
            None => found(kids_of(list@), *kind) is None,
        },
{
    match child_of(list, kind) {
        Some(item) => Some(item.body),
        None => None,
    }
}

/// The first child of a kind, as a child rather than a body, so its
/// position survives.
pub fn child_of<'a>(list: &[Child<'a>], kind: &[u8; 4]) -> (item: Option<Child<'a>>)
    ensures
        match item {
            Some(item) => {
                &&& first_of(kids_of(list@), *kind) == Some(item@)
                &&& exists|i: int| 0 <= i < list@.len() && #[trigger] list@[i] == item
            },
            None => first_of(kids_of(list@), *kind) is None,
        },
{
    let mut index: usize = 0;
    assert(kids_of(list@).skip(0) =~= kids_of(list@));
    while index < list.len()
        invariant
            index <= list.len(),
            first_of(kids_of(list@).skip(index as int), *kind) == first_of(kids_of(list@), *kind),
        decreases list.len() - index,
    {
        let item = list[index];
        assert(kids_of(list@).skip(index as int)[0] == item@);
        assert(kids_of(list@).skip(index as int).drop_first() =~= kids_of(list@).skip(index + 1));
        if item.is(kind) {
            return Some(item);
        }
        index = index + 1;
    }
    None
}

/// The body of the first box of a kind in a segment in memory.
pub open spec fn find_in_spec(data: Seq<u8>, kind: [u8; 4], at: u64) -> Result<Option<Seq<u8>>> {
    match children_spec(data, at, MAX_CHILDREN) {
        Err(err) => Err(err),
        Ok(list) => Ok(found(list, kind)),
    }
}

/// The body of the first top-level box of a kind in a segment already in
/// memory, which is what an init segment is.
pub fn find_in<'a>(data: &'a [u8], kind: &[u8; 4], at: u64) -> (body: Result<Option<&'a [u8]>>)
    requires
        at + data.len() <= u64::MAX,
    ensures
        settled(body),
        match body {
            Ok(Some(body)) => find_in_spec(data@, *kind, at) == Ok::<_, Error>(Some(body@)),
            Ok(None) => find_in_spec(data@, *kind, at) == Ok::<Option<Seq<u8>>, Error>(None),
            Err(err) => find_in_spec(data@, *kind, at) == Err::<Option<Seq<u8>>, Error>(err),
        },
{
    let list = children(data, at)?;
    Ok(child(list.as_slice(), kind))
}

// ------------------------------------------------------------------ //
// The cursor.
// ------------------------------------------------------------------ //
/// A bounds-checked walk over bytes already in hand, big-endian, which is
/// the byte order every field in §4 and §8 is written in.
///
/// It carries the absolute position of its first byte so that an error from
/// twelve fields into a `trun` says where the `trun` was.
#[derive(Clone, Copy, Debug)]
pub struct Bytes<'a> {
    data: &'a [u8],
    at: usize,
    base: u64,
}

/// A cursor by what it walks over, how far it is, and where it began.
pub struct Walk {
    pub data: Seq<u8>,
    pub at: nat,
    pub base: u64,
}

impl Walk {
    /// How many bytes are ahead of the cursor.
    pub open spec fn left(self) -> int {
        self.data.len() - self.at
    }

    /// The cursor, `count` bytes further on.
    pub open spec fn moved(self, count: nat) -> Walk {
        Walk { data: self.data, at: self.at + count, base: self.base }
    }

    /// The error of a value of `count` bytes that is not all there.
    pub open spec fn lacks(self, count: nat) -> Error {
        lacking(self.base, self.at, count)
    }

    /// Whether the position of a failure to take `count` bytes is one a file
    /// can have.
    pub open spec fn tells(self, count: nat) -> bool {
        count > self.left() ==> self.base + self.at <= u64::MAX
    }
}

/// The error of a value of `count` bytes at `pos` that is not all there,
/// the bytes having begun at `base` in the file.
pub open spec fn lacking(base: u64, pos: nat, count: nat) -> Error {
    if pos + count > usize::MAX {
        Error::format("a length that overflows").at((base + pos) as u64)
    } else {
        Error::truncated("the bytes end inside a value").at((base + pos) as u64)
    }
}

/// The error of a `FullBox` opening that `len` bytes do not hold.
pub open spec fn full_box_lacking(base: u64, pos: nat, len: nat) -> Error {
    if len < pos + 1 {
        lacking(base, pos, 1)
    } else {
        lacking(base, pos + 1, 3)
    }
}

impl<'a> View for Bytes<'a> {
    type V = Walk;

    closed spec fn view(&self) -> Walk {
        Walk { data: self.data@, at: self.at as nat, base: self.base }
    }
}

impl<'a> Bytes<'a> {
    #[verifier::type_invariant]
    spec fn inside(self) -> bool {
        self.at <= self.data@.len()
    }

    /// A cursor over bytes whose file position is not known.
    pub fn new(data: &'a [u8]) -> (bytes: Self)
        ensures
            bytes@ == (Walk { data: data@, at: 0, base: 0 }),
    {
        Bytes { data, at: 0, base: 0 }
    }

    /// A cursor over bytes that begin at `base` in the file.
    pub fn at(data: &'a [u8], base: u64) -> (bytes: Self)
        ensures
            bytes@ == (Walk { data: data@, at: 0, base }),
    {
        Bytes { data, at: 0, base }
    }

    /// Where the cursor is, in the file.
    pub fn offset(&self) -> (offset: u64)
        requires
            self@.base + self@.at <= u64::MAX,
        ensures
            offset == self@.base + self@.at,
    {
        self.base + self.at as u64
    }

    pub fn left(&self) -> (left: usize)
        ensures
            left == self@.left(),
    {
        proof {
            use_type_invariant(&*self);
        }
        self.data.len() - self.at
    }

    pub fn take(&mut self, count: usize) -> (taken: Result<&'a [u8]>)
        requires
            old(self)@.tells(count as nat),
        ensures
            match taken {
                Ok(bytes) => {
                    &&& count <= old(self)@.left()
                    &&& bytes@ == old(self)@.data.subrange(
                        old(self)@.at as int,
                        old(self)@.at as int + count,
                    )
                    &&& final(self)@ == old(self)@.moved(count as nat)
                },
                Err(err) => {
                    &&& count > old(self)@.left()
                    &&& err == old(self)@.lacks(count as nat)
                    &&& final(self)@ == old(self)@
                },
            },
    {
        proof {
            use_type_invariant(&*self);
        }
        let at: usize = self.at;
        let len: usize = self.data.len();
        if count > usize::MAX - at {
            return Err(Error::format("a length that overflows").at(self.offset()));
        }
        let end: usize = at + count;
        if end > len {
            return Err(Error::truncated("the bytes end inside a value").at(self.offset()));
        }
        let out = slice_subrange(self.data, at, end);
        self.at = end;
        Ok(out)
    }

    pub fn rest(&mut self) -> (rest: &'a [u8])
        ensures
            rest@ == old(self)@.data.skip(old(self)@.at as int),
            final(self)@ == (Walk { at: old(self)@.data.len(), ..old(self)@ }),
    {
        proof {
            use_type_invariant(&*self);
        }
        let out = slice_subrange(self.data, self.at, self.data.len());
        assert(out@ =~= self@.data.skip(self@.at as int));
        self.at = self.data.len();
        out
    }

    pub fn skip(&mut self, count: usize) -> (skipped: Result<()>)
        requires
            old(self)@.tells(count as nat),
        ensures
            match skipped {
                Ok(_) => {
                    &&& count <= old(self)@.left()
                    &&& final(self)@ == old(self)@.moved(count as nat)
                },
                Err(err) => {
                    &&& count > old(self)@.left()
                    &&& err == old(self)@.lacks(count as nat)
                    &&& final(self)@ == old(self)@
                },
            },
    {
        match self.take(count) {
            Ok(_) => Ok(()),
            Err(err) => Err(err),
        }
    }

    pub fn u8(&mut self) -> (value: Result<u8>)
        requires
            old(self)@.tells(1),
        ensures
            match value {
                Ok(value) => {
                    &&& 1 <= old(self)@.left()
                    &&& value == old(self)@.data[old(self)@.at as int]
                    &&& final(self)@ == old(self)@.moved(1)
                },
                Err(err) => {
                    &&& 1 > old(self)@.left()
                    &&& err == old(self)@.lacks(1)
                    &&& final(self)@ == old(self)@
                },
            },
    {
        let bytes = self.take(1)?;
        Ok(bytes[0])
    }

    pub fn u16(&mut self) -> (value: Result<u16>)
        requires
            old(self)@.tells(2),
        ensures
            match value {
                Ok(value) => {
                    &&& 2 <= old(self)@.left()
                    &&& value == be16(old(self)@.data, old(self)@.at as int)
                    &&& final(self)@ == old(self)@.moved(2)
                },
                Err(err) => {
                    &&& 2 > old(self)@.left()
                    &&& err == old(self)@.lacks(2)
                    &&& final(self)@ == old(self)@
                },
            },
    {
        let bytes = self.take(2)?;
        proof {
            lemma_same16(bytes@, 0, old(self)@.data, old(self)@.at as int);
        }
        Ok(get16(bytes, 0))
    }

    pub fn u32(&mut self) -> (value: Result<u32>)
        requires
            old(self)@.tells(4),
        ensures
            match value {
                Ok(value) => {
                    &&& 4 <= old(self)@.left()
                    &&& value == be32(old(self)@.data, old(self)@.at as int)
                    &&& final(self)@ == old(self)@.moved(4)
                },
                Err(err) => {
                    &&& 4 > old(self)@.left()
                    &&& err == old(self)@.lacks(4)
                    &&& final(self)@ == old(self)@
                },
            },
    {
        let bytes = self.take(4)?;
        proof {
            lemma_same32(bytes@, 0, old(self)@.data, old(self)@.at as int);
        }
        Ok(get32(bytes, 0))
    }

    /// The same four bytes, read as signed. §8.6.1.3 and §8.8.8 both have a
    /// version 0 field that is unsigned on paper and signed in every file
    /// ffmpeg wrote.
    pub fn i32(&mut self) -> (value: Result<i32>)
        requires
            old(self)@.tells(4),
        ensures
            match value {
                Ok(value) => {
                    &&& 4 <= old(self)@.left()
                    &&& value == signed32(be32(old(self)@.data, old(self)@.at as int))
                    &&& final(self)@ == old(self)@.moved(4)
                },
                Err(err) => {
                    &&& 4 > old(self)@.left()
                    &&& err == old(self)@.lacks(4)
                    &&& final(self)@ == old(self)@
                },
            },
    {
        let value = self.u32()?;
        Ok(as_signed32(value))
    }

    pub fn u64(&mut self) -> (value: Result<u64>)
        requires
            old(self)@.tells(8),
        ensures
            match value {
                Ok(value) => {
                    &&& 8 <= old(self)@.left()
                    &&& value == be64(old(self)@.data, old(self)@.at as int)
                    &&& final(self)@ == old(self)@.moved(8)
                },
                Err(err) => {
                    &&& 8 > old(self)@.left()
                    &&& err == old(self)@.lacks(8)
                    &&& final(self)@ == old(self)@
                },
            },
    {
        let bytes = self.take(8)?;
        proof {
            lemma_same64(bytes@, 0, old(self)@.data, old(self)@.at as int);
        }
        Ok(get64(bytes, 0))
    }

    /// A `FullBox`'s version byte and its three flag bytes, in one (§4.2).
    pub fn full_box(&mut self) -> (opening: Result<(u8, u32)>)
        requires
            old(self)@.base + old(self)@.data.len() <= u64::MAX,
        ensures
            match opening {
                Ok(opening) => {
                    &&& 4 <= old(self)@.left()
                    &&& opening.0 == old(self)@.data[old(self)@.at as int]
                    &&& opening.1 == be24(old(self)@.data, old(self)@.at as int + 1)
                    &&& final(self)@ == old(self)@.moved(4)
                },
                Err(err) => {
                    &&& 4 > old(self)@.left()
                    &&& err == full_box_lacking(
                        old(self)@.base,
                        old(self)@.at,
                        old(self)@.data.len(),
                    )
                    &&& final(self)@ == if old(self)@.left() < 1 {
                        old(self)@
                    } else {
                        old(self)@.moved(1)
                    }
                },
            },
    {
        proof {
            use_type_invariant(&*self);
        }
        let version: u8 = self.u8()?;
        let bytes = self.take(3)?;
        proof {
            lemma_same24(bytes@, 0, old(self)@.data, old(self)@.at as int + 1);
        }
        Ok((version, get24(bytes, 0)))
    }

    /// An `entry_count`, refused when the entries it claims could not fit in
    /// the bytes that are left.
    ///
    /// This is the whole of "never allocate from an unchecked length" for
    /// the sample tables: a header saying four billion entries is a lie the
    /// box's own length contradicts, and catching it here is what keeps a
    /// `Vec` from being told to hold four billion of anything.
    pub fn count(&mut self, entry_size: usize) -> (count: Result<usize>)
        requires
            old(self)@.base + old(self)@.at <= u64::MAX,
        ensures
            count == count_spec(old(self)@, entry_size as nat),
            final(self)@ == if old(self)@.left() < 4 {
                old(self)@
            } else {
                old(self)@.moved(4)
            },
    {
        let at: u64 = self.offset();
        let count: usize = self.u32()? as usize;
        let each: usize = if entry_size == 0 {
            1
        } else {
            entry_size
        };
        let want: usize = match count.checked_mul(each) {
            Some(want) => want,
            None => return Err(Error::format("a table wider than memory").at(at)),
        };
        if want > self.left() {
            return Err(Error::format("a table longer than the box holding it").at(at));
        }
        Ok(count)
    }
}

/// How many bytes a table of so many entries takes, an entry being at least
/// one byte.
pub open spec fn table_len(count: nat, entry_size: nat) -> nat {
    count * if entry_size == 0 {
        1
    } else {
        entry_size
    }
}

/// The `entry_count` a cursor is at, where the entries it claims fit in the
/// bytes that follow.
pub open spec fn count_spec(walk: Walk, entry_size: nat) -> Result<usize> {
    let here = (walk.base + walk.at) as u64;
    let count = be32(walk.data, walk.at as int);
    if walk.left() < 4 {
        Err(walk.lacks(4))
    } else if table_len(count as nat, entry_size) > usize::MAX {
        Err(Error::format("a table wider than memory").at(here))
    } else if table_len(count as nat, entry_size) > walk.left() - 4 {
        Err(Error::format("a table longer than the box holding it").at(here))
    } else {
        Ok(count as usize)
    }
}

// ------------------------------------------------------------------ //
// Building one.
// ------------------------------------------------------------------ //
/// A box as bytes: its length in 32 bits, its four characters, its payload.
pub open spec fn boxed_spec(kind: [u8; 4], payload: Seq<u8>) -> Seq<u8> {
    enc32(((8 + payload.len()) % 0x1_0000_0000) as u32) + kind@ + payload
}

/// What a `FullBox` holds: a version byte, three flag bytes, its payload.
pub open spec fn full_body(version: u8, flags: u32, payload: Seq<u8>) -> Seq<u8> {
    seq![version] + enc24(flags) + payload
}

pub open spec fn full_boxed_spec(
    kind: [u8; 4],
    version: u8,
    flags: u32,
    payload: Seq<u8>,
) -> Seq<u8> {
    boxed_spec(kind, full_body(version, flags, payload))
}

pub broadcast proof fn lemma_boxed_len(kind: [u8; 4], payload: Seq<u8>)
    ensures
        #[trigger] boxed_spec(kind, payload).len() == 8 + payload.len(),
{
    lemma_enc32_len(((8 + payload.len()) % 0x1_0000_0000) as u32);
}

pub broadcast proof fn lemma_full_body_len(version: u8, flags: u32, payload: Seq<u8>)
    ensures
        #[trigger] full_body(version, flags, payload).len() == 4 + payload.len(),
{
    lemma_enc24_len(flags);
}

/// How long the parts of a box are.
pub broadcast group group_box_len {
    lemma_boxed_len,
    lemma_full_body_len,
}

/// A box: its length, its four characters, and its payload (§4.2).
pub fn boxed(kind: &[u8; 4], payload: &[u8]) -> (out: Vec<u8>)
    requires
        8 + payload.len() <= usize::MAX,
    ensures
        out@ == boxed_spec(*kind, payload@),
{
    let mut out: Vec<u8> = Vec::new();
    let size: u64 = (8 + payload.len()) as u64 % 0x1_0000_0000;
    put32(&mut out, size as u32);
    put(&mut out, kind.as_slice());
    put(&mut out, payload);
    assert(out@ =~= boxed_spec(*kind, payload@));
    out
}

/// A `FullBox`: a box whose payload opens with a version byte and three flag
/// bytes (§4.2).
pub fn full_boxed(kind: &[u8; 4], version: u8, flags: u32, payload: &[u8]) -> (out: Vec<u8>)
    requires
        12 + payload.len() <= usize::MAX,
    ensures
        out@ == full_boxed_spec(*kind, version, flags, payload@),
{
    let mut full: Vec<u8> = Vec::new();
    full.push(version);
    put24(&mut full, flags);
    put(&mut full, payload);
    assert(full@ =~= full_body(version, flags, payload@));
    proof {
        lemma_enc24_len(flags);
    }
    boxed(kind, full.as_slice())
}

/// A `uuid` box: a box whose type is an extended 16-byte type, which is how
/// §4.2 lets anyone carry anything in a file without asking (§4.2,
/// `extended_type`).
pub fn uuid_boxed(uuid: &[u8; 16], payload: &[u8]) -> (out: Vec<u8>)
    requires
        24 + payload.len() <= usize::MAX,
    ensures
        out@ == boxed_spec(UUID, uuid@ + payload@),
{
    let mut body: Vec<u8> = Vec::new();
    put(&mut body, uuid.as_slice());
    put(&mut body, payload);
    assert(body@ =~= uuid@ + payload@);
    boxed(&UUID, body.as_slice())
}

// ------------------------------------------------------------------ //
// What holds of the whole.
// ------------------------------------------------------------------ //
/// Boxes written one after another.
pub open spec fn laid(list: Seq<([u8; 4], Seq<u8>)>) -> Seq<u8>
    decreases list.len(),
{
    if list.len() == 0 {
        Seq::empty()
    } else {
        boxed_spec(list[0].0, list[0].1) + laid(list.drop_first())
    }
}

/// One, two, three or five boxes, written out.
pub proof fn lemma_laid(
    a: ([u8; 4], Seq<u8>),
    b: ([u8; 4], Seq<u8>),
    c: ([u8; 4], Seq<u8>),
    d: ([u8; 4], Seq<u8>),
    e: ([u8; 4], Seq<u8>),
)
    ensures
        laid(seq![a]) == boxed_spec(a.0, a.1),
        laid(seq![a, b]) == boxed_spec(a.0, a.1) + boxed_spec(b.0, b.1),
        laid(seq![a, b, c]) == boxed_spec(a.0, a.1) + boxed_spec(b.0, b.1) + boxed_spec(c.0, c.1),
        laid(seq![a, b, c, d, e]) == boxed_spec(a.0, a.1) + boxed_spec(b.0, b.1) + boxed_spec(
            c.0,
            c.1,
        ) + boxed_spec(d.0, d.1) + boxed_spec(e.0, e.1),
{
    let (wa, wb, wc) = (boxed_spec(a.0, a.1), boxed_spec(b.0, b.1), boxed_spec(c.0, c.1));
    let (wd, we) = (boxed_spec(d.0, d.1), boxed_spec(e.0, e.1));
    let none = Seq::<([u8; 4], Seq<u8>)>::empty();
    assert(laid(none) =~= Seq::empty());
    lemma_laid_first(a, none);
    lemma_laid_first(b, none);
    lemma_laid_first(c, none);
    lemma_laid_first(e, none);
    assert(none.insert(0, a) =~= seq![a] && none.insert(0, b) =~= seq![b]);
    assert(none.insert(0, c) =~= seq![c] && none.insert(0, e) =~= seq![e]);
    lemma_laid_first(a, seq![b]);
    lemma_laid_first(b, seq![c]);
    lemma_laid_first(d, seq![e]);
    assert(seq![b].insert(0, a) =~= seq![a, b]);
    assert(seq![c].insert(0, b) =~= seq![b, c]);
    assert(seq![e].insert(0, d) =~= seq![d, e]);
    lemma_laid_first(a, seq![b, c]);
    lemma_laid_first(c, seq![d, e]);
    assert(seq![b, c].insert(0, a) =~= seq![a, b, c]);
    assert(seq![d, e].insert(0, c) =~= seq![c, d, e]);
    lemma_laid_first(b, seq![c, d, e]);
    assert(seq![c, d, e].insert(0, b) =~= seq![b, c, d, e]);
    lemma_laid_first(a, seq![b, c, d, e]);
    assert(seq![b, c, d, e].insert(0, a) =~= seq![a, b, c, d, e]);
    assert(wa + Seq::<u8>::empty() =~= wa);
    assert(wa + (wb + Seq::<u8>::empty()) =~= wa + wb);
    assert(wa + (wb + (wc + Seq::<u8>::empty())) =~= wa + wb + wc);
    assert(wa + (wb + (wc + (wd + (we + Seq::<u8>::empty())))) =~= wa + wb + wc + wd + we);
}

proof fn lemma_laid_first(one: ([u8; 4], Seq<u8>), rest: Seq<([u8; 4], Seq<u8>)>)
    ensures
        laid(rest.insert(0, one)) == boxed_spec(one.0, one.1) + laid(rest),
{
    assert(rest.insert(0, one).drop_first() =~= rest);
}

/// A box fits when its length fits the 32 bits it is written in.
pub open spec fn fits(payload: Seq<u8>) -> bool {
    8 + payload.len() < 0x1_0000_0000
}

/// The children that boxes written one after another are, the first of them
/// at `at`.
pub open spec fn placed(list: Seq<([u8; 4], Seq<u8>)>, at: int) -> Seq<Kid>
    decreases list.len(),
{
    if list.len() == 0 {
        Seq::empty()
    } else {
        seq![Kid { kind: list[0].0, body: list[0].1, at: (at + 8) as u64 }] + placed(
            list.drop_first(),
            at + 8 + list[0].1.len(),
        )
    }
}

/// What a header says is settled by its own bytes: once it reads, bytes that
/// come after it change nothing.
pub proof fn law_header_needs_no_more(data: Seq<u8>, more: Seq<u8>, at: u64)
    ensures
        !(parse_header_spec(data, at) matches Ok(None)) ==> parse_header_spec(data + more, at)
            == parse_header_spec(data, at),
{
    let all = data + more;
    if data.len() >= 8 {
        lemma_same32(all, 0, data, 0);
        assert(kind_at(all, 4) == kind_at(data, 4));
        if data.len() >= 16 {
            lemma_same64(all, 8, data, 8);
        }
    }
}

/// The header of a box reads back as the kind and the length it was built
/// with, whatever follows the box.
pub proof fn law_built_header_reads_back(kind: [u8; 4], payload: Seq<u8>, tail: Seq<u8>, at: u64)
    requires
        fits(payload),
    ensures
        boxed_spec(kind, payload).len() == 8 + payload.len(),
        parse_header_spec(boxed_spec(kind, payload) + tail, at) == Ok::<_, Error>(
            Some(
                BoxHeader {
                    kind,
                    header_len: 8,
                    size: BoxSize::Exact((8 + payload.len()) as u64),
                },
            ),
        ),
{
    let size = (8 + payload.len()) as u32;
    let all = boxed_spec(kind, payload) + tail;
    broadcast use group_enc_len;

    lemma_enc32(size);
    lemma_same32(all, 0, enc32(size), 0);
    assert(kind_at(all, 4) =~= kind);
}

/// A box in front of other bytes is the first child, and the rest of the
/// children are those of the other bytes.
pub proof fn law_first_child(
    kind: [u8; 4],
    payload: Seq<u8>,
    rest: Seq<u8>,
    here: u64,
    top: u64,
    max: usize,
    count: nat,
)
    requires
        fits(payload),
        here + 8 + payload.len() + rest.len() <= u64::MAX,
        count < max,
    ensures
        kids_from(boxed_spec(kind, payload) + rest, here, top, max, count) == joined(
            seq![Kid { kind, body: payload, at: (here + 8) as u64 }],
            kids_from(rest, (here + 8 + payload.len()) as u64, top, max, count + 1),
        ),
{
    let all = boxed_spec(kind, payload) + rest;
    let size = 8 + payload.len();
    law_built_header_reads_back(kind, payload, rest, here);
    assert(all.subrange(8, size as int) =~= payload);
    assert(all.skip(size as int) =~= rest);
    assert(all.len() >= 8);
    reveal_with_fuel(kids_from, 2);
}

/// The same of every box of a list.
pub proof fn lemma_laid_kids(
    list: Seq<([u8; 4], Seq<u8>)>,
    here: u64,
    top: u64,
    max: usize,
    count: nat,
)
    requires
        forall|i: int| 0 <= i < list.len() ==> fits(#[trigger] list[i].1),
        here + laid(list).len() <= u64::MAX,
        count + list.len() <= max,
    ensures
        kids_from(laid(list), here, top, max, count) == Ok::<_, Error>(placed(list, here as int)),
    decreases list.len(),
{
    if list.len() > 0 {
        let payload = list[0].1;
        let rest = list.drop_first();
        assert(fits(list[0].1));
        law_built_header_reads_back(list[0].0, payload, Seq::empty(), here);
        law_first_child(list[0].0, payload, laid(rest), here, top, max, count);
        assert forall|i: int| 0 <= i < rest.len() implies fits(#[trigger] rest[i].1) by {
            assert(rest[i] == list[i + 1]);
        }
        lemma_laid_kids(rest, (here + 8 + payload.len()) as u64, top, max, count + 1);
    }
}

/// The walk reads back what the builders wrote: the children of boxes
/// written one after another are those boxes, in order, each with its kind,
/// its payload and its place.
pub proof fn law_children_read_back(list: Seq<([u8; 4], Seq<u8>)>, at: u64, max: usize)
    requires
        forall|i: int| 0 <= i < list.len() ==> fits(#[trigger] list[i].1),
        at + laid(list).len() <= u64::MAX,
        list.len() <= max,
    ensures
        children_spec(laid(list), at, max) == Ok::<_, Error>(placed(list, at as int)),
{
    lemma_laid_kids(list, at, at, max, 0);
}

/// Where the body of the box `i` of a list begins, the list being at `at`.
pub open spec fn place_of(list: Seq<([u8; 4], Seq<u8>)>, at: int, i: int) -> int
    decreases i,
{
    if i <= 0 {
        at + 8
    } else {
        place_of(list.drop_first(), at + 8 + list[0].1.len(), i - 1)
    }
}

/// The first box of a kind in a list is the one that is found, at its place.
pub proof fn lemma_found(list: Seq<([u8; 4], Seq<u8>)>, at: int, kind: [u8; 4], i: int)
    requires
        0 <= i < list.len(),
        list[i].0 == kind,
        forall|j: int| 0 <= j < i ==> (#[trigger] list[j]).0 != kind,
    ensures
        first_of(placed(list, at), kind) == Some(
            Kid { kind, body: list[i].1, at: place_of(list, at, i) as u64 },
        ),
        at + 8 <= place_of(list, at, i),
        place_of(list, at, i) + list[i].1.len() <= at + laid(list).len(),
    decreases i,
{
    broadcast use group_box_len;

    let rest = list.drop_first();
    let tail = placed(rest, at + 8 + list[0].1.len());
    assert(placed(list, at).drop_first() =~= tail);
    if i > 0 {
        assert(list[0].0 != kind);
        assert forall|j: int| 0 <= j < i - 1 implies (#[trigger] rest[j]).0 != kind by {
            assert(rest[j] == list[j + 1]);
        }
        lemma_found(rest, at + 8 + list[0].1.len(), kind, i - 1);
    }
}

/// A box of a kind no box of a list has is not found.
pub proof fn lemma_not_found(list: Seq<([u8; 4], Seq<u8>)>, at: int, kind: [u8; 4])
    requires
        forall|j: int| 0 <= j < list.len() ==> (#[trigger] list[j]).0 != kind,
    ensures
        first_of(placed(list, at), kind) is None,
    decreases list.len(),
{
    if list.len() > 0 {
        let rest = list.drop_first();
        let tail = placed(rest, at + 8 + list[0].1.len());
        assert(placed(list, at).drop_first() =~= tail);
        assert(list[0].0 != kind);
        assert forall|j: int| 0 <= j < rest.len() implies (#[trigger] rest[j]).0 != kind by {
            assert(rest[j] == list[j + 1]);
        }
        lemma_not_found(rest, at + 8 + list[0].1.len(), kind);
    }
}

/// A search among boxes written one after another gives the payload of the
/// first of the kind.
pub proof fn law_a_search_gives_the_first_of_its_kind(
    list: Seq<([u8; 4], Seq<u8>)>,
    at: u64,
    kind: [u8; 4],
    i: int,
)
    requires
        forall|j: int| 0 <= j < list.len() ==> fits(#[trigger] list[j].1),
        at + laid(list).len() <= u64::MAX,
        list.len() <= MAX_CHILDREN,
        0 <= i < list.len(),
        list[i].0 == kind,
        forall|j: int| 0 <= j < i ==> (#[trigger] list[j]).0 != kind,
    ensures
        find_in_spec(laid(list), kind, at) == Ok::<_, Error>(Some(list[i].1)),
{
    law_children_read_back(list, at, MAX_CHILDREN);
    lemma_found(list, at as int, kind, i);
}

/// A search for a kind none of them has gives nothing.
pub proof fn law_a_search_for_another_kind_gives_nothing(
    list: Seq<([u8; 4], Seq<u8>)>,
    at: u64,
    kind: [u8; 4],
)
    requires
        forall|j: int| 0 <= j < list.len() ==> fits(#[trigger] list[j].1),
        at + laid(list).len() <= u64::MAX,
        list.len() <= MAX_CHILDREN,
        forall|j: int| 0 <= j < list.len() ==> (#[trigger] list[j]).0 != kind,
    ensures
        find_in_spec(laid(list), kind, at) == Ok::<Option<Seq<u8>>, Error>(None),
{
    law_children_read_back(list, at, MAX_CHILDREN);
    lemma_not_found(list, at as int, kind);
}

/// Of three boxes, the first and the third of one kind and the second of
/// another, a search finds the first for the one kind, the second for the
/// other, and nothing for any kind else.
pub proof fn law_a_search_among_three_boxes(
    one: [u8; 4],
    two: [u8; 4],
    other: [u8; 4],
    p: Seq<u8>,
    q: Seq<u8>,
    at: u64,
)
    requires
        one != two,
        other != one,
        other != two,
        fits(p),
        fits(q),
        at + (boxed_spec(one, p) + boxed_spec(two, q) + boxed_spec(one, q)).len() <= u64::MAX,
    ensures
        ({
            let data = boxed_spec(one, p) + boxed_spec(two, q) + boxed_spec(one, q);
            &&& find_in_spec(data, one, at) == Ok::<_, Error>(Some(p))
            &&& find_in_spec(data, two, at) == Ok::<_, Error>(Some(q))
            &&& find_in_spec(data, other, at) == Ok::<Option<Seq<u8>>, Error>(None)
        }),
{
    let list = seq![(one, p), (two, q), (one, q)];
    lemma_laid(list[0], list[1], list[2], list[0], list[0]);
    assert forall|j: int| 0 <= j < list.len() implies fits(#[trigger] list[j].1) by {}
    law_a_search_gives_the_first_of_its_kind(list, at, one, 0);
    law_a_search_gives_the_first_of_its_kind(list, at, two, 1);
    law_a_search_for_another_kind_gives_nothing(list, at, other);
}

/// A child's body is the bytes of its parent at the place the child says it
/// has, behind a header of its own.
pub open spec fn lies_in(kid: Kid, body: Seq<u8>, at: int) -> bool {
    &&& at + 8 <= kid.at
    &&& kid.at - at + kid.body.len() <= body.len()
    &&& kid.body == body.subrange(kid.at - at, kid.at - at + kid.body.len())
}

/// Whether children come in order, with room for a header before each.
pub open spec fn in_order(list: Seq<Kid>) -> bool {
    forall|i: int, j: int|
        0 <= i < j < list.len() ==> #[trigger] list[i].at + list[i].body.len() + 8 <= (
        #[trigger] list[j]).at
}

/// No child reaches past its parent, and no two share a byte.
pub proof fn law_children_lie_inside(body: Seq<u8>, at: u64, max: usize)
    requires
        at + body.len() <= u64::MAX,
    ensures
        children_spec(body, at, max) matches Ok(list) ==> {
            &&& list.len() <= max
            &&& in_order(list)
            &&& forall|i: int| 0 <= i < list.len() ==> lies_in(#[trigger] list[i], body, at as int)
        },
{
    lemma_kids_lie_inside(body, at, at, max, 0);
}

proof fn lemma_kids_lie_inside(rest: Seq<u8>, here: u64, top: u64, max: usize, count: nat)
    requires
        here + rest.len() <= u64::MAX,
        count <= max,
    ensures
        kids_from(rest, here, top, max, count) matches Ok(list) ==> {
            &&& count + list.len() <= max
            &&& in_order(list)
            &&& forall|i: int|
                0 <= i < list.len() ==> lies_in(#[trigger] list[i], rest, here as int)
        },
    decreases rest.len(),
{
    if rest.len() >= 8 {
        if let Ok(Some(header)) = parse_header_spec(rest, here) {
            if let Ok(size) = child_size(header, rest.len(), here) {
                if count + 1 <= max {
                    let next = (here + size) as u64;
                    let more = rest.skip(size as int);
                    lemma_kids_lie_inside(more, next, top, max, count + 1);
                    if let Ok(tail) = kids_from(more, next, top, max, count + 1) {
                        let head = Kid {
                            kind: header.kind,
                            body: rest.subrange(header.header_len as int, size as int),
                            at: (here + header.header_len) as u64,
                        };
                        let list = seq![head] + tail;
                        assert(list[0] == head);
                        assert forall|i: int| 0 <= i < list.len() implies lies_in(
                            #[trigger] list[i],
                            rest,
                            here as int,
                        ) by {
                            if i > 0 {
                                let kid = tail[i - 1];
                                assert(list[i] == kid);
                                assert(lies_in(kid, more, next as int));
                                assert(more.subrange(
                                    kid.at - next,
                                    kid.at - next + kid.body.len(),
                                ) =~= rest.subrange(
                                    kid.at - here,
                                    kid.at - here + kid.body.len(),
                                ));
                            }
                        }
                        assert forall|i: int, j: int| 0 <= i < j < list.len() implies (
                        #[trigger] list[i]).at + list[i].body.len() + 8 <= (#[trigger] list[j]).at by {
                            assert(list[j] == tail[j - 1]);
                            if i > 0 {
                                assert(list[i] == tail[i - 1]);
                            } else {
                                assert(lies_in(tail[j - 1], more, next as int));
                            }
                        }
                    }
                }
            }
        }
    }
}

/// Whether boxes cover a stretch of a file end to end, each behind a header
/// of its own.
pub open spec fn tile(list: Seq<BoxSpan>, from: int, to: int) -> bool {
    &&& list.len() == 0 ==> from == to
    &&& list.len() > 0 ==> list[0].start == from && list.last().end == to
    &&& forall|i: int|
        0 <= i < list.len() ==> (#[trigger] list[i]).start + 8 <= list[i].body && list[i].body
            <= list[i].end
    &&& forall|i: int| 0 <= i < list.len() - 1 ==> (#[trigger] list[i]).end == list[i + 1].start
}

/// The top-level boxes of a file cover it from its first byte without a gap,
/// up to fewer bytes than a header takes.
pub proof fn law_top_level_covers_the_file(data: Seq<u8>, len: u64, limits: Limits)
    requires
        len <= data.len(),
    ensures
        top_level_spec(data, len, limits) matches Ok(list) ==> {
            &&& list.len() <= limits.max_top_level
            &&& exists|to: int| #[trigger] tile(list, 0, to) && to <= len < to + 8
        },
{
    lemma_boxes_tile(data, len, limits, 0, 0);
}

/// A box that was found begins where it was looked for, holds its own
/// header, and ends inside its parent.
pub proof fn lemma_header_in(data: Seq<u8>, len: u64, max_read: usize, at: u64, limit: u64)
    ensures
        match header_in(data, len, max_read, at, limit) {
            Ok(Some(span)) => {
                &&& span.start == at
                &&& at + 8 <= span.body
                &&& span.body <= span.end
                &&& span.end <= limit
            },
            Ok(None) => limit < at + 8,
            Err(_) => true,
        },
{
}

/// Whether a walk came to boxes that cover a file of `len` bytes from `at`
/// on, up to fewer bytes than a header takes, and to no more than `max`.
spec fn covers(list: Seq<BoxSpan>, at: int, len: u64, max: int) -> bool {
    &&& list.len() <= max
    &&& exists|to: int| #[trigger] tile(list, at, to) && to <= len < to + 8
}

proof fn lemma_covers_more(span: BoxSpan, tail: Seq<BoxSpan>, len: u64, max: int)
    requires
        covers(tail, span.end as int, len, max - 1),
        span.start + 8 <= span.body,
        span.body <= span.end,
    ensures
        covers(seq![span] + tail, span.start as int, len, max),
{
    let to = choose|to: int| #[trigger] tile(tail, span.end as int, to) && to <= len < to + 8;
    lemma_tile_first(span, tail, to);
}

proof fn lemma_covers_nothing(at: int, len: u64, max: int)
    requires
        at <= len < at + 8,
        0 <= max,
    ensures
        covers(Seq::empty(), at, len, max),
{
    assert(tile(Seq::<BoxSpan>::empty(), at, at));
}

#[verifier::rlimit(40)]
proof fn lemma_boxes_tile(data: Seq<u8>, len: u64, limits: Limits, at: u64, count: nat)
    requires
        len <= data.len(),
        at <= len,
        count <= limits.max_top_level,
    ensures
        boxes_from(data, len, limits, at, count) matches Ok(list) ==> covers(
            list,
            at as int,
            len,
            limits.max_top_level - count,
        ),
    decreases len - at,
{
    let found = header_in(data, len, limits.max_read, at, len);
    lemma_header_in(data, len, limits.max_read, at, len);
    if let Ok(Some(span)) = found {
        if count + 1 <= limits.max_top_level {
            lemma_boxes_tile(data, len, limits, span.end, count + 1);
            if let Ok(tail) = boxes_from(data, len, limits, span.end, count + 1) {
                lemma_covers_more(span, tail, len, limits.max_top_level - count);
            }
        }
    } else if let Ok(None) = found {
        lemma_covers_nothing(at as int, len, limits.max_top_level - count);
    }
}

/// A box in front of boxes that cover a stretch covers more of it with them.
proof fn lemma_tile_first(span: BoxSpan, tail: Seq<BoxSpan>, to: int)
    requires
        tile(tail, span.end as int, to),
        span.start + 8 <= span.body,
        span.body <= span.end,
    ensures
        tile(seq![span] + tail, span.start as int, to),
{
    let list = seq![span] + tail;
    assert forall|i: int| 0 <= i < list.len() - 1 implies (#[trigger] list[i]).end == list[i
        + 1].start by {
        if i > 0 {
            assert(list[i] == tail[i - 1]);
            assert(list[i + 1] == tail[i]);
        }
    }
    assert forall|i: int| 0 <= i < list.len() implies (#[trigger] list[i]).start + 8
        <= list[i].body && list[i].body <= list[i].end by {
        if i > 0 {
            assert(list[i] == tail[i - 1]);
        }
    }
}

/// Whether a file is boxes to its last byte, each of which says how long it
/// is.
pub open spec fn whole_boxes(data: Seq<u8>, limits: Limits) -> bool {
    &&& data.len() <= u64::MAX
    &&& top_level_spec(data, data.len() as u64, limits) matches Ok(top)
    &&& ends_at(top, 0, data.len() as int)
    &&& all_sized(data, top)
}

/// Whether boxes that begin at `from` end at `to`.
pub open spec fn ends_at(top: Seq<BoxSpan>, from: int, to: int) -> bool {
    if top.len() == 0 {
        from == to
    } else {
        top.last().end == to
    }
}

/// Whether each of some boxes of a file says how long it is.
pub open spec fn all_sized(data: Seq<u8>, top: Seq<BoxSpan>) -> bool {
    forall|i: int| 0 <= i < top.len() ==> be32(data, (#[trigger] top[i]).start as int) != 0
}

/// A box of a file that says how long it is, is the same box when more
/// follows.
proof fn lemma_header_grows(front: Seq<u8>, more: Seq<u8>, max_read: usize, at: u64)
    requires
        (front + more).len() <= u64::MAX,
        16 <= max_read,
        at <= front.len(),
        be32(front, at as int) != 0,
    ensures
        header_in(front, front.len() as u64, max_read, at, front.len() as u64) matches Ok(
            Some(span),
        ) ==> header_in(
            front + more,
            (front + more).len() as u64,
            max_read,
            at,
            (front + more).len() as u64,
        ) == Ok::<_, Error>(Some(span)),
{
    let all = front + more;
    let len = front.len() as u64;
    let total = all.len() as u64;
    if let Ok(Some(span)) = header_in(front, len, max_read, at, len) {
        let want = if len - at < 16 {
            (len - at) as int
        } else {
            16
        };
        let wide = if total - at < 16 {
            (total - at) as int
        } else {
            16
        };
        let head = front.subrange(at as int, at + want);
        let more_head = all.subrange(at as int, at + wide);
        assert(more_head =~= head + more_head.skip(want));
        law_header_needs_no_more(head, more_head.skip(want), at);
        lemma_same32(head, 0, front, at as int);
    }
}

/// The boxes of a file stay where they were when more is written behind
/// them, and what is behind them is walked from where they end.
#[verifier::rlimit(40)]
proof fn lemma_boxes_grow(front: Seq<u8>, more: Seq<u8>, limits: Limits, at: u64, count: nat)
    requires
        (front + more).len() <= u64::MAX,
        16 <= limits.max_read,
        at <= front.len(),
    ensures
        ({
            let len = front.len() as u64;
            let total = (front + more).len() as u64;
            boxes_from(front, len, limits, at, count) matches Ok(list) ==> (ends_at(
                list,
                at as int,
                len as int,
            ) && all_sized(front, list) ==> boxes_from(front + more, total, limits, at, count)
                == joined(
                list,
                boxes_from(front + more, total, limits, len, count + list.len()),
            ))
        }),
    decreases front.len() - at,
{
    let len = front.len() as u64;
    let total = (front + more).len() as u64;
    if let Ok(list) = boxes_from(front, len, limits, at, count) {
        if ends_at(list, at as int, len as int) && all_sized(front, list) {
            if list.len() == 0 {
                let rest = boxes_from(front + more, total, limits, len, count);
                if let Ok(tail) = rest {
                    assert(list + tail =~= tail);
                }
            } else {
                let span = list[0];
                let tail = list.drop_first();
                lemma_header_in(front, len, limits.max_read, at, len);
                match header_in(front, len, limits.max_read, at, len) {
                    Ok(Some(first)) => {
                        let after = boxes_from(front, len, limits, first.end, count + 1);
                        assert(after is Ok);
                        assert(list == seq![first] + after->Ok_0);
                        assert(list[0] == first);
                        assert(tail =~= after->Ok_0);
                    },
                    _ => {},
                }
                lemma_header_grows(front, more, limits.max_read, at);
                assert(all_sized(front, tail)) by {
                    assert forall|i: int| 0 <= i < tail.len() implies be32(
                        front,
                        (#[trigger] tail[i]).start as int,
                    ) != 0 by {
                        assert(tail[i] == list[i + 1]);
                    }
                }
                if tail.len() > 0 {
                    assert(tail.last() == list.last());
                }
                lemma_boxes_grow(front, more, limits, span.end, count + 1);
                let rest = boxes_from(front + more, total, limits, len, count + list.len());
                if let Ok(behind) = rest {
                    assert(seq![span] + (tail + behind) =~= list + behind);
                }
            }
        }
    }
}

/// Writing behind a file that is boxes to its last byte moves none of them.
pub proof fn law_boxes_stay_where_they_are(front: Seq<u8>, more: Seq<u8>, limits: Limits)
    requires
        whole_boxes(front, limits),
        (front + more).len() <= u64::MAX,
        16 <= limits.max_read,
    ensures
        ({
            let total = (front + more).len() as u64;
            let top = top_level_spec(front, front.len() as u64, limits)->Ok_0;
            top_level_spec(front + more, total, limits) == joined(
                top,
                boxes_from(front + more, total, limits, front.len() as u64, top.len()),
            )
        }),
{
    lemma_boxes_grow(front, more, limits, 0, 0);
}

/// A box of a file that says how long it is, is the same box when the file
/// is cut somewhere behind it.
proof fn lemma_header_shrinks(data: Seq<u8>, cut: u64, max_read: usize, at: u64)
    requires
        data.len() <= u64::MAX,
        cut <= data.len(),
        be32(data, at as int) != 0,
    ensures
        header_in(data, data.len() as u64, max_read, at, data.len() as u64) matches Ok(
            Some(span),
        ) ==> (span.end <= cut ==> header_in(data.take(cut as int), cut, max_read, at, cut)
            == Ok::<_, Error>(Some(span))),
{
    let len = data.len() as u64;
    let front = data.take(cut as int);
    lemma_header_in(data, len, max_read, at, len);
    if let Ok(Some(span)) = header_in(data, len, max_read, at, len) {
        if span.end <= cut {
            let want = if len - at < 16 {
                (len - at) as int
            } else {
                16
            };
            let less = if cut - at < 16 {
                (cut - at) as int
            } else {
                16
            };
            let head = data.subrange(at as int, at + want);
            let short = front.subrange(at as int, at + less);
            assert(head =~= short + head.skip(less));
            lemma_same32(head, 0, data, at as int);
            lemma_same32(short, 0, data, at as int);
            law_header_needs_no_more(short, head.skip(less), at);
        }
    }
}

/// A file without its last box is the boxes before it.
#[verifier::rlimit(40)]
proof fn lemma_boxes_shrink(data: Seq<u8>, limits: Limits, at: u64, count: nat)
    requires
        data.len() <= u64::MAX,
        at <= data.len(),
    ensures
        boxes_from(data, data.len() as u64, limits, at, count) matches Ok(list) ==> (list.len() > 0
            && all_sized(data, list) ==> {
            let cut = list.last().start;
            &&& at <= cut <= data.len()
            &&& boxes_from(data.take(cut as int), cut, limits, at, count) == Ok::<_, Error>(
                list.drop_last(),
            )
        }),
    decreases data.len() - at,
{
    let len = data.len() as u64;
    if let Ok(list) = boxes_from(data, len, limits, at, count) {
        if list.len() > 0 && all_sized(data, list) {
            let cut = list.last().start;
            lemma_header_in(data, len, limits.max_read, at, len);
            match header_in(data, len, limits.max_read, at, len) {
                Ok(Some(first)) => {
                    let after = boxes_from(data, len, limits, first.end, count + 1);
                    assert(list == seq![first] + after->Ok_0);
                    assert(list[0] == first);
                    let tail = after->Ok_0;
                    if tail.len() == 0 {
                        assert(list.drop_last() =~= Seq::empty());
                    } else {
                        assert(all_sized(data, tail)) by {
                            assert forall|i: int| 0 <= i < tail.len() implies be32(
                                data,
                                (#[trigger] tail[i]).start as int,
                            ) != 0 by {
                                assert(tail[i] == list[i + 1]);
                            }
                        }
                        assert(tail.last() == list.last());
                        lemma_boxes_shrink(data, limits, first.end, count + 1);
                        lemma_header_shrinks(data, cut, limits.max_read, at);
                        assert(list.drop_last() =~= seq![first] + tail.drop_last());
                    }
                },
                _ => {},
            }
        }
    }
}

/// A file that is boxes to its last byte still is one without its last box.
pub proof fn law_without_the_last_box(data: Seq<u8>, limits: Limits)
    requires
        whole_boxes(data, limits),
        data.len() > 0,
    ensures
        ({
            let top = top_level_spec(data, data.len() as u64, limits)->Ok_0;
            let front = data.take(top.last().start as int);
            &&& top.len() > 0
            &&& top.last().start <= data.len()
            &&& top_level_spec(front, front.len() as u64, limits) == Ok::<_, Error>(
                top.drop_last(),
            )
            &&& whole_boxes(front, limits)
        }),
{
    let len = data.len() as u64;
    let top = top_level_spec(data, len, limits)->Ok_0;
    lemma_boxes_shrink(data, limits, 0, 0);
    let cut = top.last().start;
    let front = data.take(cut as int);
    law_top_level_covers_the_file(data, len, limits);
    let to = choose|to: int| #[trigger] tile(top, 0, to) && to <= len < to + 8;
    let less = top.drop_last();
    assert forall|i: int| 0 <= i < less.len() implies be32(
        front,
        (#[trigger] less[i]).start as int,
    ) != 0 by {
        assert(less[i] == top[i]);
        assert(be32(data, top[i].start as int) != 0);
        lemma_tile_order(top, 0, to, i, top.len() - 1);
        lemma_same32(front, top[i].start as int, data, top[i].start as int);
    }
    if less.len() > 0 {
        assert(top[less.len() - 1].end == top[less.len() as int].start);
    }
}

/// Of boxes that cover a stretch, an earlier one ends before a later one
/// begins.
pub proof fn lemma_tile_order(list: Seq<BoxSpan>, from: int, to: int, i: int, j: int)
    requires
        tile(list, from, to),
        0 <= i < j < list.len(),
    ensures
        list[i].start + 8 <= list[i].end,
        list[i].end <= list[j].start,
    decreases j - i,
{
    assert(list[i].end == list[i + 1].start);
    if i + 1 < j {
        lemma_tile_order(list, from, to, i + 1, j);
    }
}

/// A box that says how long it is, is the same box at another place in
/// another file, as long as what follows it is the same to the end.
proof fn lemma_header_shifts(one: Seq<u8>, other: Seq<u8>, max_read: usize, at: u64, to: u64)
    requires
        one.len() <= u64::MAX,
        other.len() <= u64::MAX,
        at <= one.len(),
        to <= other.len(),
        one.skip(at as int) == other.skip(to as int),
        be32(one, at as int) != 0,
    ensures
        header_in(one, one.len() as u64, max_read, at, one.len() as u64) matches Ok(Some(span))
            ==> header_in(other, other.len() as u64, max_read, to, other.len() as u64) == Ok::<
            _,
            Error,
        >(
            Some(
                BoxSpan {
                    kind: span.kind,
                    start: to,
                    body: (span.body - at + to) as u64,
                    end: (span.end - at + to) as u64,
                },
            ),
        ),
{
    let len = one.len() as u64;
    let total = other.len() as u64;
    let back = one.skip(at as int);
    assert(back.len() == len - at && back.len() == total - to);
    if let Ok(Some(span)) = header_in(one, len, max_read, at, len) {
        let want = if len - at < 16 {
            (len - at) as int
        } else {
            16
        };
        let head = one.subrange(at as int, at + want);
        let moved = other.subrange(to as int, to + want);
        assert(head =~= back.take(want));
        assert(moved =~= back.take(want));
        lemma_same32(head, 0, one, at as int);
    }
}

/// The last box of a file, moved to the end of another, is the one box there
/// is from there on.
pub proof fn law_a_moved_last_box_is_found(
    data: Seq<u8>,
    other: Seq<u8>,
    limits: Limits,
    to: u64,
    count: nat,
)
    requires
        whole_boxes(data, limits),
        data.len() > 0,
        other.len() <= u64::MAX,
        to <= other.len(),
        count < limits.max_top_level,
        ({
            let top = top_level_spec(data, data.len() as u64, limits)->Ok_0;
            data.skip(top.last().start as int) == other.skip(to as int)
        }),
    ensures
        ({
            let top = top_level_spec(data, data.len() as u64, limits)->Ok_0;
            boxes_from(other, other.len() as u64, limits, to, count) matches Ok(list) && list.len()
                == 1 && list[0].kind == top.last().kind
        }),
{
    let len = data.len() as u64;
    let top = top_level_spec(data, len, limits)->Ok_0;
    lemma_span_header(data, len, limits, 0, 0, top.len() - 1);
    let at = top.last().start;
    assert(be32(data, top[top.len() - 1].start as int) != 0);
    lemma_header_in(data, len, limits.max_read, at, len);
    lemma_header_shifts(data, other, limits.max_read, at, to);
    let total = other.len() as u64;
    assert(data.skip(at as int).len() == len - at);
    let after = boxes_from(other, total, limits, total, count + 1);
    assert(after == Ok::<_, Error>(Seq::<BoxSpan>::empty()));
}

/// Every box of a walk is the box that is found where it begins.
pub proof fn lemma_span_header(data: Seq<u8>, len: u64, limits: Limits, at: u64, count: nat, i: int)
    requires
        at <= len,
    ensures
        boxes_from(data, len, limits, at, count) matches Ok(list) ==> (0 <= i < list.len()
            ==> list[i].start <= len && header_in(
            data,
            len,
            limits.max_read,
            list[i].start,
            len,
        ) == Ok::<_, Error>(Some(list[i]))),
    decreases len - at,
{
    if let Ok(list) = boxes_from(data, len, limits, at, count) {
        if 0 <= i < list.len() {
            lemma_header_in(data, len, limits.max_read, at, len);
            match header_in(data, len, limits.max_read, at, len) {
                Ok(Some(first)) => {
                    let after = boxes_from(data, len, limits, first.end, count + 1);
                    assert(list == seq![first] + after->Ok_0);
                    if i > 0 {
                        lemma_span_header(data, len, limits, first.end, count + 1, i - 1);
                        assert(list[i] == after->Ok_0[i - 1]);
                    } else {
                        assert(list[0] == first);
                    }
                },
                _ => {},
            }
        }
    }
}

/// A box that was built, found behind whatever is in front of it.
pub proof fn law_built_box_is_found(
    front: Seq<u8>,
    kind: [u8; 4],
    payload: Seq<u8>,
    more: Seq<u8>,
    limits: Limits,
    count: nat,
)
    requires
        fits(payload),
        (front + boxed_spec(kind, payload) + more).len() <= u64::MAX,
        16 <= limits.max_read,
        count < limits.max_top_level,
    ensures
        ({
            let all = front + boxed_spec(kind, payload) + more;
            let at = front.len() as u64;
            let span = BoxSpan {
                kind,
                start: at,
                body: (at + 8) as u64,
                end: (at + 8 + payload.len()) as u64,
            };
            boxes_from(all, all.len() as u64, limits, at, count) == joined(
                seq![span],
                boxes_from(all, all.len() as u64, limits, span.end, count + 1),
            )
        }),
{
    let built = boxed_spec(kind, payload);
    let all = front + built + more;
    let at = front.len() as u64;
    let total = all.len() as u64;
    lemma_boxed_len(kind, payload);
    let want = if total - at < 16 {
        (total - at) as int
    } else {
        16
    };
    let head = all.subrange(at as int, at + want);
    let rest = built + more;
    assert(rest =~= head + rest.skip(want));
    law_built_header_reads_back(kind, payload, more, at);
    lemma_same32(head, 0, rest, 0);
    lemma_enc32((8 + payload.len()) as u32);
    lemma_enc32_len((8 + payload.len()) as u32);
    lemma_same32(rest, 0, enc32((8 + payload.len()) as u32), 0);
    assert(kind_at(head, 4) == kind_at(rest, 4));
    assert(parse_header_spec(head, at) == parse_header_spec(rest, at));
}

/// A `FullBox` opens with the version and the flags it was built with, and
/// its payload follows.
pub proof fn law_full_box_reads_back(version: u8, flags: u32, payload: Seq<u8>)
    ensures
        full_body(version, flags, payload).len() == 4 + payload.len(),
        full_body(version, flags, payload)[0] == version,
        be24(full_body(version, flags, payload), 1) == flags % 0x100_0000,
        full_body(version, flags, payload).skip(4) == payload,
{
    broadcast use group_enc_len;

    let body = full_body(version, flags, payload);
    lemma_enc24(flags);
    lemma_same24(body, 1, enc24(flags), 0);
    assert(body.skip(4) =~= payload);
}

} // verus!
