//! Finding, appending and replacing a top-level box, in place.
//!
//! §4.2 lets anyone put anything in an ISO base media file: a box of a type
//! a player does not know is skipped, and a `uuid` box with an extended type
//! nobody else has registered cannot collide with anything. Putting such a
//! box at the end of a file moves nothing else, so writing one costs one
//! append whatever the file's size, and the `moov` and `mdat` offsets every
//! sample table holds stay true.
//!
//! What goes in the box is the caller's business. This module takes a
//! [`Selector`] and a payload and knows nothing about either.
//!
//! Two files need a word more.
//!
//! **A file that already has one.** When the box is the last thing in the
//! file it is cut off and written again, which is the same append. When it
//! is not, the file has to be copied without it, and [`install`] refuses to
//! do that unless [`rewrite`] is asked for, because a copy is not what "in
//! place" promised.
//!
//! **A fragmented file.** The box goes before an `mfra` (§8.8.9), and the
//! reason is `mfro` (§8.8.11): it is a copy of `mfra`'s own size, placed
//! last so that the last four bytes of the file find it. Appending past the
//! `mfra` leaves those four bytes pointing at something else, and a reader
//! that uses them loses its random access; ffmpeg does not, because it
//! builds the fragment index by walking the file, but a reader that does is
//! not wrong to. So the box goes in front of the `mfra` and the `mfra` is
//! written again after it. That costs the `mfra`'s own length, which is
//! sixteen bytes a fragment, and moves nothing that anything points at: the
//! offsets inside `tfra` (§8.8.10) name the `moof` boxes, and they are all
//! before the `mfra` already.

use vstd::prelude::*;
use vstd::slice::slice_subrange;

use crate::be::{
    be32, be64, get32, get64, get_kind, kind_at, lemma_same32, lemma_same64,
};
use crate::boxes::{
    boxed, boxed_spec, boxes_from, fits, header_in, law_a_moved_last_box_is_found,
    law_boxes_stay_where_they_are, law_built_box_is_found, law_top_level_covers_the_file,
    law_without_the_last_box, lemma_boxed_len, lemma_span_header, lemma_tile_order, tile, top_level,
    top_level_spec, uuid_boxed, whole_boxes, BoxSpan,
};
use crate::codes::{same, MFRA, UUID};
use crate::error::{Error, Result};
use crate::limits::Limits;
use crate::source::{
    cheap, overwritten, read_at_spec, span_spec, Cursor, Input, IoResult, Medium, Output, Source,
};

verus! {

/// Which top-level box a call is about.
#[derive(Clone, Copy, Debug, PartialEq, Eq)]
pub enum Selector {
    /// A box by its four characters.
    Kind([u8; 4]),
    /// A `uuid` box by its 16-byte extended type (§4.2).
    Uuid([u8; 16]),
}

impl Selector {
    pub open spec fn kind_spec(&self) -> [u8; 4] {
        match *self {
            Selector::Kind(kind) => kind,
            Selector::Uuid(_) => UUID,
        }
    }

    pub open spec fn prefix_spec(&self) -> u64 {
        match *self {
            Selector::Kind(_) => 0,
            Selector::Uuid(_) => 16,
        }
    }

    /// What the box holds in front of the payload.
    pub open spec fn lead(self) -> Seq<u8> {
        match self {
            Selector::Kind(_) => Seq::empty(),
            Selector::Uuid(uuid) => uuid@,
        }
    }

    pub open spec fn boxed_spec(self, payload: Seq<u8>) -> Seq<u8> {
        boxed_spec(self.kind_spec(), self.lead() + payload)
    }

    pub open spec fn claims_spec(self, head: Seq<u8>) -> bool {
        match self {
            Selector::Kind(_) => true,
            Selector::Uuid(uuid) => head.len() >= 16 && head.take(16) == uuid@,
        }
    }

    /// The four characters the box's own header carries.
    #[verifier::when_used_as_spec(kind_spec)]
    pub fn kind(&self) -> (kind: [u8; 4])
        ensures
            kind == self.kind_spec(),
    {
        match self {
            Selector::Kind(kind) => *kind,
            Selector::Uuid(_) => UUID,
        }
    }

    /// How many bytes of the body belong to the type rather than to the
    /// payload: 16 for a `uuid` box, none otherwise.
    #[verifier::when_used_as_spec(prefix_spec)]
    pub fn prefix(&self) -> (prefix: u64)
        ensures
            prefix == self.prefix_spec(),
    {
        match self {
            Selector::Kind(_) => 0,
            Selector::Uuid(_) => 16,
        }
    }

    /// A box of this selector around a payload.
    pub fn boxed(&self, payload: &[u8]) -> (out: Vec<u8>)
        requires
            8 + self.prefix() + payload.len() <= usize::MAX,
        ensures
            out@ == self.boxed_spec(payload@),
    {
        match self {
            Selector::Kind(kind) => {
                assert(Seq::<u8>::empty() + payload@ =~= payload@);
                boxed(kind, payload)
            },
            Selector::Uuid(uuid) => uuid_boxed(uuid, payload),
        }
    }

    /// Whether a body that begins with these bytes is this selector's.
    pub fn claims(&self, head: &[u8]) -> (claims: bool)
        ensures
            claims == self.claims_spec(head@),
    {
        match self {
            Selector::Kind(_) => true,
            Selector::Uuid(uuid) => {
                if head.len() < 16 {
                    return false;
                }
                let mut index: usize = 0;
                while index < 16
                    invariant
                        index <= 16,
                        *self == Selector::Uuid(*uuid),
                        head@.len() >= 16,
                        forall|i: int| 0 <= i < index ==> #[trigger] head@[i] == uuid@[i],
                    decreases 16 - index,
                {
                    if head[index] != uuid[index] {
                        assert(head@.take(16)[index as int] != uuid@[index as int]);
                        return false;
                    }
                    index = index + 1;
                }
                assert(head@.take(16) =~= uuid@);
                true
            },
        }
    }
}

/// A box of the selector's already in a file.
#[derive(Clone, Copy, Debug, PartialEq, Eq, Structural)]
pub struct Found {
    /// Where the box begins.
    pub start: u64,
    /// Where the payload inside it begins, past the header and, for a `uuid`
    /// box, past the extended type.
    pub body: u64,
    /// Where the box ends.
    pub end: u64,
    /// Whether it is the last top-level box of the file.
    pub last: bool,
}

/// How far back from the end of a file the tail guess looks for the header
/// of a box that ends there.
pub const TAIL_WINDOW: usize = 4096;

/// How long the header at `at` is, and how long it says its box is.
pub open spec fn sized_at(window: Seq<u8>, at: int) -> Option<(u64, u64)> {
    if be32(window, at) == 1 {
        if at + 16 > window.len() {
            None
        } else {
            Some((16, be64(window, at + 8)))
        }
    } else {
        Some((8, be32(window, at) as u64))
    }
}

/// Whether the last bytes of a file of `len` bytes hold, at `at`, a header
/// of the selector's whose box ends where the file does.
pub open spec fn hit(window: Seq<u8>, at: int, len: u64, selector: Selector) -> bool {
    &&& kind_at(window, at + 4) == selector.kind()
    &&& sized_at(window, at) matches Some((head, size))
    &&& size >= head + selector.prefix()
    &&& at + size == window.len()
    &&& selector.claims_spec(
        if at + head <= window.len() {
            window.skip(at + head)
        } else {
            Seq::empty()
        },
    )
}

/// The earliest such header from `at` on.
pub open spec fn hit_from(window: Seq<u8>, at: nat, len: u64, selector: Selector) -> Option<Found>
    decreases window.len() - at,
{
    if at + 8 + selector.prefix() > window.len() {
        None
    } else if hit(window, at as int, len, selector) {
        let start = (len - window.len() + at) as u64;
        Some(
            Found {
                start,
                body: (start + sized_at(window, at as int).unwrap().0 + selector.prefix()) as u64,
                end: len,
                last: true,
            },
        )
    } else {
        hit_from(window, at + 1, len, selector)
    }
}

/// The last bytes of a file of `len` bytes, as many as the tail guess looks
/// at.
pub open spec fn tail_window(data: Seq<u8>, len: u64, limits: Limits) -> Result<Seq<u8>> {
    read_at_spec(
        data,
        len,
        limits.max_read,
        if len < TAIL_WINDOW {
            0
        } else {
            (len - TAIL_WINDOW) as u64
        },
        TAIL_WINDOW,
    )
}

/// What the tail guess comes to.
pub open spec fn at_tail_spec(
    data: Seq<u8>,
    len: u64,
    limits: Limits,
    selector: Selector,
) -> Result<Option<Found>> {
    if len < 8 + selector.prefix() {
        Ok(None)
    } else {
        match tail_window(data, len, limits) {
            Err(err) => Err(err),
            Ok(window) => Ok(hit_from(window, 0, len, selector)),
        }
    }
}

/// The first of the top-level boxes from the index `i` on that is the
/// selector's.
pub open spec fn walked(
    data: Seq<u8>,
    len: u64,
    limits: Limits,
    top: Seq<BoxSpan>,
    i: nat,
    selector: Selector,
) -> Result<Option<Found>>
    decreases top.len() - i,
{
    if i >= top.len() {
        Ok(None)
    } else {
        let span = top[i as int];
        if span.kind != selector.kind() || span.body_len_spec() < selector.prefix() {
            walked(data, len, limits, top, i + 1, selector)
        } else {
            match read_at_spec(data, len, limits.max_read, span.body, selector.prefix() as usize) {
                Err(err) => Err(err),
                Ok(head) => if selector.claims_spec(head) {
                    Ok(
                        Some(
                            Found {
                                start: span.start,
                                body: (span.body + selector.prefix()) as u64,
                                end: span.end,
                                last: i + 1 == top.len(),
                            },
                        ),
                    )
                } else {
                    walked(data, len, limits, top, i + 1, selector)
                },
            }
        }
    }
}

/// Whether a box of a list is where a box was found.
pub open spec fn is_one_of(found: Found, top: Seq<BoxSpan>) -> bool {
    exists|i: int|
        0 <= i < top.len() && (#[trigger] top[i]).start == found.start && top[i].end == found.end
}

/// The selector's box of a file of `len` bytes: the one the tail guess comes
/// to, where it is a top-level box, and else the first the walk does. A file
/// that cannot be walked keeps the guess.
pub open spec fn find_spec(data: Seq<u8>, len: u64, limits: Limits, selector: Selector) -> Result<
    Option<Found>,
> {
    match at_tail_spec(data, len, limits, selector) {
        Err(err) => Err(err),
        Ok(guess) => match top_level_spec(data, len, limits) {
            Err(err) => if guess is Some {
                Ok(guess)
            } else {
                Err(err)
            },
            Ok(top) => if guess is Some && is_one_of(guess.unwrap(), top) {
                Ok(guess)
            } else {
                walked(data, len, limits, top, 0, selector)
            },
        },
    }
}

/// The tail guess: a box of the selector's whose end is the end of the file.
///
/// The box's size field is at its own start, which is not known, so this
/// reads one window at the end and takes the earliest header in it whose
/// size lands exactly on the end of the file and whose type is the one
/// wanted. The size has to hit the end of the file to the byte, and for a
/// `uuid` box the sixteen bytes after the header have to be the right ones.
/// Bytes inside another box can still look like that, so a guess is only
/// that until [`find`] has held it against the top-level boxes.
fn at_tail<R: Input>(src: &mut Source<R>, selector: Selector) -> (found: Result<Option<Found>>)
    requires
        old(src).wf(),
    ensures
        final(src).ended(old(src), found),
        found matches Err(Error::Io(_)) || found == at_tail_spec(
            old(src).data(),
            old(src).size(),
            old(src).bounds(),
            selector,
        ),
        found matches Ok(Some(found)) ==> found.start <= found.body <= found.end
            && found.end == old(src).size(),
        found is Ok ==> cheap(final(src).cost(), old(src).cost(), TAIL_WINDOW as int, 1),
        found is Ok ==> old(src).size() < 8 + selector.prefix() || old(src).size() <= old(
            src,
        ).data().len(),
{
    let len: u64 = src.len();
    let prefix: usize = selector.prefix() as usize;
    let least: usize = 8 + prefix;
    if len < least as u64 {
        return Ok(None);
    }
    let from: u64 = if len < TAIL_WINDOW as u64 {
        0
    } else {
        len - TAIL_WINDOW as u64
    };
    let window = src.read_at(from, TAIL_WINDOW)?;
    let ghost owed = hit_from(window@, 0, len, selector);
    let base: u64 = len - window.len() as u64;
    let kind = selector.kind();
    let mut at: usize = 0;
    while window.len() - at >= least
        invariant
            at <= window@.len(),
            window@.len() <= len,
            base == len - window@.len(),
            prefix == selector.prefix(),
            least == 8 + prefix,
            kind == selector.kind(),
            src.wf(),
            src.same_as(old(src)),
            cheap(src.cost(), old(src).cost(), TAIL_WINDOW as int, 1),
            old(src).size() <= old(src).data().len(),
            len == old(src).size(),
            at_tail_spec(old(src).data(), old(src).size(), old(src).bounds(), selector) == Ok::<
                _,
                Error,
            >(owed),
            hit_from(window@, at as nat, len, selector) == owed,
        decreases window@.len() - at,
    {
        let there: bool = same(&get_kind(window.as_slice(), at + 4), &kind);
        let short: u32 = get32(window.as_slice(), at);
        let sized: Option<(u64, u64)> = if short == 1 {
            if window.len() - at < 16 {
                None
            } else {
                Some((16, get64(window.as_slice(), at + 8)))
            }
        } else {
            Some((8, short as u64))
        };
        assert(sized == sized_at(window@, at as int));
        if there {
            if let Some((head, size)) = sized {
                if size >= head + prefix as u64 && size == (window.len() - at) as u64 {
                    let body = slice_subrange(
                        window.as_slice(),
                        at + head as usize,
                        window.len(),
                    );
                    assert(body@ =~= window@.skip(at + head));
                    if selector.claims(body) {
                        let start: u64 = base + at as u64;
                        return Ok(
                            Some(
                                Found {
                                    start,
                                    body: start + head + prefix as u64,
                                    end: len,
                                    last: true,
                                },
                            ),
                        );
                    }
                }
            }
        }
        at = at + 1;
    }
    Ok(None)
}

/// Whether a box of a list is where a box was found.
fn one_of(found: &Found, top: &[BoxSpan]) -> (is: bool)
    ensures
        is == is_one_of(*found, top@),
{
    let mut index: usize = 0;
    while index < top.len()
        invariant
            index <= top@.len(),
            forall|i: int|
                0 <= i < index ==> (#[trigger] top@[i]).start != found.start || top@[i].end
                    != found.end,
        decreases top@.len() - index,
    {
        if top[index].start == found.start && top[index].end == found.end {
            return true;
        }
        index = index + 1;
    }
    false
}

/// This selector's box, if the file has one.
///
/// The tail first, because the end of the file is where [`install`] puts it
/// and that is where it will be for every file this crate wrote. What is
/// there counts only if it is a top-level box; otherwise the first of the
/// top-level boxes that is the selector's does. A header is all that is read
/// of a box on the way.
pub fn find<R: Input>(src: &mut Source<R>, selector: Selector) -> (found: Result<Option<Found>>)
    requires
        old(src).wf(),
    ensures
        final(src).ended(old(src), found),
        found matches Err(Error::Io(_)) || found == find_spec(
            old(src).data(),
            old(src).size(),
            old(src).bounds(),
            selector,
        ),
        found matches Ok(Some(found)) ==> found.start <= found.body <= found.end && found.end
            <= old(src).size(),
        found matches Ok(Some(found)) ==> (top_level_spec(
            old(src).data(),
            old(src).size(),
            old(src).bounds(),
        ) matches Ok(top) ==> is_one_of(found, top)),
        found is Ok ==> old(src).size() < 8 + selector.prefix() || old(src).size() <= old(
            src,
        ).data().len(),
        found matches Ok(Some(_)) ==> old(src).size() <= old(src).data().len(),
        found is Ok ==> (top_level_spec(
            old(src).data(),
            old(src).size(),
            old(src).bounds(),
        ) matches Ok(top) ==> cheap(
            final(src).cost(),
            old(src).cost(),
            find_cost(old(src).data(), old(src).size(), old(src).bounds(), selector, top),
            2 * top.len() as int + 1,
        )),
{
    let guess = at_tail(src, selector)?;
    let top = match top_level(src) {
        Ok(top) => top,
        Err(Error::Io(err)) => return Err(Error::Io(err)),
        Err(err) => return match guess {
            Some(found) => Ok(Some(found)),
            None => Err(err),
        },
    };
    if let Some(found) = guess {
        if one_of(&found, top.as_slice()) {
            return Ok(Some(found));
        }
    }
    let prefix: u64 = selector.prefix();
    let mut index: usize = 0;
    while index < top.len()
        invariant
            index <= top@.len(),
            prefix == selector.prefix(),
            src.wf(),
            src.same_as(old(src)),
            cheap(
                src.cost(),
                old(src).cost(),
                TAIL_WINDOW + 16 * top@.len() as int + prefix * index,
                1 + top@.len() as int + index,
            ),
            top_level_spec(old(src).data(), old(src).size(), old(src).bounds()) == Ok::<_, Error>(
                top@,
            ),
            forall|i: int|
                0 <= i < top@.len() ==> (#[trigger] top@[i]).start + 8 <= top@[i].body
                    && top@[i].body <= top@[i].end && top@[i].end <= old(src).size(),
            old(src).size() < 8 + prefix || old(src).size() <= old(src).data().len(),
            !(at_tail_spec(
                old(src).data(),
                old(src).size(),
                old(src).bounds(),
                selector,
            ) matches Ok(Some(guess)) && is_one_of(guess, top@)),
            find_spec(old(src).data(), old(src).size(), old(src).bounds(), selector) == walked(
                old(src).data(),
                old(src).size(),
                old(src).bounds(),
                top@,
                index as nat,
                selector,
            ),
        decreases top@.len() - index,
    {
        let header: BoxSpan = top[index];
        assert(prefix * (index + 1) == prefix * index + prefix) by (nonlinear_arith);
        assert(prefix * (index + 1) <= 16 * top@.len()) by (nonlinear_arith)
            requires
                prefix <= 16,
                index + 1 <= top@.len(),
        ;
        if header.is(&selector.kind()) && header.body_len() >= prefix {
            let head = src.read_at(header.body, prefix as usize)?;
            if selector.claims(head.as_slice()) {
                let found = Found {
                    start: header.start,
                    body: header.body + prefix,
                    end: header.end,
                    last: index + 1 == top.len(),
                };
                assert(is_one_of(found, top@)) by {
                    assert(top@[index as int].start == found.start);
                }
                return Ok(Some(found));
            }
        }
        index = index + 1;
    }
    assert(prefix * index <= 16 * top@.len()) by (nonlinear_arith)
        requires
            prefix <= 16,
            index <= top@.len(),
    ;
    Ok(None)
}

/// What finding a box may pull out of a file that can be walked: the last
/// bytes, and a header a box; and where the tail guess comes to nothing, the
/// extended type of each `uuid` box too.
pub open spec fn find_cost(
    data: Seq<u8>,
    len: u64,
    limits: Limits,
    selector: Selector,
    top: Seq<BoxSpan>,
) -> int {
    if at_tail_spec(data, len, limits, selector) matches Ok(Some(guess)) && is_one_of(guess, top) {
        TAIL_WINDOW + 16 * top.len()
    } else {
        TAIL_WINDOW + 32 * top.len()
    }
}

/// The payload of the selector's box of a file of `len` bytes.
pub open spec fn read_spec(data: Seq<u8>, len: u64, limits: Limits, selector: Selector) -> Result<
    Option<Seq<u8>>,
> {
    match find_spec(data, len, limits, selector) {
        Err(err) => Err(err),
        Ok(None) => Ok(None),
        Ok(Some(found)) => match span_spec(
            data,
            len,
            limits.max_read,
            found.body,
            (found.end - found.body) as u64,
        ) {
            Err(err) => Err(err),
            Ok(payload) => Ok(Some(payload)),
        },
    }
}

/// The payload of this selector's box, if the file carries one.
pub fn read<R: Input>(src: &mut Source<R>, selector: Selector) -> (payload: Result<Option<Vec<u8>>>)
    requires
        old(src).wf(),
    ensures
        final(src).ended(old(src), payload),
        ({
            let owed = read_spec(old(src).data(), old(src).size(), old(src).bounds(), selector);
            match payload {
                Err(Error::Io(_)) => true,
                Err(err) => owed == Err::<Option<Seq<u8>>, Error>(err),
                Ok(None) => owed == Ok::<Option<Seq<u8>>, Error>(None),
                Ok(Some(payload)) => owed == Ok::<_, Error>(Some(payload@)),
            }
        }),
        payload matches Ok(Some(bytes)) ==> (top_level_spec(
            old(src).data(),
            old(src).size(),
            old(src).bounds(),
        ) matches Ok(top) ==> cheap(
            final(src).cost(),
            old(src).cost(),
            find_cost(old(src).data(), old(src).size(), old(src).bounds(), selector, top)
                + bytes@.len(),
            2 * top.len() as int + 2,
        )),
{
    let found = match find(src, selector)? {
        Some(found) => found,
        None => return Ok(None),
    };
    let payload = src.span(found.body, found.end - found.body)?;
    Ok(Some(payload))
}

/// Where a new box goes, and what it costs to put it there.
#[derive(Clone, Copy, Debug, PartialEq, Eq, Structural)]
pub enum Spot {
    /// The end of the file. Nothing else moves.
    End(u64),
    /// Just before the file's `mfra`, which has to stay last; see this
    /// module's head.
    BeforeMfra(u64),
    /// Over the box already there, which is last so it can be cut off.
    Over(u64),
    /// A box of the selector's is in the file but not at the end, so the
    /// file has to be copied without it. The span is the box to leave out.
    Rewrite(u64, u64),
}

/// Where the box of the selector's belongs in a file of `len` bytes.
pub open spec fn spot_spec(data: Seq<u8>, len: u64, limits: Limits, selector: Selector) -> Result<
    Spot,
> {
    match top_level_spec(data, len, limits) {
        Err(err) => Err(err),
        Ok(top) => match find_spec(data, len, limits, selector) {
            Err(err) => Err(err),
            Ok(Some(found)) => Ok(
                if found.last {
                    Spot::Over(found.start)
                } else {
                    Spot::Rewrite(found.start, found.end)
                },
            ),
            Ok(None) => Ok(
                if top.len() > 0 && top.last().kind == MFRA {
                    Spot::BeforeMfra(top.last().start)
                } else {
                    Spot::End(len)
                },
            ),
        },
    }
}

/// Whether a spot is inside a file of `len` bytes.
pub open spec fn spot_inside(spot: Spot, len: u64) -> bool {
    match spot {
        Spot::End(at) => at == len,
        Spot::BeforeMfra(at) => at <= len,
        Spot::Over(at) => at <= len,
        Spot::Rewrite(start, end) => start <= end && end <= len,
    }
}

/// What looking for the place of a box may pull out of a file: a walk over
/// its headers, and a search for the box.
pub open spec fn spot_cost(
    data: Seq<u8>,
    len: u64,
    limits: Limits,
    selector: Selector,
    top: Seq<BoxSpan>,
) -> int {
    16 * top.len() + find_cost(data, len, limits, selector, top)
}

/// Where this file's box of the selector belongs.
pub fn spot<R: Input>(src: &mut Source<R>, selector: Selector) -> (spot: Result<Spot>)
    requires
        old(src).wf(),
    ensures
        final(src).ended(old(src), spot),
        spot matches Err(Error::Io(_)) || spot == spot_spec(
            old(src).data(),
            old(src).size(),
            old(src).bounds(),
            selector,
        ),
        spot matches Ok(spot) ==> spot_inside(spot, old(src).size()),
        spot matches Ok(spot) ==> spot is End || spot is BeforeMfra || old(src).size() <= old(
            src,
        ).data().len(),
        spot is Ok ==> (top_level_spec(
            old(src).data(),
            old(src).size(),
            old(src).bounds(),
        ) matches Ok(top) && cheap(
            final(src).cost(),
            old(src).cost(),
            spot_cost(old(src).data(), old(src).size(), old(src).bounds(), selector, top),
            3 * top.len() as int + 1,
        )),
{
    let top = top_level(src)?;
    if let Some(found) = find(src, selector)? {
        return if found.last {
            Ok(Spot::Over(found.start))
        } else {
            Ok(Spot::Rewrite(found.start, found.end))
        };
    }
    if top.len() > 0 {
        let last: BoxSpan = top[top.len() - 1];
        if last.is(&MFRA) {
            return Ok(Spot::BeforeMfra(last.start));
        }
    }
    Ok(Spot::End(src.len()))
}

/// Cutting a file short, which neither reading nor writing can do.
pub trait Truncate: Medium {
    /// Drops every byte from `len` on. Nothing is promised of a `len` past
    /// the end.
    fn truncate_to(&mut self, len: u64) -> (done: IoResult<()>)
        ensures
            final(self).steady() == old(self).steady(),
            old(self).steady() && len <= old(self).data().len() ==> done is Ok,
            done is Ok && len <= old(self).data().len() ==> final(self).data() == old(
                self,
            ).data().take(len as int),
    ;
}

impl Truncate for Cursor {
    fn truncate_to(&mut self, len: u64) -> (done: IoResult<()>) {
        self.truncate(len);
        assert(old(self).data().take(old(self).data().len() as int) =~= old(self).data());
        Ok(())
    }
}

/// What writing the box did to the file.
#[derive(Clone, Copy, Debug, PartialEq, Eq, Structural)]
pub enum Placed {
    /// Appended, with nothing else touched.
    Appended { at: u64 },
    /// Appended over the box that was already last.
    Replaced { at: u64 },
    /// Put in front of the file's `mfra`, which was written again after it.
    BeforeMfra { at: u64, moved: u64 },
}

impl Placed {
    /// Where the box went.
    pub open spec fn place(self) -> u64 {
        match self {
            Placed::Appended { at } => at,
            Placed::Replaced { at } => at,
            Placed::BeforeMfra { at, .. } => at,
        }
    }

    /// How many bytes had to be read to be written again behind it.
    pub open spec fn moved_spec(self) -> u64 {
        match self {
            Placed::BeforeMfra { moved, .. } => moved,
            _ => 0,
        }
    }
}

/// The refusal of a box that is not the last.
pub open spec fn not_last(start: u64) -> Error {
    Error::unsupported(
        "the file already carries a box of this type, and it is not the last box, so it cannot be replaced without copying the file",
    ).at(start)
}

/// What writing the box does to a file: where it goes, and what the file is
/// then.
pub open spec fn installed(
    data: Seq<u8>,
    limits: Limits,
    selector: Selector,
    payload: Seq<u8>,
) -> Result<(Placed, Seq<u8>)> {
    let len = data.len() as u64;
    let built = selector.boxed_spec(payload);
    match spot_spec(data, len, limits, selector) {
        Err(err) => Err(err),
        Ok(Spot::End(at)) => Ok((Placed::Appended { at }, data + built)),
        Ok(Spot::Over(at)) => Ok((Placed::Replaced { at }, data.take(at as int) + built)),
        Ok(Spot::BeforeMfra(at)) => {
            let moved = (len - at) as u64;
            if moved > limits.max_read {
                Err(
                    Error::unsupported("an mfra larger than this writer will hold to move it").at(
                        at,
                    ),
                )
            } else {
                Ok(
                    (
                        Placed::BeforeMfra { at, moved },
                        data.take(at as int) + built + data.skip(at as int),
                    ),
                )
            }
        },
        Ok(Spot::Rewrite(start, _)) => Err(not_last(start)),
    }
}

/// What becomes of a file the bytes of which were cut at `at` and written
/// from there on.
fn write_at<T: Input + Output>(file: &mut T, at: u64, one: &[u8], two: &[u8]) -> (done: Result<()>)
    requires
        at == old(file).data().len(),
    ensures
        match done {
            Ok(_) => final(file).data() == old(file).data() + one@ + two@,
            Err(err) => err is Io && !old(file).steady(),
        },
        final(file).steady() == old(file).steady(),
{
    let ghost before = file.data();
    match file.seek_start(at) {
        Ok(()) => {},
        Err(err) => return Err(Error::Io(err)),
    }
    match file.write_all(one) {
        Ok(()) => {},
        Err(err) => return Err(Error::Io(err)),
    }
    assert(file.data() =~= before + one@);
    if two.len() > 0 {
        match file.write_all(two) {
            Ok(()) => {},
            Err(err) => return Err(Error::Io(err)),
        }
    }
    assert(file.data() =~= before + one@ + two@);
    match file.flush() {
        Ok(()) => Ok(()),
        Err(err) => Err(Error::Io(err)),
    }
}

/// Cuts a file at `at` and writes from there on.
fn replace_from<T: Input + Output + Truncate>(
    file: &mut T,
    at: u64,
    one: &[u8],
    two: &[u8],
) -> (done: Result<()>)
    requires
        at <= old(file).data().len(),
    ensures
        match done {
            Ok(_) => final(file).data() == old(file).data().take(at as int) + one@ + two@,
            Err(err) => err is Io && !old(file).steady(),
        },
        final(file).steady() == old(file).steady(),
{
    match file.truncate_to(at) {
        Ok(()) => {},
        Err(err) => return Err(Error::Io(err)),
    }
    write_at(file, at, one, two)
}

/// Writes the box into a file that is open for reading and writing.
///
/// The file is read through its [`Source`] first, so the cost of finding
/// where the box goes is counted like any other read. When the write is
/// refused the file is as it was.
pub fn install<T: Input + Output + Truncate>(
    src: &mut Source<T>,
    selector: Selector,
    payload: &[u8],
) -> (placed: Result<Placed>)
    requires
        old(src).whole(),
        8 + selector.prefix() + payload.len() <= usize::MAX,
        old(src).size() + 8 + selector.prefix() + payload.len() <= u64::MAX,
    ensures
        ({
            let owed = installed(old(src).data(), old(src).bounds(), selector, payload@);
            match placed {
                Ok(placed) => owed == Ok::<_, Error>((placed, final(src).data()))
                    && final(src).whole(),
                Err(Error::Io(_)) => !old(src).file().steady(),
                Err(err) => owed == Err::<(Placed, Seq<u8>), Error>(err) && final(src).same_as(
                    old(src),
                ),
            }
        }),
        final(src).wf(),
        final(src).bounds() == old(src).bounds(),
        final(src).file().steady() == old(src).file().steady(),
        placed matches Ok(placed) ==> (top_level_spec(
            old(src).data(),
            old(src).size(),
            old(src).bounds(),
        ) matches Ok(top) && cheap(
            final(src).cost(),
            old(src).cost(),
            spot_cost(old(src).data(), old(src).size(), old(src).bounds(), selector, top)
                + placed.moved_spec(),
            3 * top.len() as int + 2,
        )),
{
    let ceiling: u64 = src.limits().max_read as u64;
    let where_it_goes: Spot = spot(src, selector)?;
    let built = selector.boxed(payload);
    let none: Vec<u8> = Vec::new();
    let ghost data = src.data();
    let total: u64 = src.len();
    proof {
        lemma_boxed_len(selector.kind(), selector.lead() + payload@);
    }
    match where_it_goes {
        Spot::End(at) => {
            write_at(src.inner_mut(), at, built.as_slice(), none.as_slice())?;
            src.resized(at + built.len() as u64);
            assert(src.data() =~= data + built@);
            Ok(Placed::Appended { at })
        },
        Spot::Over(at) => {
            replace_from(src.inner_mut(), at, built.as_slice(), none.as_slice())?;
            src.resized(at + built.len() as u64);
            assert(src.data() =~= data.take(at as int) + built@);
            Ok(Placed::Replaced { at })
        },
        Spot::BeforeMfra(at) => {
            let moved: u64 = total - at;
            if moved > ceiling {
                return Err(
                    Error::unsupported("an mfra larger than this writer will hold to move it").at(
                        at,
                    ),
                );
            }
            let mfra = src.span(at, moved)?;
            assert(mfra@ =~= data.skip(at as int));
            replace_from(src.inner_mut(), at, built.as_slice(), mfra.as_slice())?;
            src.resized(total + built.len() as u64);
            Ok(Placed::BeforeMfra { at, moved })
        },
        Spot::Rewrite(start, _) => Err(
            Error::unsupported(
                "the file already carries a box of this type, and it is not the last box, so it cannot be replaced without copying the file",
            ).at(start),
        ),
    }
}

// ------------------------------------------------------------------ //
// Copying.
// ------------------------------------------------------------------ //
/// How much of a file is copied at a time.
pub const CHUNK: usize = 0x10_0000;

/// The bytes of a file from `from` to `to`, copied a chunk at a time: a
/// chunk past what the reader will hold is refused before any is copied.
pub open spec fn copied(data: Seq<u8>, max_read: usize, from: u64, to: u64) -> Result<Seq<u8>> {
    if from >= to {
        Ok(Seq::empty())
    } else if max_read < CHUNK && max_read < to - from {
        Err(Error::format("a value larger than this reader will hold").at(from))
    } else {
        Ok(data.subrange(from as int, to as int))
    }
}

/// What a copy without the box has, in front of the new one: how it ended,
/// and what was written.
pub open spec fn copied_around(
    data: Seq<u8>,
    len: u64,
    max_read: usize,
    start: u64,
    end: u64,
) -> (
    Result<()>,
    Seq<u8>,
) {
    match copied(data, max_read, 0, start) {
        Err(err) => (Err(err), Seq::empty()),
        Ok(front) => match copied(data, max_read, end, len) {
            Err(err) => (Err(err), front),
            Ok(back) => (Ok(()), front + back),
        },
    }
}

/// What a rewrite writes: how it ended, and the bytes.
pub open spec fn rewritten(
    data: Seq<u8>,
    len: u64,
    limits: Limits,
    selector: Selector,
    payload: Seq<u8>,
) -> (Result<()>, Seq<u8>) {
    match spot_spec(data, len, limits, selector) {
        Err(err) => (Err(err), Seq::empty()),
        Ok(spot) => {
            let (start, end) = match spot {
                Spot::Rewrite(start, end) => (start, end),
                Spot::Over(start) => (start, len),
                _ => (len, len),
            };
            match copied_around(data, len, limits.max_read, start, end) {
                (Err(err), bytes) => (Err(err), bytes),
                (Ok(_), bytes) => (Ok(()), bytes + selector.boxed_spec(payload)),
            }
        },
    }
}

/// Whether `bytes` were written from the head of a file on.
pub open spec fn wrote<W: Output>(after: &W, before: &W, bytes: Seq<u8>) -> bool {
    &&& after.data() == overwritten(before.data(), before.head(), bytes)
    &&& after.head() == before.head() + bytes.len()
    &&& after.head() <= after.data().len()
    &&& after.steady() == before.steady()
}

proof fn lemma_wrote_more(data: Seq<u8>, head: nat, one: Seq<u8>, two: Seq<u8>)
    requires
        head <= data.len(),
    ensures
        overwritten(overwritten(data, head, one), head + one.len(), two) == overwritten(
            data,
            head,
            one + two,
        ),
        head + one.len() <= overwritten(data, head, one).len(),
{
    assert(overwritten(overwritten(data, head, one), head + one.len(), two) =~= overwritten(
        data,
        head,
        one + two,
    ));
}

fn copy_span<R: Input, W: Output>(src: &mut Source<R>, out: &mut W, from: u64, to: u64) -> (done:
    Result<()>)
    requires
        old(src).wf(),
        to <= old(src).size(),
        old(out).head() <= old(out).data().len(),
    ensures
        final(src).same_as(old(src)),
        final(src).wf(),
        final(out).steady() == old(out).steady(),
        ({
            let owed = copied(old(src).data(), old(src).bounds().max_read, from, to);
            match done {
                Ok(_) => (owed matches Ok(bytes) && wrote(&*final(out), &*old(out), bytes)) && (from
                    >= to || to <= old(src).data().len()),
                Err(Error::Io(_)) => !(old(src).file().steady() && old(out).steady() && old(
                    src,
                ).size() <= old(src).data().len()),
                Err(err) => owed == Err::<Seq<u8>, Error>(err) && wrote(
                    &*final(out),
                    &*old(out),
                    Seq::empty(),
                ),
            }
        }),
        done is Ok ==> final(src).cost().bytes_read <= old(src).cost().bytes_read + if from < to {
            to - from
        } else {
            0
        },
{
    let ghost data = src.data();
    let ghost max_read = src.bounds().max_read;
    let mut at: u64 = from;
    let ghost mut bytes: Seq<u8> = Seq::empty();
    proof {
        assert(overwritten(out.data(), out.head(), bytes) =~= out.data());
    }
    while at < to
        invariant
            src.wf(),
            src.same_as(old(src)),
            data == old(src).data(),
            max_read == old(src).bounds().max_read,
            to <= old(src).size(),
            from < at ==> at <= data.len(),
            old(out).head() <= old(out).data().len(),
            from <= at,
            from < to ==> at <= to,
            from >= to ==> at == from,
            bytes == if from < at {
                data.subrange(from as int, at as int)
            } else {
                Seq::empty()
            },
            from < at ==> max_read >= CHUNK || max_read >= to - from,
            src.cost().bytes_read <= old(src).cost().bytes_read + (at - from),
            wrote(out, &*old(out), bytes),
        decreases to - at,
    {
        let left: u64 = to - at;
        let want: usize = if left < CHUNK as u64 {
            left as usize
        } else {
            CHUNK
        };
        let piece = src.read_at(at, want)?;
        let ghost before = bytes;
        match out.write_all(piece.as_slice()) {
            Ok(()) => {},
            Err(err) => return Err(Error::Io(err)),
        }
        proof {
            lemma_wrote_more(old(out).data(), old(out).head(), before, piece@);
            bytes = before + piece@;
            assert(bytes =~= data.subrange(from as int, at + piece@.len()));
        }
        at = at + piece.len() as u64;
    }
    Ok(())
}

/// Copies a file without the box it already has, then appends the new one. A
/// file that has shrunk since it was opened is never copied: that ends in an
/// I/O error.
pub fn rewrite<R: Input, W: Output>(
    src: &mut Source<R>,
    out: &mut W,
    selector: Selector,
    payload: &[u8],
) -> (done: Result<()>)
    requires
        old(src).wf(),
        old(out).head() <= old(out).data().len(),
        8 + selector.prefix() + payload.len() <= usize::MAX,
    ensures
        final(src).same_as(old(src)),
        final(src).wf(),
        ({
            let owed = rewritten(
                old(src).data(),
                old(src).size(),
                old(src).bounds(),
                selector,
                payload@,
            );
            match done {
                Ok(_) => owed.0 is Ok && wrote(&*final(out), &*old(out), owed.1) && old(
                    src,
                ).size() <= old(src).data().len(),
                Err(Error::Io(_)) => !(old(src).file().steady() && old(out).steady() && old(
                    src,
                ).size() <= old(src).data().len()),
                Err(err) => owed.0 == Err::<(), Error>(err) && wrote(
                    &*final(out),
                    &*old(out),
                    owed.1,
                ),
            }
        }),
        done is Ok ==> (top_level_spec(
            old(src).data(),
            old(src).size(),
            old(src).bounds(),
        ) matches Ok(top) && final(src).cost().bytes_read <= old(src).cost().bytes_read + spot_cost(
            old(src).data(),
            old(src).size(),
            old(src).bounds(),
            selector,
            top,
        ) + old(src).size()),
{
    let len: u64 = src.len();
    let ghost data = src.data();
    proof {
        assert(overwritten(out.data(), out.head(), Seq::empty()) =~= out.data());
    }
    let (start, end): (u64, u64) = match spot(src, selector)? {
        Spot::Rewrite(start, end) => (start, end),
        Spot::Over(start) => (start, len),
        _ => (len, len),
    };
    copy_span(src, out, 0, start)?;
    let ghost front = copied(data, src.bounds().max_read, 0, start)->Ok_0;
    proof {
        lemma_wrote_more(old(out).data(), old(out).head(), front, Seq::empty());
        assert(front + Seq::<u8>::empty() =~= front);
    }
    copy_span(src, out, end, len)?;
    let ghost back = copied(data, src.bounds().max_read, end, len)->Ok_0;
    proof {
        lemma_wrote_more(old(out).data(), old(out).head(), front, back);
    }
    let built = selector.boxed(payload);
    match out.write_all(built.as_slice()) {
        Ok(()) => {},
        Err(err) => return Err(Error::Io(err)),
    }
    proof {
        lemma_wrote_more(old(out).data(), old(out).head(), front + back, built@);
    }
    match out.flush() {
        Ok(()) => Ok(()),
        Err(err) => Err(Error::Io(err)),
    }
}

// ------------------------------------------------------------------ //
// What holds of the whole.
// ------------------------------------------------------------------ //
/// A spot is inside the file it was found for.
pub proof fn lemma_spot_inside(data: Seq<u8>, len: u64, limits: Limits, selector: Selector)
    requires
        len <= data.len(),
    ensures
        spot_spec(data, len, limits, selector) matches Ok(spot) ==> spot_inside(spot, len),
{
    if let Ok(top) = top_level_spec(data, len, limits) {
        law_top_level_covers_the_file(data, len, limits);
        let to = choose|to: int| #[trigger] tile(top, 0, to) && to <= len < to + 8;
        if let Ok(window) = tail_window(data, len, limits) {
            lemma_hit_inside(window, 0, len, selector);
        }
        lemma_walked_inside(data, len, limits, top, to, 0, selector);
        if top.len() > 0 {
            assert(top.last().start <= to);
        }
    }
}

pub proof fn lemma_hit_inside(window: Seq<u8>, at: nat, len: u64, selector: Selector)
    requires
        window.len() <= len,
    ensures
        hit_from(window, at, len, selector) matches Some(found) ==> found.start <= len
            && found.end == len && found.last,
    decreases window.len() - at,
{
    if at + 8 + selector.prefix() <= window.len() && !hit(window, at as int, len, selector) {
        lemma_hit_inside(window, at + 1, len, selector);
    }
}

proof fn lemma_walked_inside(
    data: Seq<u8>,
    len: u64,
    limits: Limits,
    top: Seq<BoxSpan>,
    to: int,
    i: nat,
    selector: Selector,
)
    requires
        tile(top, 0, to),
        to <= len,
    ensures
        walked(data, len, limits, top, i, selector) matches Ok(Some(found)) ==> found.start
            <= found.end <= len,
    decreases top.len() - i,
{
    if i < top.len() {
        lemma_walked_inside(data, len, limits, top, to, i + 1, selector);
        lemma_tile_end(top, to, i as int);
    }
}

proof fn lemma_tile_end(top: Seq<BoxSpan>, to: int, i: int)
    requires
        tile(top, 0, to),
        0 <= i < top.len(),
    ensures
        top[i].start <= top[i].end <= to,
    decreases top.len() - i,
{
    if i + 1 < top.len() {
        lemma_tile_end(top, to, i + 1);
        assert(top[i].end == top[i + 1].start);
    }
}

/// Nothing in front of the box moves, and the box is where the write says it
/// went; a box that was appended is behind all that was there.
pub proof fn law_nothing_before_the_box_moves(
    data: Seq<u8>,
    limits: Limits,
    selector: Selector,
    payload: Seq<u8>,
)
    requires
        data.len() <= u64::MAX,
    ensures
        installed(data, limits, selector, payload) matches Ok((placed, after)) ==> {
            let at = placed.place() as int;
            let built = selector.boxed_spec(payload);
            &&& at <= data.len()
            &&& after.take(at) == data.take(at)
            &&& after.subrange(at, at + built.len()) == built
            &&& placed is Appended ==> at == data.len() && after == data + built
        },
{
    if let Ok((placed, after)) = installed(data, limits, selector, payload) {
        let at = placed.place() as int;
        let built = selector.boxed_spec(payload);
        lemma_spot_inside(data, data.len() as u64, limits, selector);
        assert(data.take(data.len() as int) =~= data);
        assert(after.take(at) =~= data.take(at));
        assert(after.subrange(at, at + built.len()) =~= built);
    }
}

/// A file that ended in an `mfra` still does, to the byte.
pub proof fn law_the_mfra_stays_last(
    data: Seq<u8>,
    limits: Limits,
    selector: Selector,
    payload: Seq<u8>,
)
    requires
        data.len() <= u64::MAX,
    ensures
        installed(data, limits, selector, payload) matches Ok((placed, after)) ==> (
        placed matches Placed::BeforeMfra { at, moved } ==> {
            &&& at + moved == data.len()
            &&& after.skip(after.len() - moved) == data.skip(at as int)
        }),
{
    if let Ok((Placed::BeforeMfra { at, moved }, after)) = installed(
        data,
        limits,
        selector,
        payload,
    ) {
        lemma_spot_inside(data, data.len() as u64, limits, selector);
        assert(after.skip(after.len() - moved) =~= data.skip(at as int));
    }
}

/// The last bytes of a file, as many as the tail guess looks at.
pub open spec fn last_bytes(data: Seq<u8>) -> Seq<u8> {
    if data.len() < TAIL_WINDOW {
        data
    } else {
        data.skip(data.len() - TAIL_WINDOW)
    }
}

pub proof fn lemma_tail_window(data: Seq<u8>, limits: Limits)
    requires
        TAIL_WINDOW <= limits.max_read,
        data.len() <= u64::MAX,
    ensures
        tail_window(data, data.len() as u64, limits) == Ok::<_, Error>(last_bytes(data)),
{
    if data.len() == 0 {
        assert(last_bytes(data) =~= Seq::empty());
    } else if data.len() < TAIL_WINDOW {
        assert(data.subrange(0, data.len() as int) =~= data);
    } else {
        assert(data.subrange(data.len() - TAIL_WINDOW, data.len() as int) =~= last_bytes(data));
    }
}

/// Whether two files agree on their first `count` bytes.
pub open spec fn alike_to(one: Seq<u8>, other: Seq<u8>, count: int) -> bool {
    &&& count <= one.len()
    &&& count <= other.len()
    &&& one.take(count) == other.take(count)
}

/// Whether a top-level box is the selector's.
pub open spec fn claimed(
    data: Seq<u8>,
    len: u64,
    limits: Limits,
    span: BoxSpan,
    selector: Selector,
) -> bool {
    &&& span.kind == selector.kind()
    &&& span.body_len_spec() >= selector.prefix()
    &&& read_at_spec(
        data,
        len,
        limits.max_read,
        span.body,
        selector.prefix() as usize,
    ) matches Ok(head) && selector.claims_spec(head)
}

/// Whether none of some top-level boxes is the selector's.
pub open spec fn none_claimed(
    data: Seq<u8>,
    len: u64,
    limits: Limits,
    top: Seq<BoxSpan>,
    selector: Selector,
) -> bool {
    forall|i: int|
        0 <= i < top.len() ==> !claimed(data, len, limits, #[trigger] top[i], selector)
}

/// Whether one of some top-level boxes, the one at `k`, is the selector's and
/// no other.
pub open spec fn only_claimed(
    data: Seq<u8>,
    len: u64,
    limits: Limits,
    top: Seq<BoxSpan>,
    k: int,
    selector: Selector,
) -> bool {
    &&& 0 <= k < top.len()
    &&& forall|j: int|
        0 <= j < top.len() ==> (claimed(data, len, limits, #[trigger] top[j], selector) <==> j
            == k)
}

/// A walk that finds nothing passed over boxes none of which is the
/// selector's.
proof fn lemma_walked_nothing(
    data: Seq<u8>,
    len: u64,
    limits: Limits,
    top: Seq<BoxSpan>,
    i: nat,
    selector: Selector,
)
    requires
        walked(data, len, limits, top, i, selector) == Ok::<Option<Found>, Error>(None),
    ensures
        forall|j: int|
            i <= j < top.len() ==> !claimed(data, len, limits, #[trigger] top[j], selector),
    decreases top.len() - i,
{
    if i < top.len() {
        lemma_walked_nothing(data, len, limits, top, i + 1, selector);
        assert forall|j: int| i <= j < top.len() implies !claimed(
            data,
            len,
            limits,
            #[trigger] top[j],
            selector,
        ) by {
            if j == i {
                assert(!claimed(data, len, limits, top[i as int], selector));
            }
        }
    }
}

/// A walk that comes to the last box of all found it there.
proof fn lemma_walked_last(
    data: Seq<u8>,
    len: u64,
    limits: Limits,
    top: Seq<BoxSpan>,
    i: nat,
    selector: Selector,
)
    ensures
        walked(data, len, limits, top, i, selector) matches Ok(Some(found)) ==> (found.last
            ==> top.len() > 0 && found.start == top.last().start),
    decreases top.len() - i,
{
    if i < top.len() {
        lemma_walked_last(data, len, limits, top, i + 1, selector);
    }
}

/// Whose a box is does not change with what is behind it.
proof fn lemma_claimed_alike(
    one: Seq<u8>,
    other: Seq<u8>,
    limits: Limits,
    span: BoxSpan,
    cut: int,
    selector: Selector,
)
    requires
        one.len() <= u64::MAX,
        other.len() <= u64::MAX,
        alike_to(one, other, cut),
        span.body <= span.end,
        span.end <= cut,
    ensures
        claimed(one, one.len() as u64, limits, span, selector) == claimed(
            other,
            other.len() as u64,
            limits,
            span,
            selector,
        ),
{
    let prefix = selector.prefix() as int;
    if span.body_len_spec() >= prefix && prefix > 0 {
        let from = span.body as int;
        assert(one.subrange(from, from + prefix) =~= one.take(cut).subrange(from, from + prefix));
        assert(other.subrange(from, from + prefix) =~= other.take(cut).subrange(
            from,
            from + prefix,
        ));
    }
}

/// What the tail guess makes of a header at `at`.
pub open spec fn found_at(window: Seq<u8>, at: int, len: u64, selector: Selector) -> Found {
    let start = (len - window.len() + at) as u64;
    Found {
        start,
        body: (start + sized_at(window, at).unwrap().0 + selector.prefix()) as u64,
        end: len,
        last: true,
    }
}

proof fn lemma_guess_is_a_hit(window: Seq<u8>, at: nat, len: u64, selector: Selector)
    ensures
        hit_from(window, at, len, selector) matches Some(found) ==> exists|k: int|
            0 <= k && k + 8 + selector.prefix() <= window.len() && #[trigger] hit(
                window,
                k,
                len,
                selector,
            ) && found == found_at(window, k, len, selector),
    decreases window.len() - at,
{
    if at + 8 + selector.prefix() <= window.len() {
        if hit(window, at as int, len, selector) {
            assert(hit_from(window, at, len, selector) == Some(
                found_at(window, at as int, len, selector),
            ));
        } else {
            lemma_guess_is_a_hit(window, at + 1, len, selector);
        }
    }
}

/// A tail guess that is a top-level box is one of the selector's, and the
/// last.
#[verifier::rlimit(40)]
proof fn lemma_guess_is_claimed(
    data: Seq<u8>,
    limits: Limits,
    selector: Selector,
    found: Found,
    span: BoxSpan,
)
    requires
        data.len() <= u64::MAX,
        TAIL_WINDOW <= limits.max_read,
        at_tail_spec(data, data.len() as u64, limits, selector) == Ok::<_, Error>(Some(found)),
        header_in(data, data.len() as u64, limits.max_read, found.start, data.len() as u64)
            == Ok::<_, Error>(Some(span)),
        span.end == found.end,
    ensures
        claimed(data, data.len() as u64, limits, span, selector),
        span.start == found.start,
        found.body == span.body + selector.prefix(),
        found.end == data.len(),
        found.last,
{
    let len = data.len() as u64;
    let window = last_bytes(data);
    let shift = data.len() - window.len();
    lemma_tail_window(data, limits);
    lemma_guess_is_a_hit(window, 0, len, selector);
    let k = choose|k: int|
        0 <= k && k + 8 + selector.prefix() <= window.len() && #[trigger] hit(
            window,
            k,
            len,
            selector,
        ) && found == found_at(window, k, len, selector);
    let start = found.start as int;
    assert(start == shift + k);
    assert forall|i: int| 0 <= i < window.len() implies #[trigger] window[i] == data[shift + i] by {
    }
    let want = if len - start < 16 {
        len - start
    } else {
        16
    };
    let head = data.subrange(start, start + want);
    lemma_same32(head, 0, window, k);
    assert(kind_at(head, 4) == kind_at(window, k + 4));
    if be32(window, k) == 1 {
        lemma_same64(head, 8, window, k + 8);
    }
    let lead = sized_at(window, k).unwrap().0 as int;
    assert(span.body == start + lead);
    match selector {
        Selector::Uuid(uuid) => {
            let back = window.skip(k + lead);
            assert(back.take(16) == uuid@);
            assert(data.subrange(start + lead, start + lead + 16) =~= back.take(16));
            assert(data.subrange(start + lead, start + lead + 16).take(16) =~= uuid@);
        },
        Selector::Kind(_) => {},
    }
}

/// What is found of a top-level box.
pub open spec fn found_of(top: Seq<BoxSpan>, i: int, selector: Selector) -> Found {
    Found {
        start: top[i].start,
        body: (top[i].body + selector.prefix()) as u64,
        end: top[i].end,
        last: i + 1 == top.len(),
    }
}

/// A walk finds the first box that is the selector's.
proof fn lemma_walked_finds(
    data: Seq<u8>,
    len: u64,
    limits: Limits,
    top: Seq<BoxSpan>,
    i: nat,
    selector: Selector,
)
    requires
        16 <= limits.max_read,
    ensures
        walked(data, len, limits, top, i, selector) is Ok,
        walked(data, len, limits, top, i, selector) matches Ok(Some(found)) ==> exists|k: int|
            0 <= k < top.len() && claimed(data, len, limits, #[trigger] top[k], selector) && found
                == found_of(top, k, selector),
    decreases top.len() - i,
{
    if i < top.len() {
        lemma_walked_finds(data, len, limits, top, i + 1, selector);
        if claimed(data, len, limits, top[i as int], selector) {
            assert(walked(data, len, limits, top, i, selector) == Ok::<_, Error>(
                Some(found_of(top, i as int, selector)),
            ));
        }
    }
}

/// A box is found where a top-level box of the file is the selector's, and
/// what is found is such a box; where none is, none is found, whatever the
/// bytes inside other boxes look like.
pub proof fn law_what_is_found_is_a_top_level_box(
    data: Seq<u8>,
    limits: Limits,
    selector: Selector,
    top: Seq<BoxSpan>,
)
    requires
        data.len() <= u64::MAX,
        TAIL_WINDOW <= limits.max_read,
        top_level_spec(data, data.len() as u64, limits) == Ok::<_, Error>(top),
    ensures
        match find_spec(data, data.len() as u64, limits, selector) {
            Ok(Some(found)) => exists|k: int|
                0 <= k < top.len() && claimed(
                    data,
                    data.len() as u64,
                    limits,
                    #[trigger] top[k],
                    selector,
                ) && found == found_of(top, k, selector),
            Ok(None) => none_claimed(data, data.len() as u64, limits, top, selector),
            Err(_) => false,
        },
{
    let len = data.len() as u64;
    lemma_tail_window(data, limits);
    let guess = at_tail_spec(data, len, limits, selector)->Ok_0;
    if guess is Some && is_one_of(guess.unwrap(), top) {
        lemma_guess_is_the_last(data, limits, selector, guess.unwrap(), top);
    } else {
        lemma_walked_finds(data, len, limits, top, 0, selector);
        if walked(data, len, limits, top, 0, selector) == Ok::<Option<Found>, Error>(None) {
            lemma_walked_nothing(data, len, limits, top, 0, selector);
        }
    }
}

/// A tail guess that is a top-level box is the last of them, and the
/// selector's.
pub proof fn lemma_guess_is_the_last(
    data: Seq<u8>,
    limits: Limits,
    selector: Selector,
    found: Found,
    top: Seq<BoxSpan>,
) -> (k: int)
    requires
        data.len() <= u64::MAX,
        TAIL_WINDOW <= limits.max_read,
        at_tail_spec(data, data.len() as u64, limits, selector) == Ok::<_, Error>(Some(found)),
        top_level_spec(data, data.len() as u64, limits) == Ok::<_, Error>(top),
        is_one_of(found, top),
    ensures
        0 <= k < top.len(),
        claimed(data, data.len() as u64, limits, top[k], selector),
        found == found_of(top, k, selector),
{
    let len = data.len() as u64;
    law_top_level_covers_the_file(data, len, limits);
    let to = choose|to: int| #[trigger] tile(top, 0, to) && to <= len < to + 8;
    let i = choose|i: int|
        0 <= i < top.len() && (#[trigger] top[i]).start == found.start && top[i].end == found.end;
    lemma_span_header(data, len, limits, 0, 0, i);
    lemma_guess_is_claimed(data, limits, selector, found, top[i]);
    if i + 1 < top.len() {
        assert(top[i].end == top[i + 1].start);
        lemma_tile_end(top, to, i + 1);
        assert(top[i + 1].start + 8 <= top[i + 1].body);
    }
    i
}

/// A box of the selector's behind a file that is boxes to its last byte,
/// none of them the selector's, and in front of boxes that are not: it is
/// the one box of the selector's, it is found, and its payload reads back,
/// however long it is.
#[verifier::rlimit(60)]
pub proof fn law_the_box_is_found(
    front: Seq<u8>,
    rest: Seq<u8>,
    limits: Limits,
    selector: Selector,
    payload: Seq<u8>,
)
    requires
        whole_boxes(front, limits),
        fits(selector.lead() + payload),
        TAIL_WINDOW <= limits.max_read,
        payload.len() <= limits.max_read,
        (front + selector.boxed_spec(payload) + rest).len() <= u64::MAX,
        ({
            let all = front + selector.boxed_spec(payload) + rest;
            let len = all.len() as u64;
            let top = top_level_spec(front, front.len() as u64, limits)->Ok_0;
            let end = (front.len() + selector.boxed_spec(payload).len()) as u64;
            let behind = boxes_from(all, len, limits, end, top.len() + 1);
            &&& top.len() < limits.max_top_level
            &&& none_claimed(front, front.len() as u64, limits, top, selector)
            &&& behind is Ok
            &&& none_claimed(all, len, limits, behind->Ok_0, selector)
        }),
    ensures
        ({
            let all = front + selector.boxed_spec(payload) + rest;
            let len = all.len() as u64;
            let start = front.len() as u64;
            let end = (start + selector.boxed_spec(payload).len()) as u64;
            let before = top_level_spec(front, front.len() as u64, limits)->Ok_0;
            let behind = boxes_from(all, len, limits, end, before.len() + 1)->Ok_0;
            let top = top_level_spec(all, len, limits);
            &&& top is Ok
            &&& only_claimed(all, len, limits, top->Ok_0, before.len() as int, selector)
            &&& find_spec(all, len, limits, selector) == Ok::<_, Error>(
                Some(
                    Found {
                        start,
                        body: (start + 8 + selector.prefix()) as u64,
                        end,
                        last: behind.len() == 0,
                    },
                ),
            )
            &&& read_spec(all, len, limits, selector) == Ok::<_, Error>(Some(payload))
        }),
{
    let inner = selector.lead() + payload;
    let built = selector.boxed_spec(payload);
    let all = front + built + rest;
    let len = all.len() as u64;
    let start = front.len() as u64;
    let end = (start + built.len()) as u64;
    let before = top_level_spec(front, start, limits)->Ok_0;
    let k = before.len();
    lemma_boxed_len(selector.kind(), inner);
    assert(all =~= front + (built + rest));
    law_boxes_stay_where_they_are(front, built + rest, limits);
    law_built_box_is_found(front, selector.kind(), inner, rest, limits, k);
    let span = BoxSpan { kind: selector.kind(), start, body: (start + 8) as u64, end };
    let behind = boxes_from(all, len, limits, end, k + 1)->Ok_0;
    let top = before + (seq![span] + behind);
    assert(top_level_spec(all, len, limits) == Ok::<_, Error>(top));
    assert(top[k as int] == span);
    assert(all.subrange(start as int, start + built.len()) =~= built);
    lemma_ours_is_claimed(all, limits, span, selector, payload);
    law_top_level_covers_the_file(front, start, limits);
    let to = choose|to: int| #[trigger] tile(before, 0, to) && to <= start < to + 8;
    assert(front.take(front.len() as int) =~= all.take(front.len() as int));
    assert forall|j: int| 0 <= j < top.len() implies (claimed(
        all,
        len,
        limits,
        #[trigger] top[j],
        selector,
    ) <==> j == k) by {
        if j < k {
            assert(top[j] == before[j]);
            lemma_tile_end(before, to, j);
            lemma_claimed_alike(front, all, limits, before[j], front.len() as int, selector);
            assert(!claimed(front, start, limits, before[j], selector));
        } else if j > k {
            assert(top[j] == behind[j - k - 1]);
            assert(!claimed(all, len, limits, behind[j - k - 1], selector));
        }
    }
    law_what_is_found_is_a_top_level_box(all, limits, selector, top);
    assert(claimed(all, len, limits, top[k as int], selector));
    lemma_ours_reads(all, limits, start, selector, payload);
}

/// What is in a box that was built, in a file.
proof fn lemma_ours_inside(all: Seq<u8>, start: u64, selector: Selector, payload: Seq<u8>)
    requires
        start + selector.boxed_spec(payload).len() <= all.len(),
        all.subrange(start as int, start + selector.boxed_spec(payload).len())
            == selector.boxed_spec(payload),
    ensures
        selector.boxed_spec(payload).len() == 8 + selector.prefix() + payload.len(),
        all.subrange(start + 8, start + 8 + selector.prefix() + payload.len()) == selector.lead()
            + payload,
{
    let inner = selector.lead() + payload;
    let built = selector.boxed_spec(payload);
    lemma_boxed_len(selector.kind(), inner);
    assert(built.skip(8) =~= inner);
    assert(all.subrange(start + 8, start + 8 + inner.len()) =~= all.subrange(
        start as int,
        start + built.len(),
    ).skip(8));
}

proof fn lemma_ours_is_claimed(
    all: Seq<u8>,
    limits: Limits,
    span: BoxSpan,
    selector: Selector,
    payload: Seq<u8>,
)
    requires
        all.len() <= u64::MAX,
        16 <= limits.max_read,
        span.kind == selector.kind(),
        span.body == span.start + 8,
        span.end == span.start + selector.boxed_spec(payload).len(),
        span.end <= all.len(),
        all.subrange(span.start as int, span.end as int) == selector.boxed_spec(payload),
    ensures
        claimed(all, all.len() as u64, limits, span, selector),
{
    let inner = selector.lead() + payload;
    let body = span.body as int;
    lemma_ours_inside(all, span.start, selector, payload);
    match selector {
        Selector::Uuid(uuid) => {
            assert(all.subrange(body, body + 16) =~= all.subrange(
                body,
                body + inner.len(),
            ).take(16));
            assert(inner.take(16) =~= uuid@);
            assert(all.subrange(body, body + 16).take(16) =~= uuid@);
        },
        Selector::Kind(_) => {},
    }
}

/// The payload of a box that was built is the bytes behind its lead.
proof fn lemma_ours_reads(
    all: Seq<u8>,
    limits: Limits,
    start: u64,
    selector: Selector,
    payload: Seq<u8>,
)
    requires
        all.len() <= u64::MAX,
        payload.len() <= limits.max_read,
        start + selector.boxed_spec(payload).len() <= all.len(),
        all.subrange(start as int, start + selector.boxed_spec(payload).len())
            == selector.boxed_spec(payload),
    ensures
        span_spec(
            all,
            all.len() as u64,
            limits.max_read,
            (start + 8 + selector.prefix()) as u64,
            payload.len() as u64,
        ) == Ok::<_, Error>(payload),
        selector.boxed_spec(payload).len() == 8 + selector.prefix() + payload.len(),
{
    let prefix = selector.prefix() as int;
    let inner = selector.lead() + payload;
    let body = start + 8;
    let end = body + prefix + payload.len();
    lemma_ours_inside(all, start, selector, payload);
    assert(inner.skip(prefix) =~= payload);
    assert(all.subrange(body + prefix, end) =~= all.subrange(body, end).skip(prefix));
    if payload.len() == 0 {
        assert(payload =~= Seq::empty());
    }
}

/// A box that is written over is the last top-level box of the file.
pub proof fn law_a_replaced_box_is_the_last(
    data: Seq<u8>,
    limits: Limits,
    selector: Selector,
    payload: Seq<u8>,
)
    requires
        whole_boxes(data, limits),
    ensures
        installed(data, limits, selector, payload) matches Ok((Placed::Replaced { at }, _)) ==> {
            let top = top_level_spec(data, data.len() as u64, limits)->Ok_0;
            top.len() > 0 && at == top.last().start
        },
{
    let len = data.len() as u64;
    let top = top_level_spec(data, len, limits)->Ok_0;
    lemma_walked_last(data, len, limits, top, 0, selector);
    law_top_level_covers_the_file(data, len, limits);
    let to = choose|to: int| #[trigger] tile(top, 0, to) && to <= len < to + 8;
    if let Ok(Some(found)) = at_tail_spec(data, len, limits, selector) {
        if is_one_of(found, top) {
            let window = tail_window(data, len, limits)->Ok_0;
            lemma_hit_inside(window, 0, len, selector);
            let i = choose|i: int|
                0 <= i < top.len() && (#[trigger] top[i]).start == found.start && top[i].end
                    == found.end;
            if i + 1 < top.len() {
                assert(top[i].end == top[i + 1].start);
                lemma_tile_end(top, to, i + 1);
                assert(top[i + 1].start + 8 <= top[i + 1].body);
            }
        }
    }
}

/// Whether no box of a file but its last is the selector's.
pub open spec fn only_the_last(data: Seq<u8>, limits: Limits, selector: Selector) -> bool {
    top_level_spec(data, data.len() as u64, limits) matches Ok(top) ==> forall|i: int|
        0 <= i < top.len() - 1 ==> !claimed(
            data,
            data.len() as u64,
            limits,
            #[trigger] top[i],
            selector,
        )
}

/// Whether a file can have one more box and still be walked.
pub open spec fn room_for_one(data: Seq<u8>, limits: Limits) -> bool {
    top_level_spec(data, data.len() as u64, limits) matches Ok(top) && top.len()
        < limits.max_top_level
}

/// What was written reads back: after a write into a file that is boxes to
/// its last byte, and has no box of the selector's but perhaps its last, a
/// read gives the payload, and one box of the selector's is left. A file that
/// has as many boxes as a walk will pass can have its last replaced.
#[verifier::rlimit(60)]
pub proof fn law_what_was_installed_reads_back(
    data: Seq<u8>,
    limits: Limits,
    selector: Selector,
    payload: Seq<u8>,
)
    requires
        whole_boxes(data, limits),
        only_the_last(data, limits, selector),
        fits(selector.lead() + payload),
        TAIL_WINDOW <= limits.max_read,
        payload.len() <= limits.max_read,
        installed(data, limits, selector, payload) matches Ok((placed, after)) && after.len()
            <= u64::MAX && (placed is Replaced || room_for_one(data, limits)),
    ensures
        ({
            let after = installed(data, limits, selector, payload)->Ok_0.1;
            let len = after.len() as u64;
            let top = top_level_spec(after, len, limits);
            &&& read_spec(after, len, limits, selector) == Ok::<_, Error>(Some(payload))
            &&& top is Ok
            &&& exists|k: int| #[trigger]
                only_claimed(after, len, limits, top->Ok_0, k, selector)
        }),
{
    let (placed, after) = installed(data, limits, selector, payload)->Ok_0;
    let len = data.len() as u64;
    let top = top_level_spec(data, len, limits)->Ok_0;
    let at = placed.place();
    let built = selector.boxed_spec(payload);
    let none = Seq::<u8>::empty();
    lemma_boxed_len(selector.kind(), selector.lead() + payload);
    lemma_spot_inside(data, len, limits, selector);
    let front = data.take(at as int);
    assert(data.take(data.len() as int) =~= data);
    let total = after.len() as u64;
    if placed is Appended {
        lemma_walked_nothing(data, len, limits, top, 0, selector);
        assert(after =~= data + built + none);
        lemma_nothing_behind(after, limits, top.len() + 1);
        law_the_box_is_found(data, none, limits, selector, payload);
    } else {
        if placed is Replaced {
            law_a_replaced_box_is_the_last(data, limits, selector, payload);
        } else {
            lemma_walked_nothing(data, len, limits, top, 0, selector);
        }
        assert(top.len() > 0 && at == top.last().start);
        assert(data.len() > 0);
        law_top_level_covers_the_file(data, len, limits);
        law_without_the_last_box(data, limits);
        let less = top.drop_last();
        lemma_fewer_are_not(data, limits, top, selector);
        let end = (at + built.len()) as u64;
        if placed is Replaced {
            assert(after =~= front + built + none);
            lemma_nothing_behind(after, limits, top.len());
            law_the_box_is_found(front, none, limits, selector, payload);
        } else {
            let rest = data.skip(at as int);
            assert(after =~= front + built + rest);
            assert(after.skip(end as int) =~= rest);
            law_a_moved_last_box_is_found(data, after, limits, end, top.len());
            let behind = boxes_from(after, total, limits, end, top.len())->Ok_0;
            assert(!claimed(data, len, limits, top[top.len() - 1], selector));
            assert(selector.kind() != MFRA);
            assert(none_claimed(after, total, limits, behind, selector));
            law_the_box_is_found(front, rest, limits, selector, payload);
        }
    }
    let k = top_level_spec(
        if placed is Appended {
            data
        } else {
            front
        },
        if placed is Appended {
            len
        } else {
            at
        },
        limits,
    )->Ok_0.len() as int;
    let more = top_level_spec(after, total, limits)->Ok_0;
    assert(only_claimed(after, total, limits, more, k, selector));
}

/// Past the end of a file there is no box.
proof fn lemma_nothing_behind(all: Seq<u8>, limits: Limits, count: nat)
    requires
        all.len() <= u64::MAX,
    ensures
        boxes_from(all, all.len() as u64, limits, all.len() as u64, count) == Ok::<_, Error>(
            Seq::<BoxSpan>::empty(),
        ),
{
}

/// What is not among the boxes before the last of a file is not among them
/// when the last is gone.
proof fn lemma_fewer_are_not(data: Seq<u8>, limits: Limits, top: Seq<BoxSpan>, selector: Selector)
    requires
        whole_boxes(data, limits),
        top_level_spec(data, data.len() as u64, limits) == Ok::<_, Error>(top),
        top.len() > 0,
        only_the_last(data, limits, selector),
    ensures
        ({
            let front = data.take(top.last().start as int);
            none_claimed(front, front.len() as u64, limits, top.drop_last(), selector)
        }),
{
    let len = data.len() as u64;
    let cut = top.last().start as int;
    let front = data.take(cut);
    let less = top.drop_last();
    let k = less.len() as int;
    law_top_level_covers_the_file(data, len, limits);
    let to = choose|to: int| #[trigger] tile(top, 0, to) && to <= len < to + 8;
    lemma_tile_end(top, to, k);
    assert(front.take(cut) =~= data.take(cut));
    assert forall|j: int| 0 <= j < less.len() implies !claimed(
        front,
        front.len() as u64,
        limits,
        #[trigger] less[j],
        selector,
    ) by {
        assert(less[j] == top[j]);
        lemma_tile_order(top, 0, to, j, k);
        lemma_tile_end(top, to, j);
        lemma_claimed_alike(data, front, limits, top[j], cut, selector);
    }
}

/// A `uuid` that occurs nowhere in a file, but for a box of its own that is
/// the last: what is written under it reads back, and one box of it is left;
/// where the box is not a replacement, the file must have room for one more.
pub proof fn law_what_was_installed_under_a_uuid_reads_back(
    data: Seq<u8>,
    limits: Limits,
    uuid: [u8; 16],
    payload: Seq<u8>,
)
    requires
        whole_boxes(data, limits),
        ({
            let top = top_level_spec(data, data.len() as u64, limits)->Ok_0;
            &&& forall|at: int|
                0 <= at <= data.len() - 16 && #[trigger] data.subrange(at, at + 16) == uuid@
                    ==> top.len() > 0 && at == top.last().body
        }),
        24 + payload.len() < 0x1_0000_0000,
        TAIL_WINDOW <= limits.max_read,
        payload.len() <= limits.max_read,
        installed(data, limits, Selector::Uuid(uuid), payload) matches Ok((placed, after))
            && after.len() <= u64::MAX && (placed is Replaced || room_for_one(data, limits)),
    ensures
        ({
            let selector = Selector::Uuid(uuid);
            let after = installed(data, limits, selector, payload)->Ok_0.1;
            let len = after.len() as u64;
            let top = top_level_spec(after, len, limits);
            &&& read_spec(after, len, limits, selector) == Ok::<_, Error>(Some(payload))
            &&& top is Ok
            &&& exists|k: int| #[trigger]
                only_claimed(after, len, limits, top->Ok_0, k, selector)
        }),
{
    let selector = Selector::Uuid(uuid);
    let len = data.len() as u64;
    let top = top_level_spec(data, len, limits)->Ok_0;
    law_top_level_covers_the_file(data, len, limits);
    let to = choose|to: int| #[trigger] tile(top, 0, to) && to <= len < to + 8;
    let last = top.len() - 1;
    assert forall|j: int| 0 <= j < last implies !claimed(
        data,
        len,
        limits,
        #[trigger] top[j],
        selector,
    ) by {
        lemma_tile_order(top, 0, to, j, last);
        lemma_tile_end(top, to, j);
        lemma_tile_end(top, to, last);
        if claimed(data, len, limits, top[j], selector) {
            let body = top[j].body as int;
            let head = data.subrange(body, body + 16);
            assert(head.take(16) =~= head);
            assert(body == top.last().body);
        }
    }
    law_what_was_installed_reads_back(data, limits, selector, payload);
}

/// A second write lands on the first: the file does not grow a box a write.
pub proof fn law_a_second_write_replaces_the_first(
    front: Seq<u8>,
    limits: Limits,
    selector: Selector,
    payload: Seq<u8>,
    second: Seq<u8>,
)
    requires
        whole_boxes(front, limits),
        ({
            let top = top_level_spec(front, front.len() as u64, limits)->Ok_0;
            &&& top.len() < limits.max_top_level
            &&& none_claimed(front, front.len() as u64, limits, top, selector)
        }),
        fits(selector.lead() + payload),
        TAIL_WINDOW <= limits.max_read,
        payload.len() <= limits.max_read,
        (front + selector.boxed_spec(payload)).len() <= u64::MAX,
    ensures
        installed(front + selector.boxed_spec(payload), limits, selector, second) == Ok::<_, Error>(
            (
                Placed::Replaced { at: front.len() as u64 },
                front + selector.boxed_spec(second),
            ),
        ),
{
    let built = selector.boxed_spec(payload);
    let none = Seq::<u8>::empty();
    let after = front + built;
    let top = top_level_spec(front, front.len() as u64, limits)->Ok_0;
    assert(after =~= front + built + none);
    lemma_nothing_behind(after, limits, top.len() + 1);
    law_the_box_is_found(front, none, limits, selector, payload);
    assert(after.take(front.len() as int) =~= front);
}

/// A copy made for a box that is not last is the file without that box, and
/// then the new one.
pub proof fn law_a_rewrite_leaves_the_old_box_out(
    data: Seq<u8>,
    limits: Limits,
    selector: Selector,
    payload: Seq<u8>,
)
    requires
        data.len() <= u64::MAX,
    ensures
        spot_spec(data, data.len() as u64, limits, selector) matches Ok(Spot::Rewrite(start, end))
            ==> {
            let (done, copy) = rewritten(data, data.len() as u64, limits, selector, payload);
            done is Ok ==> copy == data.take(start as int) + data.skip(end as int)
                + selector.boxed_spec(payload)
        },
{
    lemma_spot_inside(data, data.len() as u64, limits, selector);
    if let Ok(Spot::Rewrite(start, end)) = spot_spec(
        data,
        data.len() as u64,
        limits,
        selector,
    ) {
        let front = copied(data, limits.max_read, 0, start);
        let back = copied(data, limits.max_read, end, data.len() as u64);
        if front is Ok && back is Ok {
            assert(front->Ok_0 =~= data.take(start as int));
            assert(back->Ok_0 =~= data.skip(end as int));
        }
    }
}

} // verus!
