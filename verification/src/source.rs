//! The reader everything that touches a file goes through.
//!
//! Two jobs. It counts, because how little of a file a reader has to touch
//! is a measurable claim and a claim nobody counts is a hope. And it is the
//! one place in the crate where a number that came out of a file becomes a
//! buffer, which turns "never allocate from an unchecked length" into a
//! property of one function rather than of every parser.
//!
//! Nothing here knows about boxes. A `moov` is read whole because it is
//! small and its children are walked in memory; an `mdat` is never read at
//! all, only the spans of it that a sample table named.
//!
//! What a file is, is three traits over one model: bytes, a head that reads
//! and writes move, and whether it can fail. [`Cursor`] is a file in memory
//! and never fails.

use vstd::prelude::*;

use crate::be::put;
use crate::error::{seen, Error, Result};
use crate::limits::Limits;

verus! {

/// What the outcome of an operation on a file is.
pub type IoResult<T> = core::result::Result<T, std::io::Error>;

/// What a file is to the code that reads and writes it: three things that
/// exist in proofs only. A file whose code is not proved keeps them as they
/// are here.
pub trait Medium {
    /// The bytes it holds.
    open spec fn data(&self) -> Seq<u8> {
        Seq::empty()
    }

    /// Where the next read or write happens.
    open spec fn head(&self) -> nat {
        0
    }

    /// Whether it never refuses what its bytes allow.
    open spec fn steady(&self) -> bool {
        false
    }
}

/// A file that can be read at any position.
pub trait Input: Medium {
    /// Moves the head to the end and says where that is.
    fn seek_end(&mut self) -> (at: IoResult<u64>)
        ensures
            final(self).data() == old(self).data(),
            final(self).steady() == old(self).steady(),
            old(self).steady() ==> at is Ok,
            at matches Ok(at) ==> at == old(self).data().len() && final(self).head() == at,
    ;

    /// Moves the head to a position counted from the start.
    fn seek_start(&mut self, at: u64) -> (done: IoResult<()>)
        ensures
            final(self).data() == old(self).data(),
            final(self).steady() == old(self).steady(),
            old(self).steady() ==> done is Ok,
            done is Ok ==> final(self).head() == at,
    ;

    /// The next `want` bytes, all of them or an error.
    fn read_exact(&mut self, want: usize) -> (bytes: IoResult<Vec<u8>>)
        ensures
            final(self).data() == old(self).data(),
            final(self).steady() == old(self).steady(),
            match bytes {
                Ok(bytes) => {
                    &&& old(self).head() + want <= old(self).data().len()
                    &&& bytes@ == old(self).data().subrange(
                        old(self).head() as int,
                        old(self).head() + want,
                    )
                    &&& final(self).head() == old(self).head() + want
                },
                Err(_) => old(self).steady() ==> old(self).head() + want > old(self).data().len(),
            },
    ;
}

/// Bytes written over `data` from `head` on: what was there is replaced,
/// and what runs past the end is added.
pub open spec fn overwritten(data: Seq<u8>, head: nat, bytes: Seq<u8>) -> Seq<u8>
    recommends
        head <= data.len(),
{
    let end = head + bytes.len();
    data.take(head as int) + bytes + (if end < data.len() {
        data.skip(end as int)
    } else {
        Seq::empty()
    })
}

/// A file that can be written.
pub trait Output: Medium {
    /// Writes every byte at the head and moves the head past them. Nothing
    /// is promised of a head that stands past the end.
    fn write_all(&mut self, bytes: &[u8]) -> (done: IoResult<()>)
        ensures
            final(self).steady() == old(self).steady(),
            old(self).steady() && old(self).head() <= old(self).data().len() ==> done is Ok,
            done is Ok && old(self).head() <= old(self).data().len() ==> {
                &&& final(self).data() == overwritten(old(self).data(), old(self).head(), bytes@)
                &&& final(self).head() == old(self).head() + bytes@.len()
            },
    ;

    /// Hands on whatever was written and is still held back.
    fn flush(&mut self) -> (done: IoResult<()>)
        ensures
            final(self).data() == old(self).data(),
            final(self).head() == old(self).head(),
            final(self).steady() == old(self).steady(),
            old(self).steady() ==> done is Ok,
    ;
}

/// An error of the kind a read past the end of a file returns, made with
/// `std::io::Error::from`. Nothing is claimed of it.
#[verifier::external_body]
fn unexpected_end() -> (err: std::io::Error) {
    std::io::Error::from(std::io::ErrorKind::UnexpectedEof)
}

/// A file in memory: bytes, and a head that reads and writes move.
#[derive(Clone, Debug, PartialEq, Eq)]
pub struct Cursor {
    bytes: Vec<u8>,
    pos: u64,
}

impl Cursor {
    /// A file holding `bytes`, with the head at the start.
    pub fn new(bytes: Vec<u8>) -> (file: Self)
        ensures
            file.data() == bytes@,
            file.head() == 0,
    {
        Cursor { bytes, pos: 0 }
    }

    /// The bytes the file holds.
    pub fn get_ref(&self) -> (bytes: &Vec<u8>)
        ensures
            bytes@ == self.data(),
    {
        &self.bytes
    }

    /// The bytes the file holds, and an end to the file.
    pub fn into_inner(self) -> (bytes: Vec<u8>)
        ensures
            bytes@ == self.data(),
    {
        self.bytes
    }

    /// Drops every byte from `len` on.
    pub fn truncate(&mut self, len: u64)
        ensures
            final(self).data() == (if len < old(self).data().len() {
                old(self).data().take(len as int)
            } else {
                old(self).data()
            }),
            final(self).head() == old(self).head(),
    {
        if len < self.bytes.len() as u64 {
            self.bytes.truncate(len as usize);
            assert(self.bytes@ =~= old(self).bytes@.take(len as int));
        }
    }
}

impl Medium for Cursor {
    closed spec fn data(&self) -> Seq<u8> {
        self.bytes@
    }

    closed spec fn head(&self) -> nat {
        self.pos as nat
    }

    open spec fn steady(&self) -> bool {
        true
    }
}

impl Input for Cursor {
    fn seek_end(&mut self) -> (at: IoResult<u64>) {
        self.pos = self.bytes.len() as u64;
        Ok(self.pos)
    }

    fn seek_start(&mut self, at: u64) -> (done: IoResult<()>) {
        self.pos = at;
        Ok(())
    }

    fn read_exact(&mut self, want: usize) -> (bytes: IoResult<Vec<u8>>) {
        let len: usize = self.bytes.len();
        if self.pos > len as u64 || want > len - self.pos as usize {
            return Err(unexpected_end());
        }
        let from: usize = self.pos as usize;
        let out = vstd::slice::slice_to_vec(
            vstd::slice::slice_subrange(self.bytes.as_slice(), from, from + want),
        );
        self.pos = (from + want) as u64;
        Ok(out)
    }
}

impl Output for Cursor {
    /// Bytes with a gap before them are refused.
    fn write_all(&mut self, bytes: &[u8]) -> (done: IoResult<()>) {
        let len: usize = self.bytes.len();
        if self.pos > len as u64 {
            return Err(unexpected_end());
        }
        let ghost before = self.bytes@;
        let ghost head = self.pos as nat;
        let from: usize = self.pos as usize;
        let mut back = self.bytes.split_off(from);
        put(&mut self.bytes, bytes);
        let end: usize = self.bytes.len();
        if back.len() > bytes.len() {
            let kept = back.split_off(bytes.len());
            put(&mut self.bytes, kept.as_slice());
        }
        self.pos = end as u64;
        assert(self.bytes@ =~= overwritten(before, head, bytes@));
        Ok(())
    }

    fn flush(&mut self) -> (done: IoResult<()>) {
        Ok(())
    }
}

/// What a read of a file cost.
#[derive(Clone, Copy, Debug, PartialEq, Eq, Structural)]
pub struct Tally {
    /// Bytes actually pulled out of the file.
    pub bytes_read: u64,
    /// Times the read head was moved somewhere it was not already.
    pub seeks: u64,
    /// How large the file is, which is what the bytes are a share of.
    pub len: u64,
}

impl Default for Tally {
    fn default() -> (tally: Self)
        ensures
            tally == (Tally { bytes_read: 0, seeks: 0, len: 0 }),
    {
        Tally { bytes_read: 0, seeks: 0, len: 0 }
    }
}

/// A counter moved up, held at the most it can count.
pub open spec fn counted(counter: u64, more: int) -> u64 {
    if counter + more > u64::MAX {
        u64::MAX
    } else {
        (counter + more) as u64
    }
}

/// What reading up to `want` bytes at `at` of a file of `len` bytes hands
/// back: a refusal past the ceiling, and otherwise what is there.
pub open spec fn read_at_spec(
    data: Seq<u8>,
    len: u64,
    max_read: usize,
    at: u64,
    want: usize,
) -> Result<Seq<u8>> {
    if want > max_read {
        Err(Error::format("a value larger than this reader will hold").at(at))
    } else if at >= len || want == 0 {
        Ok(Seq::empty())
    } else {
        Ok(
            data.subrange(
                at as int,
                if at + want < len {
                    at + want
                } else {
                    len as int
                },
            ),
        )
    }
}

/// How many bytes such a read pulls out of the file.
pub open spec fn pulled(len: u64, max_read: usize, at: u64, want: usize) -> int {
    if want > max_read || at >= len {
        0
    } else if len - at < want {
        len - at
    } else {
        want as int
    }
}

/// What a read costs that finds the head at `place`: the bytes it pulls, and
/// a move of the head where it has to be moved.
pub open spec fn charged(cost: Tally, place: u64, at: u64, bytes: int) -> Tally {
    Tally {
        bytes_read: counted(cost.bytes_read, bytes),
        seeks: counted(
            cost.seeks,
            if bytes > 0 && place != at {
                1
            } else {
                0
            },
        ),
        len: cost.len,
    }
}

/// Whether reading cost no more than so many bytes and moves of the head.
pub open spec fn cheap(after: Tally, before: Tally, bytes: int, seeks: int) -> bool {
    &&& after.bytes_read <= before.bytes_read + bytes
    &&& after.seeks <= before.seeks + seeks
}

/// What reading exactly `want` bytes hands back.
pub open spec fn exact_at_spec(
    data: Seq<u8>,
    len: u64,
    max_read: usize,
    at: u64,
    want: usize,
) -> Result<Seq<u8>> {
    match read_at_spec(data, len, max_read, at, want) {
        Err(err) => Err(err),
        Ok(bytes) => if bytes.len() != want {
            Err(Error::truncated("the file ends inside a value").at(at))
        } else {
            Ok(bytes)
        },
    }
}

/// What reading a span hands back.
pub open spec fn span_spec(
    data: Seq<u8>,
    len: u64,
    max_read: usize,
    at: u64,
    wide: u64,
) -> Result<Seq<u8>> {
    if wide > usize::MAX {
        Err(Error::format("a span wider than memory").at(at))
    } else {
        exact_at_spec(data, len, max_read, at, wide as usize)
    }
}

/// A file, read by absolute position, with the cost kept.
#[derive(Debug)]
pub struct Source<R> {
    inner: R,
    len: u64,
    at: u64,
    bytes_read: u64,
    seeks: u64,
    limits: Limits,
}

impl<R: Input> Source<R> {
    /// The file behind the source.
    pub closed spec fn file(&self) -> R {
        self.inner
    }

    /// The bytes of that file.
    pub open spec fn data(&self) -> Seq<u8> {
        self.file().data()
    }

    /// How long the file was when it was opened.
    pub closed spec fn size(&self) -> u64 {
        self.len
    }

    /// The bounds every read is held to.
    pub closed spec fn bounds(&self) -> Limits {
        self.limits
    }

    /// What the reading has cost so far.
    pub closed spec fn cost(&self) -> Tally {
        Tally { bytes_read: self.bytes_read, seeks: self.seeks, len: self.len }
    }

    /// Where the source takes the head to be. The last position means it
    /// does not know.
    pub closed spec fn place(&self) -> u64 {
        self.at
    }

    /// The source is right about where the head is, where it claims to
    /// know. Every call keeps this.
    pub open spec fn wf(&self) -> bool {
        self.place() == u64::MAX || self.place() == self.file().head()
    }

    /// The file is as long as it was when it was opened.
    pub open spec fn whole(&self) -> bool {
        &&& self.wf()
        &&& self.size() == self.data().len()
    }

    /// The same file, seen through the same bounds. What it cost and where
    /// the head is may differ.
    pub open spec fn same_as(&self, other: &Self) -> bool {
        &&& self.data() == other.data()
        &&& self.file().steady() == other.file().steady()
        &&& self.size() == other.size()
        &&& self.bounds() == other.bounds()
    }

    /// A read ended as its outcome says: it left the file as it was, the
    /// source is right about the head, and only a file that is not steady,
    /// or has shrunk, failed.
    pub open spec fn ended<T>(&self, before: &Self, outcome: Result<T>) -> bool {
        &&& self.same_as(before)
        &&& self.wf()
        &&& outcome matches Err(Error::Io(_)) ==> !(before.file().steady() && before.size()
            <= before.data().len())
    }

    /// A source over anything that reads and seeks, with the default
    /// [`Limits`]. The one seek this costs, to find the length, is counted
    /// like any other.
    pub fn new(inner: R) -> (src: Result<Self>)
        ensures
            match src {
                Ok(src) => {
                    &&& src.whole()
                    &&& src.data() == inner.data()
                    &&& src.file().steady() == inner.steady()
                    &&& src.bounds() == Limits::usual()
                    &&& src.cost() == (Tally { bytes_read: 0, seeks: 1, len: src.size() })
                },
                Err(err) => err is Io && !inner.steady(),
            },
    {
        Self::with_limits(inner, Limits::default())
    }

    /// The same, with a caller's own bounds.
    pub fn with_limits(mut inner: R, limits: Limits) -> (src: Result<Self>)
        ensures
            match src {
                Ok(src) => {
                    &&& src.whole()
                    &&& src.data() == inner.data()
                    &&& src.file().steady() == inner.steady()
                    &&& src.bounds() == limits
                    &&& src.cost() == (Tally { bytes_read: 0, seeks: 1, len: src.size() })
                },
                Err(err) => err is Io && !inner.steady(),
            },
    {
        let len = match inner.seek_end() {
            Ok(len) => len,
            Err(err) => return Err(Error::Io(err)),
        };
        match inner.seek_start(0) {
            Ok(()) => {},
            Err(err) => return Err(Error::Io(err)),
        }
        Ok(Source { inner, len, at: 0, bytes_read: 0, seeks: 1, limits })
    }

    /// How many bytes the file holds.
    pub fn len(&self) -> (len: u64)
        ensures
            len == self.size(),
    {
        self.len
    }

    pub fn is_empty(&self) -> (empty: bool)
        ensures
            empty == (self.size() == 0),
    {
        self.len == 0
    }

    /// The bounds every read through this source is held to.
    pub fn limits(&self) -> (limits: &Limits)
        ensures
            *limits == self.bounds(),
    {
        &self.limits
    }

    /// What the reading has cost so far.
    pub fn tally(&self) -> (tally: Tally)
        ensures
            tally == self.cost(),
    {
        Tally { bytes_read: self.bytes_read, seeks: self.seeks, len: self.len }
    }

    /// Forgets the cost so far, so a caller can time one phase.
    pub fn reset_tally(&mut self)
        ensures
            final(self).same_as(old(self)),
            final(self).file() == old(self).file(),
            final(self).place() == old(self).place(),
            final(self).cost() == (Tally { bytes_read: 0, seeks: 0, len: old(self).size() }),
    {
        self.bytes_read = 0;
        self.seeks = 0;
    }

    /// Up to `want` bytes at `at`, short at the end of the file.
    ///
    /// The only allocation in this crate that comes from a length a file
    /// chose, and it is clamped twice first: to the bytes that actually
    /// remain, and to [`Limits::max_read`]. A `want` past the ceiling is a
    /// refusal rather than a silent truncation, because a caller that asked
    /// for a gigabyte has read a length it should not trust.
    pub fn read_at(&mut self, at: u64, want: usize) -> (bytes: Result<Vec<u8>>)
        requires
            old(self).wf(),
        ensures
            final(self).ended(old(self), bytes),
            bytes matches Err(Error::Io(_)) || seen(bytes) == read_at_spec(
                old(self).data(),
                old(self).size(),
                old(self).bounds().max_read,
                at,
                want,
            ),
            bytes matches Ok(bytes) ==> bytes@.len() == pulled(
                old(self).size(),
                old(self).bounds().max_read,
                at,
                want,
            ),
            bytes matches Ok(bytes) ==> bytes@.len() == 0 || at + bytes@.len() <= old(
                self,
            ).data().len(),
            bytes matches Err(Error::Io(_)) || final(self).cost() == charged(
                old(self).cost(),
                old(self).place(),
                at,
                pulled(old(self).size(), old(self).bounds().max_read, at, want),
            ),
    {
        if want > self.limits.max_read {
            return Err(Error::format("a value larger than this reader will hold").at(at));
        }
        if at >= self.len || want == 0 {
            return Ok(Vec::new());
        }
        let left: u64 = self.len - at;
        let take: usize = if left < want as u64 {
            left as usize
        } else {
            want
        };
        if self.at != at {
            match self.inner.seek_start(at) {
                Ok(()) => {},
                Err(err) => {
                    // Nobody knows where the head is now.
                    self.at = u64::MAX;
                    return Err(Error::Io(err));
                },
            }
            self.seeks = self.seeks.saturating_add(1);
            self.at = at;
        }
        let out = match self.inner.read_exact(take) {
            Ok(out) => out,
            Err(err) => {
                self.at = u64::MAX;
                return Err(Error::Io(err));
            },
        };
        self.at = self.at + take as u64;
        self.bytes_read = self.bytes_read.saturating_add(take as u64);
        Ok(out)
    }

    /// Exactly `want` bytes at `at`. Anything less is a truncation.
    pub fn exact_at(&mut self, at: u64, want: usize) -> (bytes: Result<Vec<u8>>)
        requires
            old(self).wf(),
        ensures
            final(self).ended(old(self), bytes),
            bytes matches Err(Error::Io(_)) || seen(bytes) == exact_at_spec(
                old(self).data(),
                old(self).size(),
                old(self).bounds().max_read,
                at,
                want,
            ),
            bytes matches Err(Error::Io(_)) || final(self).cost() == charged(
                old(self).cost(),
                old(self).place(),
                at,
                pulled(old(self).size(), old(self).bounds().max_read, at, want),
            ),
    {
        let got = self.read_at(at, want)?;
        if got.len() != want {
            return Err(Error::truncated("the file ends inside a value").at(at));
        }
        Ok(got)
    }

    /// The bytes of a span, refused when the span is not inside the file or
    /// is larger than [`Limits::max_read`].
    pub fn span(&mut self, at: u64, len: u64) -> (bytes: Result<Vec<u8>>)
        requires
            old(self).wf(),
        ensures
            final(self).ended(old(self), bytes),
            bytes matches Err(Error::Io(_)) || seen(bytes) == span_spec(
                old(self).data(),
                old(self).size(),
                old(self).bounds().max_read,
                at,
                len,
            ),
            bytes matches Err(Error::Io(_)) || len > usize::MAX || final(self).cost() == charged(
                old(self).cost(),
                old(self).place(),
                at,
                pulled(old(self).size(), old(self).bounds().max_read, at, len as usize),
            ),
    {
        if len > usize::MAX as u64 {
            return Err(Error::format("a span wider than memory").at(at));
        }
        self.exact_at(at, len as usize)
    }

    /// The reader back, for a caller that has to write as well.
    pub fn into_inner(self) -> (inner: R)
        ensures
            inner == self.file(),
    {
        self.inner
    }

    /// The reader, borrowed. Reads made through it are not counted, so this
    /// is for writing and truncating, not for scanning.
    pub fn inner_mut(&mut self) -> (inner: &mut R)
        ensures
            *inner == old(self).file(),
            final(self).file() == *final(inner),
            final(self).wf(),
            final(self).size() == old(self).size(),
            final(self).bounds() == old(self).bounds(),
            final(self).cost() == old(self).cost(),
    {
        self.at = u64::MAX;
        &mut self.inner
    }

    /// Takes note of a length the file was given by writing to it.
    pub(crate) fn resized(&mut self, len: u64)
        ensures
            final(self).file() == old(self).file(),
            final(self).place() == old(self).place(),
            final(self).bounds() == old(self).bounds(),
            final(self).size() == len,
            final(self).cost() == (Tally { len, ..old(self).cost() }),
    {
        self.len = len;
    }
}

/// A buffer that writes are appended to.
impl Medium for Vec<u8> {
    open spec fn data(&self) -> Seq<u8> {
        self@
    }

    open spec fn head(&self) -> nat {
        self@.len()
    }

    open spec fn steady(&self) -> bool {
        true
    }
}

impl Output for Vec<u8> {
    fn write_all(&mut self, bytes: &[u8]) -> (done: IoResult<()>) {
        put(self, bytes);
        assert(self@ =~= overwritten(old(self)@, old(self)@.len(), bytes@));
        Ok(())
    }

    fn flush(&mut self) -> (done: IoResult<()>) {
        Ok(())
    }
}

} // verus!
