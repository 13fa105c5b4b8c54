//! The bounds, as defaults a caller may change.

use vstd::prelude::*;

use crate::error::{Error, Result};

verus! {

/// The most bytes one read will hand back.
///
/// A `moov` of a long film is a few megabytes and a sample table of thirty
/// thousand entries is far less; sixty-four megabytes is well past both and
/// well short of a length a damaged file could use to exhaust a reader.
pub const MAX_READ: usize = 0x400_0000;

/// The most samples a track may have before a read refuses it. Twenty
/// million is about six days at thirty frames a second.
pub const MAX_SAMPLES: usize = 20_000_000;

/// The most top-level boxes a file may have.
pub const MAX_TOP_LEVEL: usize = 0x10_0000;

/// The most child boxes one box's body may hold.
pub const MAX_CHILDREN: usize = 0x1_0000;

/// The most bytes the streaming scanner will hold for one box.
pub const MAX_BUFFERED_BOX: u64 = 0x400_0000;

/// Every bound in the crate, as a default a caller may change.
///
/// None of these is in the file format. They are the line between a file
/// that is merely large and a file whose numbers are a way of making a
/// reader allocate: a `stsz` claiming four billion samples is refused here
/// rather than believed and then fed to a `Vec`.
#[derive(Clone, Copy, Debug, PartialEq, Eq, Structural)]
pub struct Limits {
    /// The ceiling on one [`Source::read_at`](crate::source::Source::read_at).
    pub max_read: usize,
    /// The ceiling on a track's sample count.
    pub max_samples: usize,
    /// The ceiling on a file's top-level box count.
    pub max_top_level: usize,
    /// The ceiling on one box's child count.
    pub max_children: usize,
    /// The ceiling on a box the streaming scanner must hold whole.
    pub max_buffered_box: u64,
}

impl Limits {
    /// The bounds of a caller that names none.
    pub open spec fn usual() -> Limits {
        Limits {
            max_read: MAX_READ,
            max_samples: MAX_SAMPLES,
            max_top_level: MAX_TOP_LEVEL,
            max_children: MAX_CHILDREN,
            max_buffered_box: MAX_BUFFERED_BOX,
        }
    }
}

impl Default for Limits {
    fn default() -> (limits: Self)
        ensures
            limits == Limits::usual(),
    {
        Limits {
            max_read: MAX_READ,
            max_samples: MAX_SAMPLES,
            max_top_level: MAX_TOP_LEVEL,
            max_children: MAX_CHILDREN,
            max_buffered_box: MAX_BUFFERED_BOX,
        }
    }
}

/// A `Vec` with room for `count` items, or an error rather than an abort.
///
/// `count` has already been checked against the bytes that exist by the
/// time this is called; this is the second belt, for an allocator that
/// cannot honour a reservation the file could in principle justify. Room
/// for nothing is always there; beyond that the allocator decides, and the
/// only failure is the one the caller named.
pub fn reserved<T>(count: usize, what: &'static str) -> (out: Result<Vec<T>>)
    ensures
        match out {
            Ok(list) => list@ == Seq::<T>::empty(),
            Err(err) => count > 0 && err == Error::format(what),
        },
{
    let mut out: Vec<T> = Vec::new();
    if count > 0 && out.try_reserve(count).is_err() {
        return Err(Error::format(what));
    }
    Ok(out)
}

} // verus!
