//! ISO base media files, read and written: MP4, MOV, 3GP, and the
//! fragmented shape of the same boxes.
//!
//! One box-walking layer serves four callers. A **reader** over anything
//! that reads and seeks, which finds a track and every sample of it without
//! pulling a picture into memory ([`source`], [`track`], [`tables`],
//! [`fragment`]). A **scanner** that cuts a byte stream arriving a chunk at
//! a time into an init segment and one fragment per `moof` ([`scanner`]). A
//! **writer** that builds the `ftyp`+`moov` a decoder needs and the
//! `moof`+`mdat` fragments after it ([`mux`]). And a **patcher** that finds,
//! appends or replaces a top-level box in place, for a file that has to
//! carry something that is not media ([`patch`]). What the writer and the
//! readers have to do with each other is stated in [`roundtrip`].
//!
//! Three properties shape all of it.
//!
//! **It is parsing strangers' files.** No buffer is ever sized from a number
//! a file chose without that number being checked against the bytes that
//! actually exist first. [`Source::read_at`] is the only place in the crate
//! where a length becomes a file read, and [`boxes::Bytes::count`] is the
//! only place a table header becomes a `Vec`. Truncations and random bytes
//! come back as [`Error`], never as a panic and never as a gigabyte of
//! zeroes. The limits are in [`Limits`] and every one of them is a default a
//! caller can change.
//!
//! **It knows nothing about codecs.** A decoder configuration record
//! (`avcC`, `hvcC`, `av1C`, an `esds` payload) is an opaque byte slice this
//! crate carries from a sample entry to a caller, or from a caller into one.
//!
//! **It has no dependencies**, and every function in it is proved to do what
//! its contract says, but for three items of `std` that are taken on trust: the
//! type `std::io::Error`, `String::push`, and the making of an end-of-file
//! error.

pub mod be;
pub mod boxes;
pub mod codes;
pub mod error;
pub mod fragment;
pub mod layout;
pub mod layout_boxes;
pub mod layout_init;
pub mod layout_movie;
pub mod layout_samples;
pub mod layout_track;
pub mod limits;
pub mod mux;
pub mod patch;
pub mod patched;
pub mod roundtrip;
pub mod scanner;
pub mod source;
pub mod streamed;
pub mod tables;
pub mod time;
pub mod track;
pub mod written;

pub use boxes::{boxed, full_boxed, uuid_boxed, BoxHeader, BoxSize, BoxSpan, Bytes, Child};
pub use error::{Error, Fault, Result};
pub use limits::{
    reserved, Limits, MAX_BUFFERED_BOX, MAX_CHILDREN, MAX_READ, MAX_SAMPLES, MAX_TOP_LEVEL,
};
pub use source::{Source, Tally};
pub use time::{ms, rescale, ticks_to_micros};
pub use track::{Edit, Handler, Pick, Sample, SampleEntry, Track, TrexDefaults};
