# ffrwd-bmff

ISO base media files, read and written: MP4, MOV, 3GP and the fragmented
shape of the same boxes. Every function of the library carries a contract,
and Verus proves it, but for what is taken on trust from `std`, which is three
items:

- the type `std::io::Error` (`src/error.rs`), which is carried and never looked
  into;
- `String::push` (`src/error.rs`), which adds one character at the end;
- `std::io::Error::from` of `ErrorKind::UnexpectedEof`, behind `unexpected_end`
  (`src/source.rs`), of which nothing is claimed.

## Layout

- `src/` is the library.
  - `be` and `codes`: big-endian numbers and four-character codes.
  - `error` and `limits`: what went wrong and where, and every bound.
  - `source`: the reader everything that touches a file goes through, and
    the three traits a file implements.
  - `boxes`: the box, the walk over boxes, the cursor inside one, and the
    builders.
  - `fragment`: `moof`, `traf`, `tfhd`, `tfdt`, `trun`.
  - `tables` and `track`: sample tables, tracks, edit lists.
  - `scanner`: a byte stream cut into segments, a chunk at a time.
  - `mux`: fragments built from coded packets.
  - `patch`: a top-level box found, appended or replaced in place.
  - `roundtrip`: what the writer writes, the readers read.
- `tests/` runs it on concrete bytes.
- `app/` puts it on top of `std::io`.

## How it is stated

Each type that holds bytes has a view without them: a `Child` is a `Kid`, a
`Track` is a `Reel`, a `Scanner` is a `Scan`, a `Muxer` is a `Mux`. A spec
function over those views says what each call returns, with every error and
the input it comes for. The names that begin with `law_` are the properties
that hold across calls: chunks of a stream do not matter, nothing is lost on
the way through a scanner or a muxer, a box that was written reads back, a
packet comes out of its fragment as it went in.

Two things are decided outside and stated as such. A file may fail: then the
call ends in `Error::Io`, which a file in memory never does, and the reader can
be used again afterwards. And an allocator may refuse a table that a file does
hold, once everything in front of the table has been read: then, and only then,
the error names the table.
