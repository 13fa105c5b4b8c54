//! What went wrong, and where.

use vstd::prelude::*;
use vstd::string::*;

verus! {

/// `std::io::Error`, carried through and never looked into.
#[verifier::external_type_specification]
#[verifier::external_body]
pub struct ExIoError(std::io::Error);

/// `String::push`: appends one character and changes nothing before it.
pub assume_specification[ String::push ](s: &mut String, c: char)
    ensures
        final(s)@ == old(s)@.push(c),
;

/// What went wrong, said without allocating.
///
/// Every message is a `&'static str`, so an error costs nothing to build on
/// a path that is already going badly. The offset is the file or stream
/// position the trouble was found at, where the parser knew it, and the box
/// kind is the four characters of the box it was inside.
#[derive(Clone, Copy, Debug, PartialEq, Eq)]
pub struct Fault {
    /// What the rule was.
    pub what: &'static str,
    /// Where in the file or stream, where that is known.
    pub at: Option<u64>,
    /// Which box, where that is known.
    pub kind: Option<[u8; 4]>,
}

/// A number in decimal, without leading zeros.
pub open spec fn decimal(n: nat) -> Seq<char>
    decreases n,
{
    if n < 10 {
        seq![(48 + n) as char]
    } else {
        decimal(n / 10).push((48 + n % 10) as char)
    }
}

/// One byte of a box kind as a message shows it: itself where it is a
/// visible ASCII character, a dot where it is not.
pub open spec fn shown(byte: u8) -> char {
    if 0x21 <= byte <= 0x7e {
        byte as char
    } else {
        '.'
    }
}

/// The four characters of a box kind as a message shows them.
pub open spec fn shown_kind(kind: [u8; 4]) -> Seq<char> {
    seq![shown(kind[0]), shown(kind[1]), shown(kind[2]), shown(kind[3])]
}

impl Fault {
    /// A fault that knows the rule and nothing else.
    pub open spec fn plain(what: &'static str) -> Fault {
        Fault { what, at: None, kind: None }
    }

    /// The sentence a fault is printed as: the rule, then the box, then the
    /// byte, each where it is known.
    pub open spec fn sentence(self) -> Seq<char> {
        let boxed = match self.kind {
            Some(kind) => " in '"@ + shown_kind(kind) + "'"@,
            None => Seq::empty(),
        };
        let placed = match self.at {
            Some(at) => " at byte "@ + decimal(at as nat),
            None => Seq::empty(),
        };
        self.what@ + boxed + placed
    }

    #[verifier::when_used_as_spec(plain)]
    pub fn new(what: &'static str) -> (fault: Self)
        ensures
            fault == Fault::plain(what),
    {
        Fault { what, at: None, kind: None }
    }

    /// The fault as a sentence.
    pub fn to_string(&self) -> (text: String)
        ensures
            text@ == self.sentence(),
    {
        let mut out = String::new();
        out.append(self.what);
        let ghost what = out@;
        assert(what == self.what@);
        if let Some(kind) = self.kind {
            out.append(" in '");
            push_shown(&mut out, kind[0]);
            push_shown(&mut out, kind[1]);
            push_shown(&mut out, kind[2]);
            push_shown(&mut out, kind[3]);
            out.append("'");
            assert(out@ == what + (" in '"@ + shown_kind(kind) + "'"@));
        }
        let ghost boxed = out@;
        if let Some(at) = self.at {
            out.append(" at byte ");
            push_decimal(&mut out, at);
            assert(out@ == boxed + (" at byte "@ + decimal(at as nat)));
        }
        assert(out@ == self.sentence());
        out
    }
}

impl Default for Fault {
    fn default() -> (fault: Self)
        ensures
            fault == Fault::plain(""),
    {
        Fault { what: "", at: None, kind: None }
    }
}

fn push_shown(out: &mut String, byte: u8)
    ensures
        final(out)@ == old(out)@.push(shown(byte)),
{
    if 0x21 <= byte && byte <= 0x7e {
        out.push(byte as char);
    } else {
        out.push('.');
    }
}

fn push_decimal(out: &mut String, n: u64)
    ensures
        final(out)@ == old(out)@ + decimal(n as nat),
    decreases n,
{
    let ghost before = out@;
    if n >= 10 {
        push_decimal(out, n / 10);
    }
    out.push((48 + (n % 10) as u8) as char);
    assert(out@ == before + decimal(n as nat));
}

/// The one error this crate returns.
///
/// The three kinds are worth keeping apart: a [`Truncated`] stream may be
/// complete later, a [`Format`] one never will be, and an [`Unsupported`]
/// one is well formed and simply not something this crate carries.
///
/// [`Truncated`]: Error::Truncated
/// [`Format`]: Error::Format
/// [`Unsupported`]: Error::Unsupported
#[derive(Debug)]
pub enum Error {
    /// The file would not read.
    Io(std::io::Error),
    /// The bytes are not the shape the format's own rules require.
    Format(Fault),
    /// The bytes end inside something that is not finished.
    Truncated(Fault),
    /// A well-formed shape this crate does not carry, said rather than
    /// guessed at.
    Unsupported(Fault),
}

/// The crate's result.
pub type Result<T> = core::result::Result<T, Error>;

/// Whether what came back is no failure of the file underneath.
pub open spec fn settled<T>(result: Result<T>) -> bool {
    !(result matches Err(Error::Io(_)))
}

/// A result whose value is a vector, by what the vector holds.
pub open spec fn seen<T>(result: Result<Vec<T>>) -> Result<Seq<T>> {
    match result {
        Ok(list) => Ok(list@),
        Err(err) => Err(err),
    }
}

impl Error {
    pub open spec fn format_spec(what: &'static str) -> Error {
        Error::Format(Fault::new(what))
    }

    pub open spec fn truncated_spec(what: &'static str) -> Error {
        Error::Truncated(Fault::new(what))
    }

    pub open spec fn unsupported_spec(what: &'static str) -> Error {
        Error::Unsupported(Fault::new(what))
    }

    /// The fault inside, for everything but an I/O failure.
    pub open spec fn inner(self) -> Option<Fault> {
        match self {
            Error::Io(_) => None,
            Error::Format(fault) => Some(fault),
            Error::Truncated(fault) => Some(fault),
            Error::Unsupported(fault) => Some(fault),
        }
    }

    /// The same kind of error around another fault. An I/O failure has no
    /// fault to exchange.
    pub open spec fn around(self, fault: Fault) -> Error {
        match self {
            Error::Io(err) => Error::Io(err),
            Error::Format(_) => Error::Format(fault),
            Error::Truncated(_) => Error::Truncated(fault),
            Error::Unsupported(_) => Error::Unsupported(fault),
        }
    }

    pub open spec fn at_spec(self, at: u64) -> Error {
        match self.inner() {
            Some(fault) if fault.at is None => self.around(Fault { at: Some(at), ..fault }),
            _ => self,
        }
    }

    pub open spec fn in_box_spec(self, kind: [u8; 4]) -> Error {
        match self.inner() {
            Some(fault) if fault.kind is None => self.around(Fault { kind: Some(kind), ..fault }),
            _ => self,
        }
    }

    #[verifier::when_used_as_spec(format_spec)]
    pub fn format(what: &'static str) -> (err: Self)
        ensures
            err == Error::format_spec(what),
    {
        Error::Format(Fault::new(what))
    }

    #[verifier::when_used_as_spec(truncated_spec)]
    pub fn truncated(what: &'static str) -> (err: Self)
        ensures
            err == Error::truncated_spec(what),
    {
        Error::Truncated(Fault::new(what))
    }

    #[verifier::when_used_as_spec(unsupported_spec)]
    pub fn unsupported(what: &'static str) -> (err: Self)
        ensures
            err == Error::unsupported_spec(what),
    {
        Error::Unsupported(Fault::new(what))
    }

    /// The offset, filled in only when the error does not carry one
    /// already: the innermost parser that knew where it was wins.
    #[verifier::when_used_as_spec(at_spec)]
    pub fn at(self, at: u64) -> (err: Self)
        ensures
            err == self.at_spec(at),
    {
        match self {
            Error::Io(err) => Error::Io(err),
            Error::Format(fault) => Error::Format(fault_at(fault, at)),
            Error::Truncated(fault) => Error::Truncated(fault_at(fault, at)),
            Error::Unsupported(fault) => Error::Unsupported(fault_at(fault, at)),
        }
    }

    /// The box the trouble was inside, filled in the same way.
    #[verifier::when_used_as_spec(in_box_spec)]
    pub fn in_box(self, kind: [u8; 4]) -> (err: Self)
        ensures
            err == self.in_box_spec(kind),
    {
        match self {
            Error::Io(err) => Error::Io(err),
            Error::Format(fault) => Error::Format(fault_in(fault, kind)),
            Error::Truncated(fault) => Error::Truncated(fault_in(fault, kind)),
            Error::Unsupported(fault) => Error::Unsupported(fault_in(fault, kind)),
        }
    }

    /// Where the trouble was, where the parser knew.
    pub fn offset(&self) -> (at: Option<u64>)
        ensures
            at == (match self.inner() {
                Some(fault) => fault.at,
                None => None,
            }),
    {
        match self.fault() {
            Some(fault) => fault.at,
            None => None,
        }
    }

    /// The fault behind the error, for everything but an I/O failure.
    pub fn fault(&self) -> (fault: Option<&Fault>)
        ensures
            match fault {
                Some(fault) => self.inner() == Some(*fault),
                None => self.inner() is None,
            },
    {
        match self {
            Error::Io(_) => None,
            Error::Format(fault) => Some(fault),
            Error::Truncated(fault) => Some(fault),
            Error::Unsupported(fault) => Some(fault),
        }
    }

    /// The error as a sentence: its fault's, or what the I/O failure says of
    /// itself.
    pub fn to_string(&self) -> (text: String)
        ensures
            self.inner() matches Some(fault) ==> text@ == fault.sentence(),
            *self matches Error::Io(err) ==> to_string_from_display_ensures::<std::io::Error>(
                &err,
                text,
            ),
    {
        match self {
            Error::Io(err) => err.to_string(),
            Error::Format(fault) => fault.to_string(),
            Error::Truncated(fault) => fault.to_string(),
            Error::Unsupported(fault) => fault.to_string(),
        }
    }
}

fn fault_at(fault: Fault, at: u64) -> (out: Fault)
    ensures
        out == (if fault.at is None {
            Fault { at: Some(at), ..fault }
        } else {
            fault
        }),
{
    if fault.at.is_none() {
        Fault { at: Some(at), ..fault }
    } else {
        fault
    }
}

fn fault_in(fault: Fault, kind: [u8; 4]) -> (out: Fault)
    ensures
        out == (if fault.kind is None {
            Fault { kind: Some(kind), ..fault }
        } else {
            fault
        }),
{
    if fault.kind.is_none() {
        Fault { kind: Some(kind), ..fault }
    } else {
        fault
    }
}

impl From<std::io::Error> for Error {
    fn from(err: std::io::Error) -> (out: Self) {
        Error::Io(err)
    }
}

impl vstd::std_specs::convert::FromSpecImpl<std::io::Error> for Error {
    open spec fn obeys_from_spec() -> bool {
        true
    }

    open spec fn from_spec(err: std::io::Error) -> Error {
        Error::Io(err)
    }
}

/// The innermost parser that knew where it was wins: once an error carries
/// an offset, no later one replaces it.
pub proof fn law_inner_offset_wins(err: Error, inner: u64, outer: u64)
    ensures
        err.at(inner).at(outer) == err.at(inner),
{
}

/// The innermost box wins in the same way.
pub proof fn law_inner_box_wins(err: Error, inner: [u8; 4], outer: [u8; 4])
    ensures
        err.in_box(inner).in_box(outer) == err.in_box(inner),
{
}

/// The offset and the box are independent: the order in which an error
/// learns of them does not matter.
pub proof fn law_offset_and_box_commute(err: Error, at: u64, kind: [u8; 4])
    ensures
        err.at(at).in_box(kind) == err.in_box(kind).at(at),
{
}

/// What a row of decimal digits counts.
pub open spec fn counted(digits: Seq<char>) -> nat
    decreases digits.len(),
{
    if digits.len() == 0 {
        0
    } else {
        counted(digits.drop_last()) * 10 + (digits.last() as nat - 48) as nat
    }
}

/// A number in decimal is made of digits, counts what the number is, and has
/// no zero in front unless it is zero.
pub proof fn law_a_number_reads_back(n: nat)
    ensures
        counted(decimal(n)) == n,
        decimal(n).len() > 0,
        forall|k: int| 0 <= k < decimal(n).len() ==> '0' <= #[trigger] decimal(n)[k] <= '9',
        n > 0 ==> decimal(n)[0] != '0',
    decreases n,
{
    let text = decimal(n);
    if n < 10 {
        assert(text.drop_last() =~= Seq::empty());
        assert(counted(text.drop_last()) == 0);
    } else {
        law_a_number_reads_back(n / 10);
        assert(text.drop_last() =~= decimal(n / 10));
    }
}

/// An error begins with its rule and nothing else, and an offset or a box that
/// it learns of first is the one it keeps. Only an I/O failure learns of
/// neither.
pub proof fn law_what_an_error_knows(what: &'static str, at: u64, kind: [u8; 4])
    ensures
        Error::format(what) == Error::Format(Fault { what, at: None, kind: None }),
        Error::truncated(what) == Error::Truncated(Fault { what, at: None, kind: None }),
        Error::unsupported(what) == Error::Unsupported(Fault { what, at: None, kind: None }),
        Error::format(what).at(at).in_box(kind) == Error::Format(
            Fault { what, at: Some(at), kind: Some(kind) },
        ),
        Error::truncated(what).at(at).in_box(kind) == Error::Truncated(
            Fault { what, at: Some(at), kind: Some(kind) },
        ),
        Error::unsupported(what).at(at).in_box(kind) == Error::Unsupported(
            Fault { what, at: Some(at), kind: Some(kind) },
        ),
        forall|err: std::io::Error| #[trigger] Error::Io(err).at(at) == Error::Io(err),
        forall|err: std::io::Error| #[trigger] Error::Io(err).in_box(kind) == Error::Io(err),
{
}

} // verus!
