//! The structured failure that every parser reports.

use vstd::prelude::*;
use vstd::string::StringExecFns;

verus! {

/// The grammar rule at which a parser gave up.
#[derive(Debug, Clone, Copy, PartialEq, Eq, Hash)]
pub enum ErrorKind {
    Tag,
    MapRes,
    MapOpt,
    Alt,
    IsNot,
    IsA,
    SeparatedList,
    SeparatedNonEmptyList,
    Many0,
    Many1,
    ManyTill,
    Count,
    TakeUntil,
    LengthValue,
    TagClosure,
    Alpha,
    Digit,
    HexDigit,
    OctDigit,
    AlphaNumeric,
    Space,
    MultiSpace,
    LengthValueFn,
    Eof,
    Switch,
    TagBits,
    OneOf,
    NoneOf,
    Char,
    CrLf,
    RegexpMatch,
    RegexpMatches,
    RegexpFind,
    RegexpCapture,
    RegexpCaptures,
    TakeWhile1,
    Complete,
    Fix,
    Escaped,
    EscapedTransform,
    NonEmpty,
    ManyMN,
    Not,
    Permutation,
    Verify,
    TakeTill1,
    TakeWhileMN,
    TooLarge,
    Many0Count,
    Many1Count,
    Float,
    Satisfy,
    Fail,
}

/// What went wrong: a named violation of the format's structure, or a
/// grammar rule that did not match.
#[derive(Debug, Clone, Copy, PartialEq, Eq, Hash)]
pub enum BencodeSchemaErrorKinds {
    /// The keys of a dictionary do not appear in ascending order. Reserved:
    /// no parser of this crate raises it.
    DictNotInLexicographicalOrder,
    /// A grammar rule did not match.
    NomInternal(ErrorKind),
}

/// A failure: a trace of context frames for a human reader, and the kind of
/// the outermost frame.
#[derive(Debug, PartialEq, Eq)]
pub struct BencodeSchemaError {
    message: String,
    kind: BencodeSchemaErrorKinds,
}

/// The mathematical content of a [`BencodeSchemaError`].
pub ghost struct Failure {
    pub message: Seq<char>,
    pub kind: BencodeSchemaErrorKinds,
}

/// The line of text that describes one context frame: the rule `kind` failed
/// where `input` was left to read.
pub uninterp spec fn frame_text(kind: ErrorKind, input: Seq<u8>) -> Seq<char>;

/// The failure of the rule `kind` where `input` was left to read.
pub open spec fn failure_at(input: Seq<u8>, kind: ErrorKind) -> Failure {
    Failure { message: frame_text(kind, input), kind: BencodeSchemaErrorKinds::NomInternal(kind) }
}

/// The failure `inner` seen from the enclosing rule `kind`, which had `input`
/// left to read: the new frame stands in front of the trace so far.
pub open spec fn failure_within(input: Seq<u8>, kind: ErrorKind, inner: Failure) -> Failure {
    Failure {
        message: frame_text(kind, input) + inner.message,
        kind: BencodeSchemaErrorKinds::NomInternal(kind),
    }
}

/// Renders one context frame with `std::format!`: the `Debug` form of the
/// rule, a colon and a tab, the `Debug` form of the bytes left to read, and a
/// newline. The text depends on the two arguments alone; the contract gives
/// it the name [`frame_text`] and says nothing else of it.
#[verifier::external_body]
fn render_frame(kind: ErrorKind, input: &[u8]) -> (line: String)
    ensures
        line@ == frame_text(kind, input@),
{
    format!("{:?}:\t{:?}\n", kind, input)
}

impl View for BencodeSchemaError {
    type V = Failure;

    closed spec fn view(&self) -> Failure {
        Failure { message: self.message@, kind: self.kind }
    }
}

impl BencodeSchemaError {
    /// A failure with the given trace and kind.
    pub fn new(message: String, kind: BencodeSchemaErrorKinds) -> (e: Self)
        ensures
            e@ == (Failure { message: message@, kind }),
    {
        Self { message, kind }
    }

    /// The failure of the grammar rule `kind` at the point where `input` was
    /// left to read.
    pub fn from_error_kind(input: &[u8], kind: ErrorKind) -> (e: Self)
        ensures
            e@ == failure_at(input@, kind),
    {
        let message = render_frame(kind, input);
        Self { message, kind: BencodeSchemaErrorKinds::NomInternal(kind) }
    }

    /// Wraps the failure `other` in a frame for the enclosing rule `kind`,
    /// which had `input` left to read. The new frame's line is put in front
    /// of the trace, and the kind becomes that of the new frame.
    pub fn append(input: &[u8], kind: ErrorKind, other: Self) -> (e: Self)
        ensures
            e@ == failure_within(input@, kind, other@),
    {
        let line = render_frame(kind, input);
        let message = line.concat(other.message.as_str());
        Self { message, kind: BencodeSchemaErrorKinds::NomInternal(kind) }
    }

    /// The trace of context frames, outermost first.
    pub fn message(&self) -> (m: &str)
        ensures
            m@ == self@.message,
    {
        self.message.as_str()
    }

    /// The kind of the outermost frame.
    pub fn kind(&self) -> (k: BencodeSchemaErrorKinds)
        ensures
            k == self@.kind,
    {
        self.kind
    }
}

} // verus!
