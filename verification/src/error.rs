//! The closed taxonomy of decoding failures.

use vstd::prelude::*;

verus! {

/// Everything that can go wrong while decoding Goff text.
///
/// Every error is terminal: it is built at the failure site and handed back
/// to the caller of the decode unchanged, with no recovery or retry anywhere
/// in the engine. No error carries a position.
#[derive(Debug, Clone)]
pub enum Error {
    /// The input ended where more was required.
    Eof,
    /// A boolean (`yes` or `no`) was required, but the input holds neither.
    ExpectedBoolean,
    /// An integer was required, but the input does not start with a digit.
    ExpectedInteger,
    /// The integer literal does not fit the destination width.
    IntegerOverflow,
    /// A redundant leading `+` stood before an integer.
    ExpectedSign,
    /// A string was required, but the input does not start with `'`.
    ExpectedString,
    /// The input ended inside a string, before its closing `'`.
    NoEndQuote,
    /// A real number was required. Reserved: the real grammar is deferred,
    /// so the engine never produces this kind.
    ExpectedReal,
    /// An optional value failed to decode and the input looks like a
    /// misspelt `nothing` marker (it starts with `n`).
    ExpectedNothing,
    /// Structure syntax was violated: a missing `(`, a malformed key,
    /// a missing `=`, or a missing separator between assignments.
    ExpectedStruct,
    /// Sequence syntax was violated: a missing `[`, or a missing `,`
    /// between elements.
    ExpectedSeq,
    /// A structure key does not name any expected field. Carries the key,
    /// with hyphens already folded to underscores.
    UnknownField(String),
    /// A structure key named a field that was already assigned. Carries the
    /// key, with hyphens already folded to underscores.
    DuplicateField(String),
    /// An expected field was never assigned by the end of the structure.
    /// Carries the field's name. The engine only surfaces which fields were
    /// seen; callers without a default for the field report this kind.
    MissingField(String),
    /// The structural nesting of the input exceeds the caller's depth limit.
    NestingTooDeep,
    /// Content stood where none was expected: input left over after a
    /// complete top-level value, or a position where no value grammar
    /// applies.
    UnexpectedEnd,
}

impl Error {
    /// Structural equality, comparing carried field names by their text.
    pub open spec fn eq_spec_def(&self, other: &Error) -> bool {
        match (self, other) {
            (Error::Eof, Error::Eof) => true,
            (Error::ExpectedBoolean, Error::ExpectedBoolean) => true,
            (Error::ExpectedInteger, Error::ExpectedInteger) => true,
            (Error::IntegerOverflow, Error::IntegerOverflow) => true,
            (Error::ExpectedSign, Error::ExpectedSign) => true,
            (Error::ExpectedString, Error::ExpectedString) => true,
            (Error::NoEndQuote, Error::NoEndQuote) => true,
            (Error::ExpectedReal, Error::ExpectedReal) => true,
            (Error::ExpectedNothing, Error::ExpectedNothing) => true,
            (Error::ExpectedStruct, Error::ExpectedStruct) => true,
            (Error::ExpectedSeq, Error::ExpectedSeq) => true,
            (Error::UnknownField(a), Error::UnknownField(b)) => a@ == b@,
            (Error::DuplicateField(a), Error::DuplicateField(b)) => a@ == b@,
            (Error::MissingField(a), Error::MissingField(b)) => a@ == b@,
            (Error::NestingTooDeep, Error::NestingTooDeep) => true,
            (Error::UnexpectedEnd, Error::UnexpectedEnd) => true,
            _ => false,
        }
    }

    /// The text of [`Error::message`], one line per kind.
    pub open spec fn message_spec(&self) -> Seq<char> {
        match self {
            Error::Eof => "End-of-file"@,
            Error::ExpectedBoolean => "Expected a boolean"@,
            Error::ExpectedInteger => "Expected an integer"@,
            Error::IntegerOverflow => "Integer too large for its type"@,
            Error::ExpectedSign => "Expected an integer sign"@,
            Error::ExpectedString => "Expected a string"@,
            Error::NoEndQuote => "EOF without closing string"@,
            Error::ExpectedReal => "Expected a real"@,
            Error::ExpectedNothing => "Expected a nothing"@,
            Error::ExpectedStruct => "Expected a structure"@,
            Error::ExpectedSeq => "Expected a sequence"@,
            Error::UnknownField(_) => "Unknown field"@,
            Error::DuplicateField(_) => "Duplicate field"@,
            Error::MissingField(_) => "Missing field"@,
            Error::NestingTooDeep => "Nesting too deep"@,
            Error::UnexpectedEnd => "Unexpected content"@,
        }
    }

    /// A short description of the failure, for diagnostics.
    pub fn message(&self) -> (r: String)
        ensures
            r@ == self.message_spec(),
    {
        match self {
            Error::Eof => "End-of-file".to_owned(),
            Error::ExpectedBoolean => "Expected a boolean".to_owned(),
            Error::ExpectedInteger => "Expected an integer".to_owned(),
            Error::IntegerOverflow => "Integer too large for its type".to_owned(),
            Error::ExpectedSign => "Expected an integer sign".to_owned(),
            Error::ExpectedString => "Expected a string".to_owned(),
            Error::NoEndQuote => "EOF without closing string".to_owned(),
            Error::ExpectedReal => "Expected a real".to_owned(),
            Error::ExpectedNothing => "Expected a nothing".to_owned(),
            Error::ExpectedStruct => "Expected a structure".to_owned(),
            Error::ExpectedSeq => "Expected a sequence".to_owned(),
            Error::UnknownField(_) => "Unknown field".to_owned(),
            Error::DuplicateField(_) => "Duplicate field".to_owned(),
            Error::MissingField(_) => "Missing field".to_owned(),
            Error::NestingTooDeep => "Nesting too deep".to_owned(),
            Error::UnexpectedEnd => "Unexpected content".to_owned(),
        }
    }
}

impl PartialEq for Error {
    fn eq(&self, other: &Error) -> (r: bool) {
        match (self, other) {
            (Error::Eof, Error::Eof) => true,
            (Error::ExpectedBoolean, Error::ExpectedBoolean) => true,
            (Error::ExpectedInteger, Error::ExpectedInteger) => true,
            (Error::IntegerOverflow, Error::IntegerOverflow) => true,
            (Error::ExpectedSign, Error::ExpectedSign) => true,
            (Error::ExpectedString, Error::ExpectedString) => true,
            (Error::NoEndQuote, Error::NoEndQuote) => true,
            (Error::ExpectedReal, Error::ExpectedReal) => true,
            (Error::ExpectedNothing, Error::ExpectedNothing) => true,
            (Error::ExpectedStruct, Error::ExpectedStruct) => true,
            (Error::ExpectedSeq, Error::ExpectedSeq) => true,
            (Error::UnknownField(a), Error::UnknownField(b)) => *a == *b,
            (Error::DuplicateField(a), Error::DuplicateField(b)) => *a == *b,
            (Error::MissingField(a), Error::MissingField(b)) => *a == *b,
            (Error::NestingTooDeep, Error::NestingTooDeep) => true,
            (Error::UnexpectedEnd, Error::UnexpectedEnd) => true,
            _ => false,
        }
    }
}

impl vstd::std_specs::cmp::PartialEqSpecImpl for Error {
    open spec fn obeys_eq_spec() -> bool {
        true
    }

    open spec fn eq_spec(&self, other: &Error) -> bool {
        self.eq_spec_def(other)
    }
}

} // verus!
