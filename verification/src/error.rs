use vstd::prelude::*;

verus! {

/// Why a lookup or a record decode failed.
///
/// A malformed line in the database is reported, never skipped: silently
/// dropping a sense would be indistinguishable from "word not found".
#[derive(Debug, PartialEq, Eq, Structural, Clone, Copy)]
pub enum DecodeError {
    /// A numeric field is not a valid number in its declared radix,
    /// or its value does not fit the field's integer type.
    BadNumber,
    /// A grammatical-category code is not one of the known codes.
    BadPartOfSpeech,
    /// A relationship code on a cross-reference is not a known code.
    BadRelationship,
    /// A declared synonym, pointer, frame or offset count disagrees with
    /// the number of fields actually present on the line.
    CountMismatch,
    /// The line has no `"| "` delimiter introducing the gloss text.
    MissingGloss,
    /// A sense offset points past the end of the data file.
    OffsetOutOfRange,
    /// A cross-reference names a grammatical category for which the
    /// database holds no file pair.
    NoCategoryFile,
}

} // verus!
