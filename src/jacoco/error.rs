use vstd::prelude::*;

verus! {

/// Failures of the binary execution-data format.
#[derive(Debug, Clone, PartialEq, Eq)]
pub enum JacocoError {
    /// The header's magic number is not `0xC0C0`; holds the value read.
    WrongMagicHeader(i16),
    /// The header's format version is not `0x1007`; holds the value read.
    WrongFormatVersion(i16),
    /// A block tag other than `0x01`, `0x10` and `0x11`; holds the tag.
    WrongBlockType(u8),
    /// The first block of the stream is not a header.
    InvalidFile,
    /// A session time stamp outside the representable range of instants.
    InvalidTimestamp(i64),
    /// Records with different class ids were merged.
    IllegalStateDifferentIds(i64, i64),
    /// Records with one class id but different class names were merged.
    IllegalStateDifferentNames(String, String, i64),
    /// Records of one class with probe arrays of different lengths were merged.
    IllegalStateIncompatibleProbes(String, i64),
    /// A variable-length integer with more groups than a 32-bit value has.
    VarIntTooLong,
}

/// The value of a [`JacocoError`], with strings as character sequences.
pub enum JacocoErrorModel {
    WrongMagicHeader(i16),
    WrongFormatVersion(i16),
    WrongBlockType(u8),
    InvalidFile,
    InvalidTimestamp(i64),
    IllegalStateDifferentIds(i64, i64),
    IllegalStateDifferentNames(Seq<char>, Seq<char>, i64),
    IllegalStateIncompatibleProbes(Seq<char>, i64),
    VarIntTooLong,
}

impl View for JacocoError {
    type V = JacocoErrorModel;

    open spec fn view(&self) -> JacocoErrorModel {
        match self {
            JacocoError::WrongMagicHeader(v) => JacocoErrorModel::WrongMagicHeader(*v),
            JacocoError::WrongFormatVersion(v) => JacocoErrorModel::WrongFormatVersion(*v),
            JacocoError::WrongBlockType(v) => JacocoErrorModel::WrongBlockType(*v),
            JacocoError::InvalidFile => JacocoErrorModel::InvalidFile,
            JacocoError::InvalidTimestamp(v) => JacocoErrorModel::InvalidTimestamp(*v),
            JacocoError::IllegalStateDifferentIds(a, b) => JacocoErrorModel::IllegalStateDifferentIds(
                *a,
                *b,
            ),
            JacocoError::IllegalStateDifferentNames(a, b, id) =>
                JacocoErrorModel::IllegalStateDifferentNames(a@, b@, *id),
            JacocoError::IllegalStateIncompatibleProbes(n, id) =>
                JacocoErrorModel::IllegalStateIncompatibleProbes(n@, *id),
            JacocoError::VarIntTooLong => JacocoErrorModel::VarIntTooLong,
        }
    }
}

} // verus!
