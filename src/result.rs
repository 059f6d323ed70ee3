use vstd::prelude::*;

use crate::go::error::{GoCoverageError, GoErrorModel};
use crate::jacoco::error::{JacocoError, JacocoErrorModel};

verus! {

/// Every failure that the library reports.
#[derive(Debug, Clone, PartialEq, Eq)]
pub enum Error {
    /// A failure of the binary execution-data format.
    Jacoco(JacocoError),
    /// A failure of the textual block profile format.
    Go(GoCoverageError),
    /// The input ended inside a value that was being read.
    UnexpectedEof,
    /// A length-prefixed string whose bytes are not UTF-8; holds those bytes.
    FromUtf8(Vec<u8>),
    /// A probe count that does not fit in a length; holds the count as read.
    FromInt(i32),
    /// A decimal field that does not fit in 32 bits; holds its digits.
    ParseInt(String),
}

/// The value of an [`Error`], with strings and byte vectors as sequences.
pub enum ErrorModel {
    Jacoco(JacocoErrorModel),
    Go(GoErrorModel),
    UnexpectedEof,
    FromUtf8(Seq<u8>),
    FromInt(i32),
    ParseInt(Seq<char>),
}

impl View for Error {
    type V = ErrorModel;

    open spec fn view(&self) -> ErrorModel {
        match self {
            Error::Jacoco(e) => ErrorModel::Jacoco(e@),
            Error::Go(e) => ErrorModel::Go(e@),
            Error::UnexpectedEof => ErrorModel::UnexpectedEof,
            Error::FromUtf8(b) => ErrorModel::FromUtf8(b@),
            Error::FromInt(n) => ErrorModel::FromInt(*n),
            Error::ParseInt(s) => ErrorModel::ParseInt(s@),
        }
    }
}

/// `r` is a failure with the error `e`.
pub open spec fn fails_with<T>(r: Result<T, ErrorModel>, e: ErrorModel) -> bool {
    r == Err::<T, ErrorModel>(e)
}

} // verus!
