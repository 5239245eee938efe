//! The errors of the library.

use crate::format::Format;
use vstd::prelude::*;
use vstd::std_specs::convert::FromSpecImpl;

verus! {

/// Everything that can go wrong while serving a conversion request.
#[derive(Debug)]
pub enum BytaryError {
    /// A format name that is not one of the recognized names.
    InvalidFormat(String),
    /// No chain of registered conversions leads from the first format to the
    /// second.
    UnsupportedConversion(Format, Format),
    /// Digit text that could not be decoded; carries the offending digits.
    InvalidInputData(String),
    /// A failure of the underlying byte stream.
    Io(std::io::Error),
}

/// The outcome of an operation of the library.
pub type BytaryResult<T> = Result<T, BytaryError>;

/// The mathematical content of a [`BytaryError`]: which error it is, with
/// the texts as sequences of characters. Of the failure of a byte stream
/// nothing but that it is one.
pub enum Failure {
    /// The name that is not recognized.
    InvalidFormat(Seq<char>),
    /// The source and the target that no path joins.
    UnsupportedConversion(Format, Format),
    /// The digits that could not be decoded.
    InvalidInputData(Seq<char>),
    /// A failure of the underlying byte stream.
    Io,
}

impl View for BytaryError {
    type V = Failure;

    open spec fn view(&self) -> Failure {
        match self {
            BytaryError::InvalidFormat(name) => Failure::InvalidFormat(name@),
            BytaryError::UnsupportedConversion(from, to) => Failure::UnsupportedConversion(
                *from,
                *to,
            ),
            BytaryError::InvalidInputData(detail) => Failure::InvalidInputData(detail@),
            BytaryError::Io(_) => Failure::Io,
        }
    }
}

/// The outcome of a conversion that made `bytes`.
pub open spec fn made(bytes: Seq<u8>) -> Result<Seq<u8>, Failure> {
    Ok(bytes)
}

/// The outcome of a conversion that failed.
pub open spec fn failed(failure: Failure) -> Result<Seq<u8>, Failure> {
    Err(failure)
}

/// The mathematical content of the outcome of a conversion.
pub open spec fn outcome(r: BytaryResult<Vec<u8>>) -> Result<Seq<u8>, Failure> {
    match r {
        Ok(bytes) => Ok(bytes@),
        Err(error) => Err(error@),
    }
}

impl FromSpecImpl<std::io::Error> for BytaryError {
    open spec fn obeys_from_spec() -> bool {
        true
    }

    open spec fn from_spec(error: std::io::Error) -> BytaryError {
        BytaryError::Io(error)
    }
}

impl From<std::io::Error> for BytaryError {
    /// The failure of a byte stream as an error of the library.
    fn from(error: std::io::Error) -> (r: BytaryError) {
        BytaryError::Io(error)
    }
}

impl BytaryError {
    /// Wraps the error as the failing outcome of any operation.
    pub fn err<T>(self) -> (r: BytaryResult<T>)
        ensures
            r matches Err(error) && error == self,
    {
        Err(self)
    }
}

} // verus!
