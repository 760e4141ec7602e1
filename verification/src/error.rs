//! Why a package or a piece of evidence is refused.

use vstd::prelude::*;

verus! {

/// Why a measurement package cannot be read.
#[derive(Debug)]
pub enum ReadError {
    /// The package breaks a rule.
    Rejected(&'static str),
    /// A document of the package is not JSON, in the words of the parser.
    Json(String),
    /// A part of the package is not there.
    Missing(String),
}

/// What a [`ReadError`] says.
pub enum Fault {
    Rejected(Seq<char>),
    Json(Seq<char>),
    Missing(Seq<char>),
}

impl View for ReadError {
    type V = Fault;

    open spec fn view(&self) -> Fault {
        match self {
            ReadError::Rejected(message) => Fault::Rejected(message@),
            ReadError::Json(words) => Fault::Json(words@),
            ReadError::Missing(part) => Fault::Missing(part@),
        }
    }
}

impl Fault {
    /// The words on it.
    pub open spec fn words(self) -> Seq<char> {
        match self {
            Fault::Rejected(message) => message,
            Fault::Json(words) => words,
            Fault::Missing(part) => part,
        }
    }
}

impl ReadError {
    /// The words on the error.
    pub fn words(&self) -> (r: &str)
        ensures
            r@ == self@.words(),
    {
        match self {
            ReadError::Rejected(message) => message,
            ReadError::Json(words) => words.as_str(),
            ReadError::Missing(part) => part.as_str(),
        }
    }
}

/// The outcome of reading from a measurement package.
pub type ReadResult<T> = Result<T, ReadError>;

/// Refuses with `message` unless `ok` holds.
pub fn ensure(ok: bool, message: &'static str) -> (r: ReadResult<()>)
    ensures
        r is Ok <==> ok,
        r matches Err(e) ==> e@ == Fault::Rejected(message@),
{
    if ok {
        Ok(())
    } else {
        Err(ReadError::Rejected(message))
    }
}

/// Why the temporal refinement of a filter is refused.
#[derive(Debug)]
pub enum AutoeqError {
    /// A measurement, or a setting that it is used with, does not qualify.
    InvalidMeasurement { message: String },
}

impl View for AutoeqError {
    type V = Seq<char>;

    open spec fn view(&self) -> Seq<char> {
        match self {
            AutoeqError::InvalidMeasurement { message } => message@,
        }
    }
}

/// The refusal with `message`, marked as one of the temporal refinement.
pub open spec fn invalid_text(message: Seq<char>) -> Seq<char> {
    "temporal_fir: "@ + message
}

/// The refusal with `message`, marked as one of the temporal refinement.
pub fn invalid(message: &str) -> (r: AutoeqError)
    ensures
        r@ == invalid_text(message@),
{
    let mut marked = "temporal_fir: ".to_owned();
    marked.append(message);
    AutoeqError::InvalidMeasurement { message: marked }
}

} // verus!
