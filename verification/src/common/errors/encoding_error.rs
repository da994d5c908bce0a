//! Errors raised while turning values into bytes.

use vstd::prelude::*;

verus! {

/// Why a value could not be encoded.
#[derive(Debug)]
pub enum EncodingErrors {
    /// The bytes could be written, but would not decode to the same value.
    DecodedWouldOverflow,
    /// The value is not one that the kind can carry, with the reason.
    InvalidValue(String),
    /// A number does not fit the type it has to be stored in: `(from, to)`.
    SizeConversionError(String, String),
    /// A failure of a helper, with its description.
    InternalError(String),
    /// A table row whose length differs from the number of headers:
    /// `(headers, row length)`.
    TableMisfit(usize, usize),
}

/// The mathematical content of an [`EncodingErrors`] value.
pub enum EncodingCause {
    DecodedWouldOverflow,
    InvalidValue(Seq<char>),
    SizeConversionError(Seq<char>, Seq<char>),
    InternalError(Seq<char>),
    TableMisfit(usize, usize),
}

impl View for EncodingErrors {
    type V = EncodingCause;

    open spec fn view(&self) -> EncodingCause {
        match self {
            EncodingErrors::DecodedWouldOverflow => EncodingCause::DecodedWouldOverflow,
            EncodingErrors::InvalidValue(reason) => EncodingCause::InvalidValue(reason@),
            EncodingErrors::SizeConversionError(from, to) => EncodingCause::SizeConversionError(
                from@,
                to@,
            ),
            EncodingErrors::InternalError(what) => EncodingCause::InternalError(what@),
            EncodingErrors::TableMisfit(headers, row) => EncodingCause::TableMisfit(
                *headers,
                *row,
            ),
        }
    }
}

/// An encoding failure together with a description of the value and the
/// target kind.
#[derive(Debug)]
pub struct EncodingError {
    /// What was being encoded.
    pub from: String,
    /// The kind that was being encoded into.
    pub to: String,
    /// What went wrong.
    pub origin: EncodingErrors,
}

/// The mathematical content of an [`EncodingError`].
pub struct EncodingFailure {
    pub from: Seq<char>,
    pub to: Seq<char>,
    pub origin: EncodingCause,
}

impl View for EncodingError {
    type V = EncodingFailure;

    open spec fn view(&self) -> EncodingFailure {
        EncodingFailure { from: self.from@, to: self.to@, origin: self.origin@ }
    }
}

impl EncodingError {
    /// Bundles an origin with a description of the value and the kind it was
    /// being encoded into.
    pub fn new(from: &str, to: &str, origin: EncodingErrors) -> (error: Self)
        ensures
            error@ == (EncodingFailure { from: from@, to: to@, origin: origin@ }),
    {
        Self { from: from.to_string(), to: to.to_string(), origin }
    }
}

pub type EncodingResult<T> = Result<T, EncodingError>;

} // verus!
