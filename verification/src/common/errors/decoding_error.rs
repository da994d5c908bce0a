//! Errors raised while turning bytes into values.

use vstd::prelude::*;

verus! {

/// Why a buffer could not be decoded.
#[derive(Debug)]
pub enum DecodingErrors {
    /// More of something than is allowed: `(name, expected, found)`.
    TooMuch(String, u32, u32),
    /// Less of something than is needed: `(name, expected, found)`.
    NotEnough(String, u32, u32),
    /// A payload byte outside the alphabet of its position:
    /// `(byte, position, expected)`.
    InvalidByte(u8, u32, Vec<u8>),
    /// A byte that had to be present is missing: `(byte, name)`.
    CouldNotFind(u8, String),
    /// The buffer does not start with the tag of the requested kind:
    /// `(kind, expected, found)`.
    FirstByteError(String, u8, u8),
    /// A number does not fit the type it has to be stored in: `(from, to)`.
    SizeConversionError(String, String),
    /// A failure of a helper, with its description.
    InternalError(String),
    /// The first byte is not the tag of any scalar kind: `(byte, known)`.
    UnknownFirstByte(u8, Vec<u8>),
    /// A slot of a composite holds a value of the wrong kind:
    /// `(found, expected)`.
    InvalidTypeInCompositeType(String, String),
    /// The values of a table end in the middle of a row:
    /// `(headers, values in the last row)`.
    CantFitValues(usize, usize),
}

/// The mathematical content of a [`DecodingErrors`] value.
pub enum DecodingCause {
    TooMuch(Seq<char>, u32, u32),
    NotEnough(Seq<char>, u32, u32),
    InvalidByte(u8, u32, Seq<u8>),
    CouldNotFind(u8, Seq<char>),
    FirstByteError(Seq<char>, u8, u8),
    SizeConversionError(Seq<char>, Seq<char>),
    InternalError(Seq<char>),
    UnknownFirstByte(u8, Seq<u8>),
    InvalidTypeInCompositeType(Seq<char>, Seq<char>),
    CantFitValues(usize, usize),
}

impl View for DecodingErrors {
    type V = DecodingCause;

    open spec fn view(&self) -> DecodingCause {
        match self {
            DecodingErrors::TooMuch(name, expected, found) => DecodingCause::TooMuch(
                name@,
                *expected,
                *found,
            ),
            DecodingErrors::NotEnough(name, expected, found) => DecodingCause::NotEnough(
                name@,
                *expected,
                *found,
            ),
            DecodingErrors::InvalidByte(byte, position, expected) => DecodingCause::InvalidByte(
                *byte,
                *position,
                expected@,
            ),
            DecodingErrors::CouldNotFind(byte, name) => DecodingCause::CouldNotFind(*byte, name@),
            DecodingErrors::FirstByteError(kind, expected, found) => DecodingCause::FirstByteError(
                kind@,
                *expected,
                *found,
            ),
            DecodingErrors::SizeConversionError(from, to) => DecodingCause::SizeConversionError(
                from@,
                to@,
            ),
            DecodingErrors::InternalError(what) => DecodingCause::InternalError(what@),
            DecodingErrors::UnknownFirstByte(byte, known) => DecodingCause::UnknownFirstByte(
                *byte,
                known@,
            ),
            DecodingErrors::InvalidTypeInCompositeType(found, expected) =>
                DecodingCause::InvalidTypeInCompositeType(found@, expected@),
            DecodingErrors::CantFitValues(headers, partial) => DecodingCause::CantFitValues(
                *headers,
                *partial,
            ),
        }
    }
}

/// `TooMuch(name, expected, found)` when the count fits its field, else the
/// size conversion failure that takes its place.
pub open spec fn too_much(name: Seq<char>, expected: u32, found: nat) -> DecodingCause {
    if found <= u32::MAX {
        DecodingCause::TooMuch(name, expected, found as u32)
    } else {
        DecodingCause::SizeConversionError("usize"@, "u32"@)
    }
}

/// `NotEnough(name, expected, found)` when the count fits its field, else the
/// size conversion failure that takes its place.
pub open spec fn not_enough(name: Seq<char>, expected: u32, found: nat) -> DecodingCause {
    if found <= u32::MAX {
        DecodingCause::NotEnough(name, expected, found as u32)
    } else {
        DecodingCause::SizeConversionError("usize"@, "u32"@)
    }
}

/// `InvalidByte(byte, position, expected)` when the position fits its field,
/// else the size conversion failure that takes its place.
pub open spec fn invalid_byte(byte: u8, position: nat, expected: Seq<u8>) -> DecodingCause {
    if position <= u32::MAX {
        DecodingCause::InvalidByte(byte, position as u32, expected)
    } else {
        DecodingCause::SizeConversionError("usize"@, "u32"@)
    }
}

impl DecodingErrors {
    /// Builds [`too_much`] from a run-time count.
    pub fn too_much(name: &str, expected: u32, found: usize) -> (cause: Self)
        ensures
            cause@ == too_much(name@, expected, found as nat),
    {
        if found <= u32::MAX as usize {
            DecodingErrors::TooMuch(name.to_string(), expected, found as u32)
        } else {
            DecodingErrors::SizeConversionError("usize".to_string(), "u32".to_string())
        }
    }

    /// Builds [`not_enough`] from a run-time count.
    pub fn not_enough(name: &str, expected: u32, found: usize) -> (cause: Self)
        ensures
            cause@ == not_enough(name@, expected, found as nat),
    {
        if found <= u32::MAX as usize {
            DecodingErrors::NotEnough(name.to_string(), expected, found as u32)
        } else {
            DecodingErrors::SizeConversionError("usize".to_string(), "u32".to_string())
        }
    }

    /// Builds [`invalid_byte`] from a run-time position.
    pub fn invalid_byte(byte: u8, position: usize, expected: Vec<u8>) -> (cause: Self)
        ensures
            cause@ == invalid_byte(byte, position as nat, expected@),
    {
        if position <= u32::MAX as usize {
            DecodingErrors::InvalidByte(byte, position as u32, expected)
        } else {
            DecodingErrors::SizeConversionError("usize".to_string(), "u32".to_string())
        }
    }
}

/// A decoding failure together with the buffer and the target kind.
#[derive(Debug)]
pub struct DecodingError {
    /// The buffer that was being decoded.
    pub from: Vec<u8>,
    /// The kind that was being decoded into.
    pub to: String,
    /// What went wrong.
    pub cause: DecodingErrors,
}

/// The mathematical content of a [`DecodingError`].
pub struct DecodingFailure {
    pub from: Seq<u8>,
    pub to: Seq<char>,
    pub cause: DecodingCause,
}

impl View for DecodingError {
    type V = DecodingFailure;

    open spec fn view(&self) -> DecodingFailure {
        DecodingFailure { from: self.from@, to: self.to@, cause: self.cause@ }
    }
}

impl DecodingError {
    /// Bundles a cause with the buffer it arose from and the kind it was
    /// being decoded into.
    pub fn new(from: Vec<u8>, to: &str, cause: DecodingErrors) -> (error: Self)
        ensures
            error@ == (DecodingFailure { from: from@, to: to@, cause: cause@ }),
            error.cause == cause,
    {
        Self { from, to: to.to_string(), cause }
    }
}

pub type DecodingResult<T> = Result<T, DecodingError>;

} // verus!
