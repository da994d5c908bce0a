//! The error type shared by every codec operation.

use super::decoding_error::{DecodingCause, DecodingError, DecodingFailure};
use super::encoding_error::{EncodingCause, EncodingError, EncodingFailure};
use vstd::prelude::*;

verus! {

/// Failure of a codec operation: either of an encoder or of a decoder.
#[derive(Debug)]
pub enum TypeError {
    Encoding(EncodingError),
    Decoding(DecodingError),
}

/// The mathematical content of a [`TypeError`].
pub enum TypeFailure {
    Encoding(EncodingFailure),
    Decoding(DecodingFailure),
}

impl View for TypeError {
    type V = TypeFailure;

    open spec fn view(&self) -> TypeFailure {
        match self {
            TypeError::Encoding(e) => TypeFailure::Encoding(e@),
            TypeError::Decoding(e) => TypeFailure::Decoding(e@),
        }
    }
}

/// The failure of decoding `from` into the kind `to` for the reason `cause`.
pub open spec fn decoding_failure(
    from: Seq<u8>,
    to: Seq<char>,
    cause: DecodingCause,
) -> TypeFailure {
    TypeFailure::Decoding(DecodingFailure { from, to, cause })
}

/// The failure of decoding `from`, which starts with another byte than the
/// tag of the kind `kind`.
pub open spec fn first_byte_failure(from: Seq<u8>, kind: Seq<char>, tag: u8) -> TypeFailure
    recommends
        from.len() > 0,
{
    decoding_failure(from, kind, DecodingCause::FirstByteError(kind, tag, from[0]))
}

/// The failure of encoding what `from` describes into the kind `to` for the
/// reason `origin`.
pub open spec fn encoding_failure(
    from: Seq<char>,
    to: Seq<char>,
    origin: EncodingCause,
) -> TypeFailure {
    TypeFailure::Encoding(EncodingFailure { from, to, origin })
}

/// Wraps an encoding error.
pub fn encoding_error(e: EncodingError) -> (error: TypeError)
    ensures
        error == TypeError::Encoding(e),
{
    TypeError::Encoding(e)
}

/// Wraps a decoding error.
pub fn decoding_error(e: DecodingError) -> (error: TypeError)
    ensures
        error == TypeError::Decoding(e),
{
    TypeError::Decoding(e)
}

pub type TypeResult<T> = Result<T, TypeError>;

/// What a decoder that read `from` for the kind `to` hands back, given the
/// value or the cause that reading arrived at.
pub open spec fn decoded<V>(from: Seq<u8>, to: Seq<char>, read: Result<V, DecodingCause>) -> Result<
    V,
    TypeFailure,
> {
    match read {
        Ok(value) => Ok(value),
        Err(cause) => Err(decoding_failure(from, to, cause)),
    }
}

/// A codec result with the value and the error replaced by their views.
pub open spec fn viewed<T: View>(result: TypeResult<T>) -> Result<T::V, TypeFailure> {
    match result {
        Ok(value) => Ok(value@),
        Err(error) => Err(error@),
    }
}

} // verus!
