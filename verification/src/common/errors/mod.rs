//! The error taxonomy of the codec.

pub mod decoding_error;
pub mod encoding_error;
pub mod type_error;

pub use decoding_error::{
    invalid_byte, not_enough, too_much, DecodingCause, DecodingError, DecodingErrors,
    DecodingFailure, DecodingResult,
};
pub use encoding_error::{
    EncodingCause, EncodingError, EncodingErrors, EncodingFailure, EncodingResult,
};
pub use type_error::{
    decoded, decoding_error, decoding_failure, encoding_error, encoding_failure,
    first_byte_failure, viewed, TypeError, TypeFailure, TypeResult,
};
