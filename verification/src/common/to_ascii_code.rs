//! Characters as single bytes.

use super::errors::{DecodingCause, DecodingError, DecodingErrors, DecodingFailure, DecodingResult};
use vstd::prelude::*;

verus! {

/// The byte of an ASCII character.  A character outside ASCII has no such
/// byte and is reported as a size conversion failure.
pub fn to_ascii_code(c: char) -> (code: DecodingResult<u8>)
    ensures
        match code {
            Ok(byte) => (c as u32) < 128 && byte == c as u8,
            Err(error) => (c as u32) >= 128 && error@ == (DecodingFailure {
                from: Seq::<u8>::empty(),
                to: "ASCII code"@,
                cause: DecodingCause::SizeConversionError("char"@, "u8"@),
            }),
        },
{
    if (c as u32) < 128 {
        Ok(c as u8)
    } else {
        Err(
            DecodingError::new(
                Vec::new(),
                "ASCII code",
                DecodingErrors::SizeConversionError("char".to_string(), "u8".to_string()),
            ),
        )
    }
}

} // verus!
