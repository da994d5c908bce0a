//! Signed 64-bit integers.

use crate::common::{tags, to_ascii_code, CoprotoType, Uint8Buff, ValueOrBuffer};
use crate::common::errors::{
    decoded, decoding_error, first_byte_failure, invalid_byte, not_enough, too_much, viewed,
    DecodingCause, DecodingError, DecodingErrors, TypeFailure, TypeResult,
};
use crate::common::modifiers::{MINUS, PLUS};
use super::digits::{
    all_digits, decimal_digits, decimal_value, digit_alphabet, digit_bytes, digits_of,
    find_non_digit, first_non_digit, magnitude, magnitude_of,
};
use super::frame::{
    frame_signed, open_signed_frame, opened_signed, sign_byte, sign_char, signed_framed,
};
use vstd::prelude::*;

verus! {

/// A signed 64-bit integer together with its encoding.
#[derive(Debug)]
pub struct BigInt {
    pub first_byte: u8,
    pub modifier_byte: Option<u8>,
    pub modifier_char: Option<char>,
    pub first_char: char,
    pub value_of: TypeResult<i64>,
    pub buff: TypeResult<Uint8Buff>,
}

/// The encoding of `value`: tag, sign, and the decimal digits of the
/// absolute value as one record.
pub open spec fn bigint_bytes(value: i64) -> Seq<u8> {
    signed_framed(tags::BIG_INT, value < 0, decimal_digits(magnitude(value as int)))
}

/// The number that `buff` holds, or why it holds none.
///
/// After tag and optional sign there has to be exactly one record.  Its
/// bytes have to be digits, and the signed number they spell has to fit 64
/// bits.  No digits at all spell 0.
pub open spec fn bigint_read(buff: Seq<u8>) -> Result<i64, DecodingCause> {
    match opened_signed(buff, "BigInt"@, tags::BIG_INT) {
        Err(cause) => Err(cause),
        Ok((negative, records)) => {
            if records.len() > 1 {
                Err(too_much("Records"@, 1, records.len()))
            } else if records.len() == 0 {
                Err(not_enough("Bytes"@, 4, buff.len()))
            } else if !all_digits(records[0]) {
                Err(
                    invalid_byte(
                        records[0][first_non_digit(records[0])],
                        first_non_digit(records[0]) as nat,
                        digit_alphabet(),
                    ),
                )
            } else if negative && decimal_value(records[0]) <= 0x8000_0000_0000_0000 {
                Ok((-decimal_value(records[0])) as i64)
            } else if !negative && decimal_value(records[0]) <= i64::MAX {
                Ok(decimal_value(records[0]) as i64)
            } else {
                Err(DecodingCause::SizeConversionError("magnitude"@, "i64"@))
            }
        },
    }
}

/// The sign byte and character that belong to a decoding outcome.
pub open spec fn bigint_modifier(read: Result<i64, DecodingCause>) -> (Option<u8>, Option<char>) {
    match read {
        Ok(value) => (Some(sign_byte(value < 0)), Some(sign_char(value < 0))),
        Err(_) => (None, None),
    }
}

impl CoprotoType<i64> for BigInt {
    const FIRST_BYTE: u8 = tags::BIG_INT;

    /// Encodes a value or decodes a buffer, and keeps both sides.
    fn new(value: ValueOrBuffer<i64>) -> (made: Self)
        ensures
            made.first_byte == tags::BIG_INT,
            made.first_char == '(',
            match value {
                ValueOrBuffer::Value(v) => {
                    &&& made.value_of == Ok::<i64, crate::common::errors::TypeError>(v)
                    &&& viewed(made.buff) == Ok::<Seq<u8>, TypeFailure>(bigint_bytes(v))
                    &&& made.modifier_byte == Some(sign_byte(v < 0))
                    &&& made.modifier_char == Some(sign_char(v < 0))
                },
                ValueOrBuffer::Buffer(b) => {
                    &&& viewed(made.value_of) == decoded(b@, "BigInt"@, bigint_read(b@))
                    &&& viewed(made.buff) == Ok::<Seq<u8>, TypeFailure>(b@)
                    &&& (made.modifier_byte, made.modifier_char) == bigint_modifier(
                        bigint_read(b@),
                    )
                },
            },
    {
        match value {
            ValueOrBuffer::Value(value) => Self {
                first_byte: tags::BIG_INT,
                first_char: '(',
                modifier_byte: Some(if value < 0 { MINUS } else { PLUS }),
                modifier_char: Some(if value < 0 { '-' } else { '+' }),
                value_of: Ok(value),
                buff: Self::encode(value),
            },
            ValueOrBuffer::Buffer(vec) => {
                let value = Self::decode(vec.clone());
                let modifier_char = match &value {
                    Ok(value) => Some(if *value < 0 { '-' } else { '+' }),
                    Err(_) => None,
                };
                let modifier_byte = match modifier_char {
                    Some(c) => match to_ascii_code(c) {
                        Ok(code) => Some(code),
                        Err(_) => None,
                    },
                    None => None,
                };
                Self {
                    first_byte: tags::BIG_INT,
                    first_char: '(',
                    modifier_char,
                    modifier_byte,
                    value_of: value,
                    buff: Ok(vec),
                }
            },
        }
    }

    /// The bytes of `value`.  Every value can be encoded.
    fn encode(value: i64) -> (buff: TypeResult<Uint8Buff>)
        ensures
            viewed(buff) == Ok::<Seq<u8>, TypeFailure>(bigint_bytes(value)),
            buff matches Ok(bytes) ==> bytes@.len() > 0 && bytes@[0] == tags::BIG_INT,
    {
        let abs_value: u64 = if value == i64::MIN {
            0x8000_0000_0000_0000
        } else if value < 0 {
            (-value) as u64
        } else {
            value as u64
        };
        let digits_arr = digits_of(abs_value);
        Ok(frame_signed(tags::BIG_INT, value < 0, digits_arr))
    }

    /// The number that `value` holds.
    fn decode(value: Uint8Buff) -> (number: TypeResult<i64>)
        ensures
            viewed(number) == decoded(value@, "BigInt"@, bigint_read(value@)),
            value@.len() > 0 && value@[0] != tags::BIG_INT ==> (number matches Err(error) && error@
                == first_byte_failure(value@, "BigInt"@, tags::BIG_INT)),
            number is Ok ==> value@.len() > 0 && value@[0] == tags::BIG_INT,
            value@.len() >= 2 && value@[1] != MINUS ==> (number matches Ok(n) ==> n >= 0),
    {
        let (negative, records) = match open_signed_frame(&value, "BigInt", tags::BIG_INT) {
            Ok(opened) => opened,
            Err(cause) => {
                return Err(decoding_error(DecodingError::new(value, "BigInt", cause)));
            },
        };
        if records.len() > 1 {
            let cause = DecodingErrors::too_much("Records", 1, records.len());
            return Err(decoding_error(DecodingError::new(value, "BigInt", cause)));
        }
        if records.len() == 0 {
            let cause = DecodingErrors::not_enough("Bytes", 4, value.len());
            return Err(decoding_error(DecodingError::new(value, "BigInt", cause)));
        }
        let digits = &records[0];
        if let Some(position) = find_non_digit(digits) {
            let cause = DecodingErrors::invalid_byte(digits[position], position, digit_bytes());
            return Err(decoding_error(DecodingError::new(value, "BigInt", cause)));
        }
        let limit: u64 = if negative {
            0x8000_0000_0000_0000
        } else {
            0x7fff_ffff_ffff_ffff
        };
        let number: u64 = match magnitude_of(digits, limit) {
            Some(number) => number,
            None => {
                let cause = DecodingErrors::SizeConversionError(
                    "magnitude".to_string(),
                    "i64".to_string(),
                );
                return Err(decoding_error(DecodingError::new(value, "BigInt", cause)));
            },
        };
        if !negative {
            Ok(number as i64)
        } else if number == 0x8000_0000_0000_0000 {
            Ok(i64::MIN)
        } else {
            Ok(-(number as i64))
        }
    }
}

} // verus!
