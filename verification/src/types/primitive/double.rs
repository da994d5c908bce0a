//! Decimal numbers, carried as text.
//!
//! A number is kept as its sign and the decimal text of its absolute value:
//! digits with at most one decimal point.  The payload of its encoding holds
//! one byte per character: the digit's value for a digit, `'.'` for the
//! point.  Turning text into a floating-point number, and back, is left to
//! the caller.

use crate::common::{tags, to_ascii_code, CoprotoType, Uint8Buff, ValueOrBuffer};
use crate::common::errors::{
    decoded, decoding_error, encoding_error, encoding_failure, first_byte_failure, invalid_byte,
    not_enough, too_much, viewed, DecodingCause, DecodingError, DecodingErrors, EncodingCause,
    EncodingError, EncodingErrors, TypeFailure, TypeResult,
};
use crate::common::modifiers::{MINUS, PLUS};
use super::digits::{digit_alphabet, digit_bytes};
use super::frame::{
    frame_signed, open_signed_frame, opened_signed, sign_byte, sign_char, signed_framed,
};
use super::string::text_of;
use vstd::prelude::*;
use vstd::string::{StrSliceExecFns, StringExecFnsIsAscii};
use vstd::utf8::{encode_utf8, encode_utf8_decode_utf8, is_ascii_chars, is_ascii_chars_encode_utf8};

verus! {

/// A decimal number: its sign and the text of its absolute value.
#[derive(Clone, Debug, PartialEq)]
pub struct Decimal {
    /// Whether the number is below zero.
    pub negative: bool,
    /// The absolute value in decimal notation, such as `123.456`.
    pub text: std::string::String,
}

/// The mathematical content of a [`Decimal`].
pub struct DecimalView {
    pub negative: bool,
    pub text: Seq<char>,
}

impl View for Decimal {
    type V = DecimalView;

    open spec fn view(&self) -> DecimalView {
        DecimalView { negative: self.negative, text: self.text@ }
    }
}

/// A decimal number together with its encoding.
#[derive(Debug)]
pub struct Double {
    pub first_byte: u8,
    pub modifier_byte: Option<u8>,
    pub modifier_char: Option<char>,
    pub first_char: char,
    pub value_of: TypeResult<Decimal>,
    pub buff: TypeResult<Uint8Buff>,
}

/// The payload byte of the decimal point.
pub const POINT: u8 = 46;

/// Whether `c` may occur in decimal text: a digit or the point.
pub open spec fn is_decimal_char(c: char) -> bool {
    c == '.' || ('0' <= c && c <= '9')
}

/// The payload byte of a character of decimal text.
pub open spec fn payload_byte(c: char) -> u8 {
    if c == '.' {
        POINT
    } else {
        (c as u8 - 48) as u8
    }
}

/// The character of a payload byte.
pub open spec fn text_char(byte: u8) -> char {
    if byte == POINT {
        '.'
    } else {
        ((byte + 48) as u8) as char
    }
}

/// The payload of decimal text, byte by character.
pub open spec fn decimal_payload(text: Seq<char>) -> Seq<u8> {
    Seq::new(text.len(), |i: int| payload_byte(text[i]))
}

/// The text of a payload, character by byte.
pub open spec fn payload_text(payload: Seq<u8>) -> Seq<char> {
    Seq::new(payload.len(), |i: int| text_char(payload[i]))
}

/// How many points `payload` holds.
pub open spec fn count_points(payload: Seq<u8>) -> nat
    decreases payload.len(),
{
    if payload.len() == 0 {
        0
    } else {
        count_points(payload.drop_last()) + if payload.last() == POINT {
            1nat
        } else {
            0nat
        }
    }
}

/// How many digits `payload` holds.
pub open spec fn count_digits(payload: Seq<u8>) -> nat
    decreases payload.len(),
{
    if payload.len() == 0 {
        0
    } else {
        count_digits(payload.drop_last()) + if payload.last() <= 9 {
            1nat
        } else {
            0nat
        }
    }
}

/// Whether the byte at `index` may not stand there: it is neither a digit
/// nor the point, or it is a point after an earlier one.
pub open spec fn is_misplaced(payload: Seq<u8>, index: int) -> bool {
    payload[index] > 9 && (payload[index] != POINT || count_points(payload.take(index)) > 0)
}

/// Whether some byte of `payload` is misplaced.
pub open spec fn has_misplaced(payload: Seq<u8>) -> bool {
    exists|index: int| 0 <= index < payload.len() && is_misplaced(payload, index)
}

/// Whether `index` is the place of the first misplaced byte of `payload`.
pub open spec fn is_first_misplaced(payload: Seq<u8>, index: int) -> bool {
    &&& 0 <= index < payload.len()
    &&& is_misplaced(payload, index)
    &&& forall|j: int| 0 <= j < index ==> !is_misplaced(payload, j)
}

/// The place of the first misplaced byte of `payload`.
pub open spec fn first_misplaced(payload: Seq<u8>) -> int
    recommends
        has_misplaced(payload),
{
    choose|index: int| is_first_misplaced(payload, index)
}

/// The digits and the point, as the alphabet of a payload position before
/// the point.
pub open spec fn decimal_alphabet() -> Seq<u8> {
    digit_alphabet().push(POINT)
}

/// The alphabet that the misplaced byte at `index` is held against: digits
/// only for a second point, digits and point for any other byte.
pub open spec fn alphabet_at(payload: Seq<u8>, index: int) -> Seq<u8> {
    if payload[index] == POINT {
        digit_alphabet()
    } else {
        decimal_alphabet()
    }
}

/// Whether `text` is decimal text: digits and at most one point, with at
/// least one digit.
pub open spec fn is_decimal_text(text: Seq<char>) -> bool {
    &&& forall|i: int| 0 <= i < text.len() ==> is_decimal_char(#[trigger] text[i])
    &&& !has_misplaced(decimal_payload(text))
    &&& count_digits(decimal_payload(text)) > 0
}

/// What encoding `value` gives: tag, sign and the payload of the text as one
/// record, or a rejection if the text is no decimal text.
pub open spec fn double_written(value: DecimalView) -> Result<Seq<u8>, TypeFailure> {
    if is_decimal_text(value.text) {
        Ok(signed_framed(tags::DOUBLE, value.negative, decimal_payload(value.text)))
    } else {
        Err(
            encoding_failure(
                value.text,
                "Double"@,
                EncodingCause::InvalidValue("not a decimal number"@),
            ),
        )
    }
}

/// The number that `buff` holds, or why it holds none.
///
/// After tag and optional sign there has to be exactly one record.  Its
/// bytes have to be digits and at most one point, with at least one digit.
pub open spec fn double_read(buff: Seq<u8>) -> Result<DecimalView, DecodingCause> {
    match opened_signed(buff, "Double"@, tags::DOUBLE) {
        Err(cause) => Err(cause),
        Ok((negative, records)) => {
            if records.len() > 1 {
                Err(too_much("Records"@, 1, records.len()))
            } else if records.len() == 0 {
                Err(not_enough("Bytes"@, 4, buff.len()))
            } else if has_misplaced(records[0]) {
                Err(
                    invalid_byte(
                        records[0][first_misplaced(records[0])],
                        first_misplaced(records[0]) as nat,
                        alphabet_at(records[0], first_misplaced(records[0])),
                    ),
                )
            } else if count_digits(records[0]) == 0 {
                Err(not_enough("Digits"@, 1, 0))
            } else {
                Ok(DecimalView { negative, text: payload_text(records[0]) })
            }
        },
    }
}

/// The sign byte and character that belong to a decoding outcome.
pub open spec fn double_modifier(read: Result<DecimalView, DecodingCause>) -> (
    Option<u8>,
    Option<char>,
) {
    match read {
        Ok(value) => (Some(sign_byte(value.negative)), Some(sign_char(value.negative))),
        Err(_) => (None, None),
    }
}

/// The payload of `text`, if `text` is decimal text.
fn payload_of(text: &std::string::String) -> (payload: Option<Vec<u8>>)
    ensures
        match payload {
            Some(bytes) => is_decimal_text(text@) && bytes@ == decimal_payload(text@),
            None => !is_decimal_text(text@),
        },
{
    if !text.is_ascii() {
        return None;
    }
    let bytes = text.as_str().as_bytes_vec();
    let ghost whole = decimal_payload(text@);
    proof {
        is_ascii_chars_encode_utf8(text@);
    }
    let mut payload: Vec<u8> = Vec::new();
    let mut seen_point = false;
    let mut seen_digit = false;
    let mut i: usize = 0;
    while i < bytes.len()
        invariant
            i <= bytes.len(),
            bytes@.len() == text@.len(),
            whole == decimal_payload(text@),
            is_ascii_chars(text@),
            forall|k: int| 0 <= k < text@.len() ==> #[trigger] text@[k] as u8 == bytes@[k],
            forall|k: int| 0 <= k < i ==> is_decimal_char(#[trigger] text@[k]),
            forall|k: int| 0 <= k < i ==> !is_misplaced(whole, k),
            payload@ == whole.take(i as int),
            seen_point == (count_points(whole.take(i as int)) > 0),
            seen_digit == (count_digits(whole.take(i as int)) > 0),
        decreases bytes.len() - i,
    {
        let byte = bytes[i];
        let ghost c = text@[i as int];
        proof {
            assert(c as u8 == byte);
            assert('\0' <= c <= '\u{7f}');
            assert(whole.take(i + 1).drop_last() =~= whole.take(i as int));
            assert(whole[i as int] == payload_byte(c));
        }
        if byte == POINT {
            if seen_point {
                assert(is_misplaced(whole, i as int));
                return None;
            }
            seen_point = true;
            payload.push(POINT);
        } else if 48 <= byte && byte <= 57 {
            seen_digit = true;
            payload.push(byte - 48);
        } else {
            assert(!is_decimal_char(c));
            return None;
        }
        assert(payload@ =~= whole.take(i + 1));
        i += 1;
    }
    assert(whole.take(i as int) =~= whole);
    if !seen_digit {
        return None;
    }
    Some(payload)
}

/// The index of the first misplaced byte of `payload`, if there is one.
fn find_misplaced(payload: &Vec<u8>) -> (found: Option<usize>)
    ensures
        match found {
            Some(index) => index < payload.len() && has_misplaced(payload@) && first_misplaced(
                payload@,
            ) == index,
            None => !has_misplaced(payload@),
        },
{
    let mut seen_point = false;
    let mut i: usize = 0;
    while i < payload.len()
        invariant
            i <= payload.len(),
            forall|k: int| 0 <= k < i ==> !is_misplaced(payload@, k),
            seen_point == (count_points(payload@.take(i as int)) > 0),
        decreases payload.len() - i,
    {
        let byte = payload[i];
        proof {
            assert(payload@.take(i + 1).drop_last() =~= payload@.take(i as int));
        }
        if byte > 9 && (byte != POINT || seen_point) {
            assert(is_first_misplaced(payload@, i as int));
            return Some(i);
        }
        if byte == POINT {
            seen_point = true;
        }
        i += 1;
    }
    None
}

/// Whether `payload` holds a digit.
fn holds_digit(payload: &Vec<u8>) -> (found: bool)
    ensures
        found == (count_digits(payload@) > 0),
{
    let mut found = false;
    let mut i: usize = 0;
    while i < payload.len()
        invariant
            i <= payload.len(),
            found == (count_digits(payload@.take(i as int)) > 0),
        decreases payload.len() - i,
    {
        proof {
            assert(payload@.take(i + 1).drop_last() =~= payload@.take(i as int));
        }
        if payload[i] <= 9 {
            found = true;
        }
        i += 1;
    }
    assert(payload@.take(i as int) =~= payload@);
    found
}

/// The text of a payload that holds no misplaced byte.
fn text_of_payload(payload: &Vec<u8>) -> (text: std::string::String)
    requires
        !has_misplaced(payload@),
    ensures
        text@ == payload_text(payload@),
{
    let ghost chars = payload_text(payload@);
    let mut bytes: Vec<u8> = Vec::new();
    let mut i: usize = 0;
    while i < payload.len()
        invariant
            i <= payload.len(),
            !has_misplaced(payload@),
            chars == payload_text(payload@),
            bytes@.len() == i,
            forall|k: int| 0 <= k < i ==> #[trigger] bytes@[k] == chars[k] as u8,
        decreases payload.len() - i,
    {
        let byte = payload[i];
        assert(!is_misplaced(payload@, i as int));
        if byte == POINT {
            bytes.push(POINT);
        } else {
            bytes.push(byte + 48);
        }
        i += 1;
    }
    proof {
        assert forall|k: int| 0 <= k < chars.len() implies '\0' <= #[trigger] chars[k]
            <= '\u{7f}' by {
            assert(!is_misplaced(payload@, k));
        }
        is_ascii_chars_encode_utf8(chars);
        assert(encode_utf8(chars) =~= bytes@);
        encode_utf8_decode_utf8(chars);
    }
    match text_of(bytes) {
        Some(text) => text,
        None => {
            proof {
                vstd::utf8::encode_utf8_valid_utf8(chars);
            }
            vstd::pervasive::unreached()
        },
    }
}

/// The digits and the point.
fn decimal_bytes() -> (alphabet: Vec<u8>)
    ensures
        alphabet@ == decimal_alphabet(),
{
    let alphabet: Vec<u8> = vec![0, 1, 2, 3, 4, 5, 6, 7, 8, 9, 46];
    assert(alphabet@ =~= decimal_alphabet());
    alphabet
}

impl CoprotoType<Decimal> for Double {
    const FIRST_BYTE: u8 = tags::DOUBLE;

    /// Encodes a value or decodes a buffer, and keeps both sides.
    fn new(value: ValueOrBuffer<Decimal>) -> (made: Self)
        ensures
            made.first_byte == tags::DOUBLE,
            made.first_char == ';',
            match value {
                ValueOrBuffer::Value(v) => {
                    &&& viewed(made.value_of) == Ok::<DecimalView, TypeFailure>(v@)
                    &&& viewed(made.buff) == double_written(v@)
                    &&& made.modifier_byte == Some(sign_byte(v.negative))
                    &&& made.modifier_char == Some(sign_char(v.negative))
                },
                ValueOrBuffer::Buffer(b) => {
                    &&& viewed(made.value_of) == decoded(b@, "Double"@, double_read(b@))
                    &&& viewed(made.buff) == Ok::<Seq<u8>, TypeFailure>(b@)
                    &&& (made.modifier_byte, made.modifier_char) == double_modifier(
                        double_read(b@),
                    )
                },
            },
    {
        match value {
            ValueOrBuffer::Value(value) => {
                let buff = Self::encode_ref(&value);
                Self {
                    first_byte: tags::DOUBLE,
                    modifier_byte: Some(if value.negative { MINUS } else { PLUS }),
                    modifier_char: Some(if value.negative { '-' } else { '+' }),
                    first_char: ';',
                    value_of: Ok(value),
                    buff,
                }
            },
            ValueOrBuffer::Buffer(vec) => {
                let value = Self::decode(vec.clone());
                let modifier_char = match &value {
                    Ok(value) => Some(if value.negative { '-' } else { '+' }),
                    Err(_) => None,
                };
                let modifier_byte = match modifier_char {
                    Some(c) => match to_ascii_code(c) {
                        Ok(code) => Some(code),
                        Err(_) => None,
                    },
                    None => None,
                };
                Self {
                    first_byte: tags::DOUBLE,
                    first_char: ';',
                    modifier_char,
                    modifier_byte,
                    value_of: value,
                    buff: Ok(vec),
                }
            },
        }
    }

    /// The bytes of `value`.  Text that is no decimal text is rejected.
    fn encode(value: Decimal) -> (buff: TypeResult<Uint8Buff>)
        ensures
            viewed(buff) == double_written(value@),
            buff matches Ok(bytes) ==> bytes@.len() > 0 && bytes@[0] == tags::DOUBLE,
    {
        Self::encode_ref(&value)
    }

    /// The number that `value` holds.
    fn decode(value: Uint8Buff) -> (number: TypeResult<Decimal>)
        ensures
            viewed(number) == decoded(value@, "Double"@, double_read(value@)),
            value@.len() > 0 && value@[0] != tags::DOUBLE ==> (number matches Err(error) && error@
                == first_byte_failure(value@, "Double"@, tags::DOUBLE)),
            number is Ok ==> value@.len() > 0 && value@[0] == tags::DOUBLE,
            value@.len() >= 2 && value@[1] != MINUS ==> (number matches Ok(n) ==> !n.negative),
    {
        let (negative, records) = match open_signed_frame(&value, "Double", tags::DOUBLE) {
            Ok(opened) => opened,
            Err(cause) => {
                return Err(decoding_error(DecodingError::new(value, "Double", cause)));
            },
        };
        if records.len() > 1 {
            let cause = DecodingErrors::too_much("Records", 1, records.len());
            return Err(decoding_error(DecodingError::new(value, "Double", cause)));
        }
        if records.len() == 0 {
            let cause = DecodingErrors::not_enough("Bytes", 4, value.len());
            return Err(decoding_error(DecodingError::new(value, "Double", cause)));
        }
        let digits = &records[0];
        if let Some(position) = find_misplaced(digits) {
            let expected = if digits[position] == POINT {
                digit_bytes()
            } else {
                decimal_bytes()
            };
            let cause = DecodingErrors::invalid_byte(digits[position], position, expected);
            return Err(decoding_error(DecodingError::new(value, "Double", cause)));
        }
        if !holds_digit(digits) {
            let cause = DecodingErrors::not_enough("Digits", 1, 0);
            return Err(decoding_error(DecodingError::new(value, "Double", cause)));
        }
        Ok(Decimal { negative, text: text_of_payload(digits) })
    }
}

impl Double {
    /// The bytes of `value`, which stays with the caller.
    pub fn encode_ref(value: &Decimal) -> (buff: TypeResult<Uint8Buff>)
        ensures
            viewed(buff) == double_written(value@),
    {
        match payload_of(&value.text) {
            Some(payload) => Ok(frame_signed(tags::DOUBLE, value.negative, payload)),
            None => Err(
                encoding_error(
                    EncodingError::new(
                        value.text.as_str(),
                        "Double",
                        EncodingErrors::InvalidValue("not a decimal number".to_string()),
                    ),
                ),
            ),
        }
    }
}

} // verus!
