//! UTF-8 text.

use crate::common::{tags, CoprotoType, Uint8Buff, ValueOrBuffer};
use crate::common::errors::{
    decoded, decoding_error, first_byte_failure, not_enough, too_much, viewed, DecodingCause,
    DecodingError, DecodingErrors, TypeFailure, TypeResult,
};
use super::frame::{frame, framed, open_frame, opened};
use vstd::prelude::*;
use vstd::string::StrSliceExecFns;
use vstd::utf8::{
    decode_utf8, encode_utf8, encode_utf8_decode_utf8, encode_utf8_valid_utf8, valid_utf8,
};

verus! {

/// A text together with its encoding.
#[derive(Debug)]
pub struct String {
    pub first_byte: u8,
    pub modifier_byte: Option<u8>,
    pub modifier_char: Option<char>,
    pub first_char: char,
    pub value_of: TypeResult<std::string::String>,
    pub buff: TypeResult<Uint8Buff>,
}

/// The encoding of `text`: the tag and its UTF-8 bytes as one record.
pub open spec fn string_bytes(text: Seq<char>) -> Seq<u8> {
    framed(tags::STRING, encode_utf8(text))
}

/// The text that `buff` holds, or why it holds none.
///
/// After the tag there has to be exactly one record, and its bytes have to
/// be UTF-8.
pub open spec fn string_read(buff: Seq<u8>) -> Result<Seq<char>, DecodingCause> {
    match opened(buff, "String"@, tags::STRING) {
        Err(cause) => Err(cause),
        Ok(records) => {
            if records.len() > 1 {
                Err(too_much("Records"@, 1, records.len()))
            } else if records.len() == 0 {
                Err(not_enough("Records"@, 1, 0))
            } else if valid_utf8(records[0]) {
                Ok(decode_utf8(records[0]))
            } else {
                Err(DecodingCause::InternalError("invalid utf-8 sequence"@))
            }
        },
    }
}

/// `String::from_utf8` of the standard library, with its error dropped.
///
/// Trusted: the call gives a text exactly when `bytes` are UTF-8, and the
/// text then consists of these very bytes.
#[verifier::external_body]
fn text_from_utf8(bytes: Vec<u8>) -> (text: Option<std::string::String>)
    ensures
        match text {
            Some(t) => encode_utf8(t@) == bytes@,
            None => !valid_utf8(bytes@),
        },
{
    match std::string::String::from_utf8(bytes) {
        Ok(text) => Some(text),
        Err(_) => None,
    }
}

/// The text that the UTF-8 bytes `bytes` spell, if they are UTF-8.
pub(crate) fn text_of(bytes: Vec<u8>) -> (text: Option<std::string::String>)
    ensures
        match text {
            Some(t) => valid_utf8(bytes@) && t@ == decode_utf8(bytes@),
            None => !valid_utf8(bytes@),
        },
{
    let text = text_from_utf8(bytes);
    proof {
        if let Some(t) = &text {
            encode_utf8_valid_utf8(t@);
            encode_utf8_decode_utf8(t@);
        }
    }
    text
}

impl CoprotoType<std::string::String> for String {
    const FIRST_BYTE: u8 = tags::STRING;

    /// Encodes a value or decodes a buffer, and keeps both sides.
    fn new(value: ValueOrBuffer<std::string::String>) -> (made: Self)
        ensures
            made.first_byte == tags::STRING,
            made.first_char == '+',
            made.modifier_byte.is_none(),
            made.modifier_char.is_none(),
            match value {
                ValueOrBuffer::Value(v) => {
                    &&& viewed(made.value_of) == Ok::<Seq<char>, TypeFailure>(v@)
                    &&& viewed(made.buff) == Ok::<Seq<u8>, TypeFailure>(string_bytes(v@))
                },
                ValueOrBuffer::Buffer(b) => {
                    &&& viewed(made.value_of) == decoded(b@, "String"@, string_read(b@))
                    &&& viewed(made.buff) == Ok::<Seq<u8>, TypeFailure>(b@)
                },
            },
    {
        match value {
            ValueOrBuffer::Value(v) => Self {
                first_byte: tags::STRING,
                modifier_byte: None,
                modifier_char: None,
                first_char: '+',
                value_of: Ok(v.clone()),
                buff: Self::encode(v),
            },
            ValueOrBuffer::Buffer(vec) => Self {
                first_byte: tags::STRING,
                modifier_byte: None,
                modifier_char: None,
                first_char: '+',
                value_of: Self::decode(vec.clone()),
                buff: Ok(vec),
            },
        }
    }

    /// The bytes of `value`.  Every text can be encoded.
    fn encode(value: std::string::String) -> (buff: TypeResult<Uint8Buff>)
        ensures
            viewed(buff) == Ok::<Seq<u8>, TypeFailure>(string_bytes(value@)),
            buff matches Ok(bytes) ==> bytes@.len() > 0 && bytes@[0] == tags::STRING,
    {
        let value_buff = value.as_str().as_bytes_vec();
        Ok(frame(tags::STRING, value_buff))
    }

    /// The text that `value` holds.
    fn decode(value: Uint8Buff) -> (text: TypeResult<std::string::String>)
        ensures
            viewed(text) == decoded(value@, "String"@, string_read(value@)),
            value@.len() > 0 && value@[0] != tags::STRING ==> (text matches Err(error) && error@
                == first_byte_failure(value@, "String"@, tags::STRING)),
            text is Ok ==> value@.len() > 0 && value@[0] == tags::STRING,
    {
        let mut records = match open_frame(&value, "String", tags::STRING) {
            Ok(records) => records,
            Err(cause) => {
                return Err(decoding_error(DecodingError::new(value, "String", cause)));
            },
        };
        if records.len() > 1 {
            let cause = DecodingErrors::too_much("Records", 1, records.len());
            return Err(decoding_error(DecodingError::new(value, "String", cause)));
        }
        match records.pop() {
            Some(buff) => match text_of(buff) {
                Some(string) => Ok(string),
                None => {
                    let cause = DecodingErrors::InternalError(
                        "invalid utf-8 sequence".to_string(),
                    );
                    Err(decoding_error(DecodingError::new(value, "String", cause)))
                },
            },
            None => {
                let cause = DecodingErrors::not_enough("Records", 1, 0);
                Err(decoding_error(DecodingError::new(value, "String", cause)))
            },
        }
    }
}

} // verus!
