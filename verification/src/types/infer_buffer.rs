//! Decoding a scalar whose kind is told by its tag.

use crate::common::{CoprotoType, Uint8Buff};
use crate::common::errors::{
    decoded, decoding_error, viewed, DecodingCause, DecodingError, DecodingErrors, TypeResult,
};
use crate::common::tags::{self, is_scalar_tag};
use super::primitive::{BigInt, Boolean, Double, Integer, Null};
use super::primitive::bigint::bigint_read;
use super::primitive::boolean::boolean_read;
use super::primitive::double::double_read;
use super::primitive::integer::integer_read;
use super::primitive::null::null_read;
use super::primitive::string::string_read;
use super::primitive::supported_types::{ScalarValue, SupportedTypes};
use vstd::prelude::*;

verus! {

/// The tags of the six scalar kinds.
pub open spec fn scalar_tags() -> Seq<u8> {
    seq![
        tags::BIG_INT,
        tags::BOOLEAN,
        tags::DOUBLE,
        tags::INTEGER,
        tags::NULL,
        tags::STRING,
    ]
}

/// The scalar that `buff` holds, by the rules of the kind that its first
/// byte names; or why it holds none.
pub open spec fn inferred(buff: Seq<u8>) -> Result<ScalarValue, DecodingCause> {
    if buff.len() == 0 {
        Err(DecodingCause::CouldNotFind(0, "First byte"@))
    } else if buff[0] == tags::BIG_INT {
        match bigint_read(buff) {
            Ok(number) => Ok(ScalarValue::BigInt(number)),
            Err(cause) => Err(cause),
        }
    } else if buff[0] == tags::BOOLEAN {
        match boolean_read(buff) {
            Ok(truth) => Ok(ScalarValue::Boolean(truth)),
            Err(cause) => Err(cause),
        }
    } else if buff[0] == tags::DOUBLE {
        match double_read(buff) {
            Ok(number) => Ok(ScalarValue::Double(number)),
            Err(cause) => Err(cause),
        }
    } else if buff[0] == tags::INTEGER {
        match integer_read(buff) {
            Ok(number) => Ok(ScalarValue::Integer(number)),
            Err(cause) => Err(cause),
        }
    } else if buff[0] == tags::NULL {
        match null_read(buff) {
            Ok(absent) => Ok(ScalarValue::Null(absent)),
            Err(cause) => Err(cause),
        }
    } else if buff[0] == tags::STRING {
        match string_read(buff) {
            Ok(text) => Ok(ScalarValue::String(text)),
            Err(cause) => Err(cause),
        }
    } else {
        Err(DecodingCause::UnknownFirstByte(buff[0], scalar_tags()))
    }
}

/// The kind that a failure of inferring `buff` is reported for: the kind
/// that the first byte names, or `Infer` if it names none.
pub open spec fn inferred_kind(buff: Seq<u8>) -> Seq<char> {
    if buff.len() == 0 {
        "Infer"@
    } else if buff[0] == tags::BIG_INT {
        "BigInt"@
    } else if buff[0] == tags::BOOLEAN {
        "Boolean"@
    } else if buff[0] == tags::DOUBLE {
        "Double"@
    } else if buff[0] == tags::INTEGER {
        "Integer"@
    } else if buff[0] == tags::NULL {
        "Null"@
    } else if buff[0] == tags::STRING {
        "String"@
    } else {
        "Infer"@
    }
}

/// Decodes the scalar in `buff`, whose first byte tells its kind.
pub fn infer_buffer(buff: Uint8Buff) -> (value: TypeResult<SupportedTypes>)
    ensures
        viewed(value) == decoded(buff@, inferred_kind(buff@), inferred(buff@)),
        buff@.len() > 0 && !is_scalar_tag(buff@[0]) ==> value is Err,
{
    if buff.len() == 0 {
        return Err(
            decoding_error(
                DecodingError::new(
                    buff,
                    "Infer",
                    DecodingErrors::CouldNotFind(0, "First byte".to_string()),
                ),
            ),
        );
    }
    let first_byte = buff[0];
    if first_byte == tags::BIG_INT {
        match BigInt::decode(buff) {
            Ok(number) => Ok(SupportedTypes::BigInt(number)),
            Err(error) => Err(error),
        }
    } else if first_byte == tags::BOOLEAN {
        match Boolean::decode(buff) {
            Ok(truth) => Ok(SupportedTypes::Boolean(truth)),
            Err(error) => Err(error),
        }
    } else if first_byte == tags::DOUBLE {
        match Double::decode(buff) {
            Ok(number) => Ok(SupportedTypes::Double(number)),
            Err(error) => Err(error),
        }
    } else if first_byte == tags::INTEGER {
        match Integer::decode(buff) {
            Ok(number) => Ok(SupportedTypes::Integer(number)),
            Err(error) => Err(error),
        }
    } else if first_byte == tags::NULL {
        match Null::decode(buff) {
            Ok(absent) => Ok(SupportedTypes::Null(absent)),
            Err(error) => Err(error),
        }
    } else if first_byte == tags::STRING {
        match super::primitive::String::decode(buff) {
            Ok(text) => Ok(SupportedTypes::String(text)),
            Err(error) => Err(error),
        }
    } else {
        let known: Vec<u8> = vec![
            tags::BIG_INT,
            tags::BOOLEAN,
            tags::DOUBLE,
            tags::INTEGER,
            tags::NULL,
            tags::STRING,
        ];
        assert(known@ =~= scalar_tags());
        let cause = DecodingErrors::UnknownFirstByte(first_byte, known);
        Err(decoding_error(DecodingError::new(buff, "Infer", cause)))
    }
}

} // verus!
