//! Truth values.

use crate::common::{tags, CoprotoType, Uint8Buff, ValueOrBuffer};
use crate::common::errors::{
    decoded, decoding_error, first_byte_failure, invalid_byte, not_enough, too_much, viewed,
    DecodingCause, DecodingError, DecodingErrors, TypeError, TypeFailure, TypeResult,
};
use super::frame::{frame, framed, open_frame, opened};
use vstd::prelude::*;

verus! {

/// A truth value together with its encoding.
#[derive(Debug)]
pub struct Boolean {
    pub first_byte: u8,
    pub modifier_byte: Option<u8>,
    pub modifier_char: Option<char>,
    pub first_char: char,
    pub value_of: TypeResult<bool>,
    pub buff: TypeResult<Uint8Buff>,
}

/// The payload byte of a truth value.
pub open spec fn truth_byte(value: bool) -> u8 {
    if value {
        1
    } else {
        0
    }
}

/// The two payload bytes of a truth value, as the alphabet of its position.
pub open spec fn truth_alphabet() -> Seq<u8> {
    seq![1u8, 0u8]
}

/// The encoding of `value`: the tag and one record of one byte.
pub open spec fn boolean_bytes(value: bool) -> Seq<u8> {
    framed(tags::BOOLEAN, seq![truth_byte(value)])
}

/// The truth value that `buff` holds, or why it holds none.
///
/// After the tag there has to be exactly one record of exactly one byte,
/// which is 0 for false and 1 for true.
pub open spec fn boolean_read(buff: Seq<u8>) -> Result<bool, DecodingCause> {
    match opened(buff, "Boolean"@, tags::BOOLEAN) {
        Err(cause) => Err(cause),
        Ok(records) => {
            if records.len() > 1 {
                Err(too_much("Records"@, 1, records.len()))
            } else if records.len() == 0 || records[0].len() == 0 {
                Err(not_enough("Bytes"@, 4, buff.len()))
            } else if records[0].len() > 1 {
                Err(too_much("Bytes"@, 1, records[0].len()))
            } else if records[0][0] == 0 {
                Ok(false)
            } else if records[0][0] == 1 {
                Ok(true)
            } else {
                Err(invalid_byte(records[0][0], 0, truth_alphabet()))
            }
        },
    }
}

impl CoprotoType<bool> for Boolean {
    const FIRST_BYTE: u8 = tags::BOOLEAN;

    /// Encodes a value or decodes a buffer, and keeps both sides.
    fn new(value: ValueOrBuffer<bool>) -> (made: Self)
        ensures
            made.first_byte == tags::BOOLEAN,
            made.first_char == '#',
            made.modifier_byte.is_none(),
            made.modifier_char.is_none(),
            match value {
                ValueOrBuffer::Value(v) => {
                    &&& made.value_of == Ok::<bool, TypeError>(v)
                    &&& viewed(made.buff) == Ok::<Seq<u8>, TypeFailure>(boolean_bytes(v))
                },
                ValueOrBuffer::Buffer(b) => {
                    &&& viewed(made.value_of) == decoded(b@, "Boolean"@, boolean_read(b@))
                    &&& viewed(made.buff) == Ok::<Seq<u8>, TypeFailure>(b@)
                },
            },
    {
        match value {
            ValueOrBuffer::Value(v) => Self {
                first_byte: tags::BOOLEAN,
                modifier_byte: None,
                modifier_char: None,
                first_char: '#',
                value_of: Ok(v),
                buff: Self::encode(v),
            },
            ValueOrBuffer::Buffer(vec) => Self {
                first_byte: tags::BOOLEAN,
                modifier_byte: None,
                modifier_char: None,
                first_char: '#',
                value_of: Self::decode(vec.clone()),
                buff: Ok(vec),
            },
        }
    }

    /// The bytes of `value`.  Both values can be encoded.
    fn encode(value: bool) -> (buff: TypeResult<Uint8Buff>)
        ensures
            viewed(buff) == Ok::<Seq<u8>, TypeFailure>(boolean_bytes(value)),
            buff matches Ok(bytes) ==> bytes@.len() > 0 && bytes@[0] == tags::BOOLEAN,
    {
        let val: u8 = if value {
            1
        } else {
            0
        };
        let payload: Vec<u8> = vec![val];
        assert(payload@ =~= seq![truth_byte(value)]);
        Ok(frame(tags::BOOLEAN, payload))
    }

    /// The truth value that `value` holds.
    fn decode(value: Uint8Buff) -> (truth: TypeResult<bool>)
        ensures
            viewed(truth) == decoded(value@, "Boolean"@, boolean_read(value@)),
            value@.len() > 0 && value@[0] != tags::BOOLEAN ==> (truth matches Err(error) && error@
                == first_byte_failure(value@, "Boolean"@, tags::BOOLEAN)),
            truth is Ok ==> value@.len() > 0 && value@[0] == tags::BOOLEAN,
    {
        let records = match open_frame(&value, "Boolean", tags::BOOLEAN) {
            Ok(records) => records,
            Err(cause) => {
                return Err(decoding_error(DecodingError::new(value, "Boolean", cause)));
            },
        };
        if records.len() > 1 {
            let cause = DecodingErrors::too_much("Records", 1, records.len());
            return Err(decoding_error(DecodingError::new(value, "Boolean", cause)));
        }
        if records.len() == 0 || records[0].len() == 0 {
            let cause = DecodingErrors::not_enough("Bytes", 4, value.len());
            return Err(decoding_error(DecodingError::new(value, "Boolean", cause)));
        }
        if records[0].len() > 1 {
            let cause = DecodingErrors::too_much("Bytes", 1, records[0].len());
            return Err(decoding_error(DecodingError::new(value, "Boolean", cause)));
        }
        let val = records[0][0];
        if val == 0 {
            Ok(false)
        } else if val == 1 {
            Ok(true)
        } else {
            let expected: Vec<u8> = vec![1, 0];
            assert(expected@ =~= truth_alphabet());
            let cause = DecodingErrors::invalid_byte(val, 0, expected);
            Err(decoding_error(DecodingError::new(value, "Boolean", cause)))
        }
    }
}

} // verus!
