//! The absent value.

use crate::common::{tags, CoprotoType, Uint8Buff, ValueOrBuffer};
use crate::common::errors::{
    decoded, decoding_error, encoding_error, encoding_failure, first_byte_failure, too_much, viewed,
    DecodingCause, DecodingError, DecodingErrors, EncodingCause, EncodingError, EncodingErrors,
    TypeError, TypeFailure, TypeResult,
};
use super::frame::{frame, framed, open_frame, opened};
use vstd::prelude::*;

verus! {

/// The absent value together with its encoding.
#[derive(Debug)]
pub struct Null {
    pub first_byte: u8,
    pub modifier_byte: Option<u8>,
    pub modifier_char: Option<char>,
    pub first_char: char,
    pub value_of: TypeResult<Option<()>>,
    pub buff: TypeResult<Uint8Buff>,
}

/// The encoding of the absent value: the tag and one empty record.
pub open spec fn null_bytes() -> Seq<u8> {
    framed(tags::NULL, Seq::empty())
}

/// What encoding `value` gives: the bytes of the absent value for `None`,
/// a rejection for a present value.
pub open spec fn null_written(value: Option<()>) -> Result<Seq<u8>, TypeFailure> {
    if value is Some {
        Err(
            encoding_failure(
                "Some(())"@,
                "Null"@,
                EncodingCause::InvalidValue("Value cannot be Some(()), only None"@),
            ),
        )
    } else {
        Ok(null_bytes())
    }
}

/// The absent value if `buff` holds it, or why it does not.
///
/// After the tag there may be at most one record, and it has to be empty.
pub open spec fn null_read(buff: Seq<u8>) -> Result<Option<()>, DecodingCause> {
    match opened(buff, "Null"@, tags::NULL) {
        Err(cause) => Err(cause),
        Ok(records) => {
            if records.len() > 1 {
                Err(too_much("Records"@, 1, records.len()))
            } else if records.len() == 1 && records[0].len() > 0 {
                Err(too_much("Bytes"@, 0, records[0].len()))
            } else {
                Ok(None)
            }
        },
    }
}

impl CoprotoType<Option<()>> for Null {
    const FIRST_BYTE: u8 = tags::NULL;

    /// Encodes a value or decodes a buffer, and keeps both sides.
    fn new(value: ValueOrBuffer<Option<()>>) -> (made: Self)
        ensures
            made.first_byte == tags::NULL,
            made.first_char == '-',
            made.modifier_byte.is_none(),
            made.modifier_char.is_none(),
            match value {
                ValueOrBuffer::Value(v) => {
                    &&& made.value_of == Ok::<Option<()>, TypeError>(v)
                    &&& viewed(made.buff) == null_written(v)
                },
                ValueOrBuffer::Buffer(b) => {
                    &&& viewed(made.value_of) == decoded(b@, "Null"@, null_read(b@))
                    &&& viewed(made.buff) == Ok::<Seq<u8>, TypeFailure>(b@)
                },
            },
    {
        match value {
            ValueOrBuffer::Value(v) => Self {
                first_byte: tags::NULL,
                modifier_byte: None,
                modifier_char: None,
                first_char: '-',
                value_of: Ok(v),
                buff: Self::encode(v),
            },
            ValueOrBuffer::Buffer(vec) => Self {
                first_byte: tags::NULL,
                modifier_byte: None,
                modifier_char: None,
                first_char: '-',
                value_of: Self::decode(vec.clone()),
                buff: Ok(vec),
            },
        }
    }

    /// The bytes of the absent value.  A present value is rejected.
    fn encode(value: Option<()>) -> (buff: TypeResult<Uint8Buff>)
        ensures
            viewed(buff) == null_written(value),
            buff matches Ok(bytes) ==> bytes@.len() > 0 && bytes@[0] == tags::NULL,
    {
        if value.is_some() {
            return Err(
                encoding_error(
                    EncodingError::new(
                        "Some(())",
                        "Null",
                        EncodingErrors::InvalidValue(
                            "Value cannot be Some(()), only None".to_string(),
                        ),
                    ),
                ),
            );
        }
        Ok(frame(tags::NULL, Vec::new()))
    }

    /// The absent value, if `value` holds it.
    fn decode(value: Uint8Buff) -> (absent: TypeResult<Option<()>>)
        ensures
            viewed(absent) == decoded(value@, "Null"@, null_read(value@)),
            value@.len() > 0 && value@[0] != tags::NULL ==> (absent matches Err(error) && error@
                == first_byte_failure(value@, "Null"@, tags::NULL)),
            absent is Ok ==> value@.len() > 0 && value@[0] == tags::NULL,
    {
        let records = match open_frame(&value, "Null", tags::NULL) {
            Ok(records) => records,
            Err(cause) => {
                return Err(decoding_error(DecodingError::new(value, "Null", cause)));
            },
        };
        if records.len() > 1 {
            let cause = DecodingErrors::too_much("Records", 1, records.len());
            return Err(decoding_error(DecodingError::new(value, "Null", cause)));
        }
        if records.len() == 1 && records[0].len() > 0 {
            let cause = DecodingErrors::too_much("Bytes", 0, records[0].len());
            return Err(decoding_error(DecodingError::new(value, "Null", cause)));
        }
        Ok(None)
    }
}

} // verus!
