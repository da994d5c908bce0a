//! Named values: a name and one scalar of any kind.

use crate::common::{tags, CoprotoType, Uint8Buff, ValueOrBuffer};
use crate::common::delimiters::{BUFFER_END, END_RECORD, START_RECORD};
use crate::common::errors::{
    decoded, decoding_error, first_byte_failure, not_enough, too_much, viewed, DecodingCause,
    DecodingError, DecodingErrors, TypeFailure, TypeResult,
};
use crate::common::join_parts::{join_parts, joined, push_part, BuffPart};
use crate::common::split_values::{fields_of, split_values};
use crate::types::composite::body::lemma_written_is_not_empty;
use crate::types::infer_buffer::{infer_buffer, inferred};
use crate::types::primitive::frame::{framed, open_frame, opened};
use crate::types::primitive::string::{string_bytes, string_read};
use crate::types::primitive::supported_types::{scalar_written, ScalarValue, SupportedTypes};
use super::body::{cause_of, push_sibling, sibling};
use vstd::prelude::*;

verus! {

/// A named value together with its encoding.
#[derive(Debug)]
pub struct NamedValue {
    pub first_byte: u8,
    pub modifier_byte: Option<u8>,
    pub modifier_char: Option<char>,
    pub first_char: char,
    pub value_of: TypeResult<(String, SupportedTypes)>,
    pub buff: TypeResult<Uint8Buff>,
}

/// What encoding a named value gives: the tag and one record that holds the
/// name as text and then the value, as siblings; or the failure of the value
/// if it cannot be encoded.
pub open spec fn named_value_written(name: Seq<char>, value: ScalarValue) -> Result<
    Seq<u8>,
    TypeFailure,
> {
    match scalar_written(value) {
        Err(failure) => Err(failure),
        Ok(written) => Ok(
            framed(tags::NAMED_VALUE, sibling(string_bytes(name)) + sibling(written)),
        ),
    }
}

/// Whether `fields` has a field at `index` that holds any byte.
pub open spec fn is_present(fields: Seq<Seq<u8>>, index: int) -> bool {
    0 <= index < fields.len() && fields[index].len() > 0
}

/// How many of the two fields of a named value are present.
pub open spec fn present_of_two(fields: Seq<Seq<u8>>) -> nat {
    (if is_present(fields, 0) {
        1nat
    } else {
        0nat
    }) + (if is_present(fields, 1) {
        1nat
    } else {
        0nat
    })
}

/// The named value that `buff` holds, or why it holds none.
///
/// After the tag there has to be exactly one record.  Its first field has to
/// hold the name as text and its second field a scalar of any kind.  Further
/// fields are not looked at.
pub open spec fn named_value_read(buff: Seq<u8>) -> Result<
    (Seq<char>, ScalarValue),
    DecodingCause,
> {
    match opened(buff, "NamedValue"@, tags::NAMED_VALUE) {
        Err(cause) => Err(cause),
        Ok(records) => {
            if records.len() > 1 {
                Err(too_much("Records"@, 1, records.len()))
            } else if records.len() == 0 {
                Err(not_enough("Bytes"@, 4, buff.len()))
            } else {
                let fields = fields_of(records[0]);
                if present_of_two(fields) < 2 {
                    Err(not_enough("Values"@, 2, present_of_two(fields)))
                } else {
                    match string_read(fields[0]) {
                        Err(cause) => Err(cause),
                        Ok(name) => match inferred(fields[1]) {
                            Err(cause) => Err(cause),
                            Ok(value) => Ok((name, value)),
                        },
                    }
                }
            }
        },
    }
}

impl CoprotoType<(String, SupportedTypes)> for NamedValue {
    const FIRST_BYTE: u8 = tags::NAMED_VALUE;

    /// Encodes a value or decodes a buffer, and keeps both sides.
    fn new(value: ValueOrBuffer<(String, SupportedTypes)>) -> (made: Self)
        ensures
            made.first_byte == tags::NAMED_VALUE,
            made.first_char == '@',
            made.modifier_byte.is_none(),
            made.modifier_char.is_none(),
            match value {
                ValueOrBuffer::Value(v) => {
                    &&& viewed(made.value_of) == Ok::<(Seq<char>, ScalarValue), TypeFailure>(v@)
                    &&& viewed(made.buff) == named_value_written(v.0@, v.1@)
                },
                ValueOrBuffer::Buffer(b) => {
                    &&& viewed(made.value_of) == decoded(
                        b@,
                        "NamedValue"@,
                        named_value_read(b@),
                    )
                    &&& viewed(made.buff) == Ok::<Seq<u8>, TypeFailure>(b@)
                },
            },
    {
        match value {
            ValueOrBuffer::Value(v) => {
                let buff = Self::encode_ref(&v.0, &v.1);
                Self {
                    first_byte: tags::NAMED_VALUE,
                    modifier_byte: None,
                    modifier_char: None,
                    first_char: '@',
                    value_of: Ok(v),
                    buff,
                }
            },
            ValueOrBuffer::Buffer(vec) => Self {
                first_byte: tags::NAMED_VALUE,
                modifier_byte: None,
                modifier_char: None,
                first_char: '@',
                value_of: Self::decode(vec.clone()),
                buff: Ok(vec),
            },
        }
    }

    /// The bytes of the named value `value`.
    fn encode(value: (String, SupportedTypes)) -> (buff: TypeResult<Uint8Buff>)
        ensures
            viewed(buff) == named_value_written(value.0@, value.1@),
            buff matches Ok(bytes) ==> bytes@.len() > 0 && bytes@[0] == tags::NAMED_VALUE,
    {
        Self::encode_ref(&value.0, &value.1)
    }

    /// The named value that `value` holds.
    fn decode(value: Uint8Buff) -> (named: TypeResult<(String, SupportedTypes)>)
        ensures
            viewed(named) == decoded(value@, "NamedValue"@, named_value_read(value@)),
            value@.len() > 0 && value@[0] != tags::NAMED_VALUE ==> (named matches Err(error)
                && error@ == first_byte_failure(value@, "NamedValue"@, tags::NAMED_VALUE)),
            named is Ok ==> value@.len() > 0 && value@[0] == tags::NAMED_VALUE,
    {
        let mut records = match open_frame(&value, "NamedValue", tags::NAMED_VALUE) {
            Ok(records) => records,
            Err(cause) => {
                return Err(decoding_error(DecodingError::new(value, "NamedValue", cause)));
            },
        };
        if records.len() > 1 {
            let cause = DecodingErrors::too_much("Records", 1, records.len());
            return Err(decoding_error(DecodingError::new(value, "NamedValue", cause)));
        }
        let named_value_record = match records.pop() {
            Some(record) => record,
            None => {
                let cause = DecodingErrors::not_enough("Bytes", 4, value.len());
                return Err(decoding_error(DecodingError::new(value, "NamedValue", cause)));
            },
        };
        let values = split_values(named_value_record);
        let has_name = values.len() > 0 && values[0].len() > 0;
        let has_value = values.len() > 1 && values[1].len() > 0;
        if !has_name || !has_value {
            let present: usize = if has_name || has_value {
                1
            } else {
                0
            };
            let cause = DecodingErrors::not_enough("Values", 2, present);
            return Err(decoding_error(DecodingError::new(value, "NamedValue", cause)));
        }
        let name = match crate::types::primitive::String::decode(values[0].clone()) {
            Ok(name) => name,
            Err(error) => {
                let cause = cause_of(error);
                return Err(decoding_error(DecodingError::new(value, "NamedValue", cause)));
            },
        };
        let held = match infer_buffer(values[1].clone()) {
            Ok(held) => held,
            Err(error) => {
                let cause = cause_of(error);
                return Err(decoding_error(DecodingError::new(value, "NamedValue", cause)));
            },
        };
        Ok((name, held))
    }
}

impl NamedValue {
    /// The bytes of the named value with the given name and value, which
    /// stay with the caller.
    pub fn encode_ref(name: &String, value: &SupportedTypes) -> (buff: TypeResult<Uint8Buff>)
        ensures
            viewed(buff) == named_value_written(name@, value@),
    {
        let mut parts: Vec<BuffPart> = Vec::new();
        assert(joined(parts@) =~= Seq::<u8>::empty());
        push_part(&mut parts, BuffPart::Val(tags::NAMED_VALUE));
        push_part(&mut parts, BuffPart::Val(START_RECORD));
        let command_name = match crate::types::primitive::String::encode(name.clone()) {
            Ok(command_name) => command_name,
            Err(error) => {
                return Err(error);
            },
        };
        push_sibling(&mut parts, command_name);
        let encoded = match value.encode() {
            Ok(encoded) => encoded,
            Err(error) => {
                return Err(error);
            },
        };
        proof {
            lemma_written_is_not_empty(value@);
        }
        let ghost body = sibling(string_bytes(name@)) + sibling(encoded@);
        push_sibling(&mut parts, encoded);
        push_part(&mut parts, BuffPart::Val(END_RECORD));
        push_part(&mut parts, BuffPart::Val(BUFFER_END));
        assert(joined(parts@) =~= framed(tags::NAMED_VALUE, body));
        Ok(join_parts(parts))
    }
}

} // verus!
