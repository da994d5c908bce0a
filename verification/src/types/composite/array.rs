//! Ordered sequences of scalars of mixed kind.

use crate::common::{tags, CoprotoType, Uint8Buff, ValueOrBuffer};
use crate::common::delimiters::{BUFFER_END, END_RECORD, START_RECORD};
use crate::common::errors::{
    decoded, decoding_error, first_byte_failure, too_much, viewed, DecodingCause, DecodingError,
    DecodingErrors, TypeFailure, TypeResult,
};
use crate::common::join_parts::{join_parts, joined, push_part, BuffPart};
use crate::common::slice_records::views;
use crate::common::split_values::{fields_of, split_values};
use crate::types::infer_buffer::infer_buffer;
use crate::types::primitive::frame::{framed, open_frame, opened};
use crate::types::primitive::supported_types::{scalar_views, ScalarValue, SupportedTypes};
use super::body::{
    cause_of, inferred_all, lemma_failure_reaches_end, push_siblings, siblings_written,
};
use vstd::prelude::*;

verus! {

/// A sequence of scalars together with its encoding.
#[derive(Debug)]
pub struct Array {
    pub first_byte: u8,
    pub modifier_byte: Option<u8>,
    pub modifier_char: Option<char>,
    pub first_char: char,
    pub value_of: TypeResult<Vec<SupportedTypes>>,
    pub buff: TypeResult<Uint8Buff>,
}

/// What encoding `values` gives: the tag and one record that holds the
/// values as siblings; or the failure of the first value that cannot be
/// encoded.
pub open spec fn array_written(values: Seq<ScalarValue>) -> Result<Seq<u8>, TypeFailure> {
    match siblings_written(values) {
        Err(failure) => Err(failure),
        Ok(body) => Ok(framed(tags::ARRAY, body)),
    }
}

/// The values that `buff` holds, or why it holds none.
///
/// After the tag there may be at most one record.  Each of its fields that
/// holds any byte has to hold a scalar.  Without a record there are no
/// values.
pub open spec fn array_read(buff: Seq<u8>) -> Result<Seq<ScalarValue>, DecodingCause> {
    match opened(buff, "Array"@, tags::ARRAY) {
        Err(cause) => Err(cause),
        Ok(records) => {
            if records.len() > 1 {
                Err(too_much("Records"@, 1, records.len()))
            } else if records.len() == 0 {
                Ok(Seq::empty())
            } else {
                inferred_all(fields_of(records[0]))
            }
        },
    }
}

/// A result of decoding an array, with values and error replaced by their
/// views.
pub open spec fn array_viewed(result: TypeResult<Vec<SupportedTypes>>) -> Result<
    Seq<ScalarValue>,
    TypeFailure,
> {
    match result {
        Ok(values) => Ok(scalar_views(values@)),
        Err(error) => Err(error@),
    }
}

impl CoprotoType<Vec<SupportedTypes>> for Array {
    const FIRST_BYTE: u8 = tags::ARRAY;

    /// Encodes a value or decodes a buffer, and keeps both sides.
    fn new(value: ValueOrBuffer<Vec<SupportedTypes>>) -> (made: Self)
        ensures
            made.first_byte == tags::ARRAY,
            made.first_char == '[',
            made.modifier_byte.is_none(),
            made.modifier_char.is_none(),
            match value {
                ValueOrBuffer::Value(v) => {
                    &&& array_viewed(made.value_of) == Ok::<Seq<ScalarValue>, TypeFailure>(
                        scalar_views(v@),
                    )
                    &&& viewed(made.buff) == array_written(scalar_views(v@))
                },
                ValueOrBuffer::Buffer(b) => {
                    &&& array_viewed(made.value_of) == decoded(b@, "Array"@, array_read(b@))
                    &&& viewed(made.buff) == Ok::<Seq<u8>, TypeFailure>(b@)
                },
            },
    {
        match value {
            ValueOrBuffer::Value(value) => {
                let buff = Self::encode_ref(&value);
                Self {
                    first_byte: tags::ARRAY,
                    modifier_byte: None,
                    modifier_char: None,
                    first_char: '[',
                    value_of: Ok(value),
                    buff,
                }
            },
            ValueOrBuffer::Buffer(vec) => Self {
                first_byte: tags::ARRAY,
                modifier_byte: None,
                modifier_char: None,
                first_char: '[',
                value_of: Self::decode(vec.clone()),
                buff: Ok(vec),
            },
        }
    }

    /// The bytes of `values`.
    fn encode(values: Vec<SupportedTypes>) -> (buff: TypeResult<Uint8Buff>)
        ensures
            viewed(buff) == array_written(scalar_views(values@)),
            buff matches Ok(bytes) ==> bytes@.len() > 0 && bytes@[0] == tags::ARRAY,
    {
        Self::encode_ref(&values)
    }

    /// The values that `value` holds.
    fn decode(value: Uint8Buff) -> (values: TypeResult<Vec<SupportedTypes>>)
        ensures
            array_viewed(values) == decoded(value@, "Array"@, array_read(value@)),
            value@.len() > 0 && value@[0] != tags::ARRAY ==> (values matches Err(error) && error@
                == first_byte_failure(value@, "Array"@, tags::ARRAY)),
            values is Ok ==> value@.len() > 0 && value@[0] == tags::ARRAY,
    {
        let mut array: Vec<SupportedTypes> = Vec::new();
        let mut records = match open_frame(&value, "Array", tags::ARRAY) {
            Ok(records) => records,
            Err(cause) => {
                return Err(decoding_error(DecodingError::new(value, "Array", cause)));
            },
        };
        if records.len() > 1 {
            let cause = DecodingErrors::too_much("Records", 1, records.len());
            return Err(decoding_error(DecodingError::new(value, "Array", cause)));
        }
        assert(scalar_views(array@) =~= Seq::<ScalarValue>::empty());
        let body = match records.pop() {
            Some(body) => body,
            None => {
                return Ok(array);
            },
        };
        let fields = split_values(body);
        assert(array_read(value@) == inferred_all(views(fields@)));
        let mut i: usize = 0;
        while i < fields.len()
            invariant
                i <= fields.len(),
                array_read(value@) == inferred_all(views(fields@)),
                inferred_all(views(fields@).take(i as int)) == Ok::<
                    Seq<ScalarValue>,
                    DecodingCause,
                >(scalar_views(array@)),
            decreases fields.len() - i,
        {
            proof {
                assert(views(fields@).take(i + 1).drop_last() =~= views(fields@).take(i as int));
            }
            if fields[i].len() > 0 {
                match infer_buffer(fields[i].clone()) {
                    Ok(element) => {
                        let ghost before = array@;
                        array.push(element);
                        assert(scalar_views(array@) =~= scalar_views(before).push(element@));
                    },
                    Err(error) => {
                        proof {
                            lemma_failure_reaches_end(views(fields@), i + 1);
                        }
                        let cause = cause_of(error);
                        return Err(decoding_error(DecodingError::new(value, "Array", cause)));
                    },
                }
            }
            i += 1;
        }
        assert(views(fields@).take(i as int) =~= views(fields@));
        Ok(array)
    }
}

impl Array {
    /// The bytes of `values`, which stay with the caller.
    pub fn encode_ref(values: &Vec<SupportedTypes>) -> (buff: TypeResult<Uint8Buff>)
        ensures
            viewed(buff) == array_written(scalar_views(values@)),
    {
        let mut parts: Vec<BuffPart> = Vec::new();
        assert(joined(parts@) =~= Seq::<u8>::empty());
        push_part(&mut parts, BuffPart::Val(tags::ARRAY));
        push_part(&mut parts, BuffPart::Val(START_RECORD));
        match push_siblings(&mut parts, values) {
            Ok(_) => {},
            Err(error) => {
                return Err(error);
            },
        }
        let ghost body = siblings_written(scalar_views(values@))->Ok_0;
        push_part(&mut parts, BuffPart::Val(END_RECORD));
        push_part(&mut parts, BuffPart::Val(BUFFER_END));
        assert(joined(parts@) =~= framed(tags::ARRAY, body));
        Ok(join_parts(parts))
    }
}

} // verus!
