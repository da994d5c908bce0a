//! Commands: a name and a list of text arguments.

use crate::common::{tags, CoprotoType, Uint8Buff, ValueOrBuffer};
use crate::common::delimiters::{BUFFER_END, END_RECORD, START_RECORD};
use crate::common::errors::{
    decoded, decoding_error, first_byte_failure, not_enough, too_much, viewed, DecodingCause,
    DecodingError, DecodingErrors, TypeFailure, TypeResult,
};
use crate::common::join_parts::{join_parts, joined, push_part, BuffPart};
use crate::common::slice_records::views;
use crate::common::split_values::{fields_of, split_values};
use crate::types::infer_buffer::{infer_buffer, inferred};
use crate::types::primitive::frame::{framed, open_frame, opened};
use crate::types::primitive::string::{string_bytes, string_read};
use crate::types::primitive::supported_types::{kind_name, text_views, ScalarValue, SupportedTypes};
use super::body::{cause_of, push_sibling, sibling, text_siblings};
use vstd::prelude::*;

verus! {

/// A command together with its encoding.
#[derive(Debug)]
pub struct Command {
    pub first_byte: u8,
    pub modifier_byte: Option<u8>,
    pub modifier_char: Option<char>,
    pub first_char: char,
    pub value_of: TypeResult<(String, Vec<String>)>,
    pub buff: TypeResult<Uint8Buff>,
}

/// The encoding of a command: the tag and one record that holds the name
/// and then the arguments, all as text siblings.
pub open spec fn command_bytes(name: Seq<char>, args: Seq<Seq<char>>) -> Seq<u8> {
    framed(tags::COMMAND, sibling(string_bytes(name)) + text_siblings(args))
}

/// The texts that `fields` hold, in order, or the failure of the first field
/// that holds none.  A field without bytes stands for no text; a field that
/// holds a scalar of another kind is a failure.
pub open spec fn texts_inferred(fields: Seq<Seq<u8>>) -> Result<Seq<Seq<char>>, DecodingCause>
    decreases fields.len(),
{
    if fields.len() == 0 {
        Ok(Seq::empty())
    } else {
        match texts_inferred(fields.drop_last()) {
            Err(cause) => Err(cause),
            Ok(texts) => if fields.last().len() == 0 {
                Ok(texts)
            } else {
                match inferred(fields.last()) {
                    Err(cause) => Err(cause),
                    Ok(ScalarValue::String(text)) => Ok(texts.push(text)),
                    Ok(other) => Err(
                        DecodingCause::InvalidTypeInCompositeType(kind_name(other), "String"@),
                    ),
                }
            },
        }
    }
}

/// The command that `buff` holds, or why it holds none.
///
/// After the tag there has to be exactly one record.  Its first field has to
/// hold the name as text, and each later field that holds any byte has to
/// hold a text.
pub open spec fn command_read(buff: Seq<u8>) -> Result<
    (Seq<char>, Seq<Seq<char>>),
    DecodingCause,
> {
    match opened(buff, "Command"@, tags::COMMAND) {
        Err(cause) => Err(cause),
        Ok(records) => {
            if records.len() > 1 {
                Err(too_much("Records"@, 1, records.len()))
            } else if records.len() == 0 {
                Err(not_enough("Bytes"@, 4, buff.len()))
            } else {
                let fields = fields_of(records[0]);
                if fields.len() == 0 || fields[0].len() == 0 {
                    Err(not_enough("Values"@, 1, 0))
                } else {
                    match string_read(fields[0]) {
                        Err(cause) => Err(cause),
                        Ok(name) => command_with(name, texts_inferred(fields.skip(1))),
                    }
                }
            }
        },
    }
}

/// The command with the given name whose arguments were read as `args`.
pub open spec fn command_with(
    name: Seq<char>,
    args: Result<Seq<Seq<char>>, DecodingCause>,
) -> Result<(Seq<char>, Seq<Seq<char>>), DecodingCause> {
    match args {
        Err(cause) => Err(cause),
        Ok(args) => Ok((name, args)),
    }
}

/// A result of decoding a command, with value and error replaced by their
/// views.
pub open spec fn command_viewed(result: TypeResult<(String, Vec<String>)>) -> Result<
    (Seq<char>, Seq<Seq<char>>),
    TypeFailure,
> {
    match result {
        Ok((name, args)) => Ok((name@, text_views(args@))),
        Err(error) => Err(error@),
    }
}

/// Once a start of `fields` fails to give texts, all of `fields` fail for
/// the same cause.
pub proof fn lemma_text_failure_reaches_end(fields: Seq<Seq<u8>>, shorter: int)
    requires
        0 <= shorter <= fields.len(),
        texts_inferred(fields.take(shorter)) is Err,
    ensures
        texts_inferred(fields) == texts_inferred(fields.take(shorter)),
    decreases fields.len() - shorter,
{
    if shorter < fields.len() {
        assert(fields.take(shorter + 1).drop_last() =~= fields.take(shorter));
        lemma_text_failure_reaches_end(fields, shorter + 1);
    } else {
        assert(fields.take(shorter) =~= fields);
    }
}

impl CoprotoType<(String, Vec<String>)> for Command {
    const FIRST_BYTE: u8 = tags::COMMAND;

    /// Encodes a value or decodes a buffer, and keeps both sides.
    fn new(value: ValueOrBuffer<(String, Vec<String>)>) -> (made: Self)
        ensures
            made.first_byte == tags::COMMAND,
            made.first_char == '$',
            made.modifier_byte.is_none(),
            made.modifier_char.is_none(),
            match value {
                ValueOrBuffer::Value(v) => {
                    &&& command_viewed(made.value_of) == Ok::<
                        (Seq<char>, Seq<Seq<char>>),
                        TypeFailure,
                    >((v.0@, text_views(v.1@)))
                    &&& viewed(made.buff) == Ok::<Seq<u8>, TypeFailure>(
                        command_bytes(v.0@, text_views(v.1@)),
                    )
                },
                ValueOrBuffer::Buffer(b) => {
                    &&& command_viewed(made.value_of) == decoded(
                        b@,
                        "Command"@,
                        command_read(b@),
                    )
                    &&& viewed(made.buff) == Ok::<Seq<u8>, TypeFailure>(b@)
                },
            },
    {
        match value {
            ValueOrBuffer::Value(v) => {
                let buff = Self::encode_ref(&v.0, &v.1);
                Self {
                    first_byte: tags::COMMAND,
                    modifier_byte: None,
                    modifier_char: None,
                    first_char: '$',
                    value_of: Ok(v),
                    buff,
                }
            },
            ValueOrBuffer::Buffer(vec) => Self {
                first_byte: tags::COMMAND,
                modifier_byte: None,
                modifier_char: None,
                first_char: '$',
                value_of: Self::decode(vec.clone()),
                buff: Ok(vec),
            },
        }
    }

    /// The bytes of the command `value`.  Every command can be encoded.
    fn encode(value: (String, Vec<String>)) -> (buff: TypeResult<Uint8Buff>)
        ensures
            viewed(buff) == Ok::<Seq<u8>, TypeFailure>(
                command_bytes(value.0@, text_views(value.1@)),
            ),
            buff matches Ok(bytes) ==> bytes@.len() > 0 && bytes@[0] == tags::COMMAND,
    {
        Self::encode_ref(&value.0, &value.1)
    }

    /// The command that `value` holds.
    fn decode(value: Uint8Buff) -> (command: TypeResult<(String, Vec<String>)>)
        ensures
            command_viewed(command) == decoded(value@, "Command"@, command_read(value@)),
            value@.len() > 0 && value@[0] != tags::COMMAND ==> (command matches Err(error) && error@
                == first_byte_failure(value@, "Command"@, tags::COMMAND)),
            command is Ok ==> value@.len() > 0 && value@[0] == tags::COMMAND,
    {
        let mut records = match open_frame(&value, "Command", tags::COMMAND) {
            Ok(records) => records,
            Err(cause) => {
                return Err(decoding_error(DecodingError::new(value, "Command", cause)));
            },
        };
        if records.len() > 1 {
            let cause = DecodingErrors::too_much("Records", 1, records.len());
            return Err(decoding_error(DecodingError::new(value, "Command", cause)));
        }
        let command_record = match records.pop() {
            Some(record) => record,
            None => {
                let cause = DecodingErrors::not_enough("Bytes", 4, value.len());
                return Err(decoding_error(DecodingError::new(value, "Command", cause)));
            },
        };
        let values = split_values(command_record);
        if values.len() == 0 || values[0].len() == 0 {
            let cause = DecodingErrors::not_enough("Values", 1, 0);
            return Err(decoding_error(DecodingError::new(value, "Command", cause)));
        }
        let name = match crate::types::primitive::String::decode(values[0].clone()) {
            Ok(name) => name,
            Err(error) => {
                let cause = cause_of(error);
                return Err(decoding_error(DecodingError::new(value, "Command", cause)));
            },
        };
        let ghost rest = views(values@).skip(1);
        let mut coproto_args: Vec<String> = Vec::new();
        assert(text_views(coproto_args@) =~= Seq::<Seq<char>>::empty());
        let mut i: usize = 1;
        while i < values.len()
            invariant
                1 <= i <= values.len(),
                rest == views(values@).skip(1),
                command_read(value@) == command_with(name@, texts_inferred(rest)),
                texts_inferred(rest.take(i - 1)) == Ok::<Seq<Seq<char>>, DecodingCause>(
                    text_views(coproto_args@),
                ),
            decreases values.len() - i,
        {
            proof {
                assert(rest.take(i as int).drop_last() =~= rest.take(i - 1));
                assert(rest.take(i as int).last() == values@[i as int]@);
            }
            if values[i].len() > 0 {
                let infered = match infer_buffer(values[i].clone()) {
                    Ok(infered) => infered,
                    Err(error) => {
                        proof {
                            lemma_text_failure_reaches_end(rest, i as int);
                        }
                        let cause = cause_of(error);
                        return Err(decoding_error(DecodingError::new(value, "Command", cause)));
                    },
                };
                match infered {
                    SupportedTypes::String(text) => {
                        let ghost before = coproto_args@;
                        coproto_args.push(text);
                        assert(text_views(coproto_args@) =~= text_views(before).push(text@));
                    },
                    other => {
                        proof {
                            lemma_text_failure_reaches_end(rest, i as int);
                        }
                        let cause = DecodingErrors::InvalidTypeInCompositeType(
                            other.get_name().to_string(),
                            "String".to_string(),
                        );
                        return Err(decoding_error(DecodingError::new(value, "Command", cause)));
                    },
                }
            }
            i += 1;
        }
        assert(rest.take(i - 1) =~= rest);
        Ok((name, coproto_args))
    }
}

impl Command {
    /// The bytes of the command with the given name and arguments, which
    /// stay with the caller.
    pub fn encode_ref(name: &String, args: &Vec<String>) -> (buff: TypeResult<Uint8Buff>)
        ensures
            viewed(buff) == Ok::<Seq<u8>, TypeFailure>(command_bytes(name@, text_views(args@))),
    {
        let mut parts: Vec<BuffPart> = Vec::new();
        assert(joined(parts@) =~= Seq::<u8>::empty());
        push_part(&mut parts, BuffPart::Val(tags::COMMAND));
        push_part(&mut parts, BuffPart::Val(START_RECORD));
        let command_name = match crate::types::primitive::String::encode(name.clone()) {
            Ok(command_name) => command_name,
            Err(error) => {
                return Err(error);
            },
        };
        push_sibling(&mut parts, command_name);
        let ghost all = text_views(args@);
        let ghost head = seq![tags::COMMAND, START_RECORD] + sibling(string_bytes(name@));
        let mut i: usize = 0;
        while i < args.len()
            invariant
                i <= args.len(),
                all == text_views(args@),
                joined(parts@) == head + text_siblings(all.take(i as int)),
            decreases args.len() - i,
        {
            proof {
                assert(all.take(i + 1).drop_last() =~= all.take(i as int));
            }
            let encoded_string = match crate::types::primitive::String::encode(args[i].clone()) {
                Ok(encoded_string) => encoded_string,
                Err(error) => {
                    return Err(error);
                },
            };
            push_sibling(&mut parts, encoded_string);
            assert(joined(parts@) =~= head + text_siblings(all.take(i + 1)));
            i += 1;
        }
        assert(all.take(i as int) =~= all);
        push_part(&mut parts, BuffPart::Val(END_RECORD));
        push_part(&mut parts, BuffPart::Val(BUFFER_END));
        assert(joined(parts@) =~= command_bytes(name@, all));
        Ok(join_parts(parts))
    }
}

} // verus!
