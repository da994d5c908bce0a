//! Laws of the scalar kinds.
//!
//! * Round trip: what was encoded is decoded again
//!   ([`lemma_bigint_round_trip`], [`lemma_integer_round_trip`],
//!   [`lemma_double_round_trip`], [`lemma_boolean_round_trip`],
//!   [`lemma_null_round_trip`], [`lemma_string_round_trip`],
//!   [`lemma_scalar_round_trip`]).  Text has to survive framing for this, and
//!   only such text is ever decoded ([`lemma_read_text_survives`]).
//! * Sign optionality: a number without sign byte is read as with `'+'`
//!   ([`lemma_bigint_sign_is_optional`], [`lemma_integer_sign_is_optional`],
//!   [`lemma_double_sign_is_optional`]).
//! * Purity: what is read depends on the bytes alone
//!   ([`lemma_reading_scalars_is_pure`]).
//! * Boundaries of each kind (`lemma_*_rejects_*`,
//!   [`lemma_no_digits_spell_zero`]).
//!
//! The round trip is stated for the encoding without its `BUFFER_END`,
//! followed by any bytes that hold no framing byte.  With `BUFFER_END` as
//! those bytes this is the encoding itself; with no bytes it is the form
//! that a composite holds.

use crate::common::tags;
use crate::common::delimiters::{
    is_framing_byte, BUFFER_END, END_RECORD, START_RECORD, VALUE_DELIMITER,
};
use crate::common::errors::{
    encoding_failure, invalid_byte, too_much, DecodingCause, EncodingCause, TypeFailure,
};
use crate::common::framing::{
    atom, is_plain, lemma_plain_is_enclosed, lemma_sliced_frame, lemma_sliced_records_survive,
    survives_framing,
};
use crate::common::modifiers::{MINUS, PLUS};
use crate::common::slice_records::sliced;
use crate::types::infer_buffer::inferred;
use super::bigint::{bigint_bytes, bigint_read};
use super::boolean::{boolean_bytes, boolean_read, truth_alphabet, truth_byte};
use super::digits::{
    all_digits, decimal_digits, decimal_value, lemma_decimal_digits_are_digits,
    lemma_decimal_value_of_digits, magnitude,
};
use super::double::{
    decimal_payload, double_read, double_written, is_decimal_char, is_decimal_text, payload_text,
    DecimalView,
};
use super::frame::{after_sign, framed, opened, opened_signed, sign_byte, signed_framed};
use super::integer::{integer_bytes, integer_read};
use super::null::{null_bytes, null_read, null_written};
use super::string::{string_bytes, string_read};
use super::supported_types::{scalar_written, ScalarValue};
use vstd::prelude::*;
use vstd::utf8::{
    decode_utf8_encode_utf8, encode_utf8, encode_utf8_decode_utf8, encode_utf8_valid_utf8,
    valid_utf8,
};

verus! {

/// The bytes before the record of the encoding of `value`: the tag, and the
/// sign of a number.
pub open spec fn scalar_head(value: ScalarValue) -> Seq<u8> {
    match value {
        ScalarValue::BigInt(number) => seq![tags::BIG_INT, sign_byte(number < 0)],
        ScalarValue::Boolean(_) => seq![tags::BOOLEAN],
        ScalarValue::Double(number) => seq![tags::DOUBLE, sign_byte(number.negative)],
        ScalarValue::Integer(number) => seq![tags::INTEGER, sign_byte(number < 0)],
        ScalarValue::Null(_) => seq![tags::NULL],
        ScalarValue::String(_) => seq![tags::STRING],
    }
}

/// The payload of the encoding of `value`.
pub open spec fn scalar_payload(value: ScalarValue) -> Seq<u8> {
    match value {
        ScalarValue::BigInt(number) => decimal_digits(magnitude(number as int)),
        ScalarValue::Boolean(truth) => seq![truth_byte(truth)],
        ScalarValue::Double(number) => decimal_payload(number.text),
        ScalarValue::Integer(number) => decimal_digits(magnitude(number as int)),
        ScalarValue::Null(_) => Seq::empty(),
        ScalarValue::String(text) => encode_utf8(text),
    }
}

/// The encoding of `value` without its `BUFFER_END`.
pub open spec fn scalar_atom(value: ScalarValue) -> Seq<u8> {
    atom(scalar_head(value), scalar_payload(value))
}

/// Whether `value` can be encoded: a number has to be decimal text, and the
/// absent value has to be absent.
pub open spec fn can_be_written(value: ScalarValue) -> bool {
    match value {
        ScalarValue::Double(number) => is_decimal_text(number.text),
        ScalarValue::Null(absent) => absent is None,
        _ => true,
    }
}

/// Whether the text in `value`, if it is one, survives framing.  Text that
/// holds control bytes of the format may not.
pub open spec fn text_survives(value: ScalarValue) -> bool {
    match value {
        ScalarValue::String(text) => survives_framing(encode_utf8(text)),
        _ => true,
    }
}

/// Bytes without framing bytes survive framing.
pub proof fn lemma_plain_survives(payload: Seq<u8>)
    requires
        is_plain(payload),
    ensures
        survives_framing(payload),
{
    lemma_plain_is_enclosed(payload);
    if payload.contains(VALUE_DELIMITER) {
        let at = choose|i: int| 0 <= i < payload.len() && payload[i] == VALUE_DELIMITER;
        assert(!is_framing_byte(payload[at]));
    }
}

/// The records behind the tag of an atom are its payload alone.
pub proof fn lemma_opened_atom(tag: u8, kind: Seq<char>, payload: Seq<u8>, tail: Seq<u8>)
    requires
        survives_framing(payload),
        is_plain(tail),
    ensures
        opened(atom(seq![tag], payload) + tail, kind, tag) == Ok::<Seq<Seq<u8>>, DecodingCause>(
            seq![payload],
        ),
{
    let buff = atom(seq![tag], payload) + tail;
    assert(buff.skip(1) =~= seq![START_RECORD] + payload + seq![END_RECORD] + tail);
    lemma_sliced_frame(payload, tail);
}

/// The records behind tag and sign of an atom are its payload alone, and the
/// sign is the one that was written.
pub proof fn lemma_opened_signed_atom(
    tag: u8,
    kind: Seq<char>,
    negative: bool,
    payload: Seq<u8>,
    tail: Seq<u8>,
)
    requires
        survives_framing(payload),
        is_plain(tail),
    ensures
        opened_signed(atom(seq![tag, sign_byte(negative)], payload) + tail, kind, tag) == Ok::<
            (bool, Seq<Seq<u8>>),
            DecodingCause,
        >((negative, seq![payload])),
{
    let buff = atom(seq![tag, sign_byte(negative)], payload) + tail;
    assert(buff[1] == sign_byte(negative));
    assert(after_sign(buff) =~= seq![START_RECORD] + payload + seq![END_RECORD] + tail);
    lemma_sliced_frame(payload, tail);
}

/// An unsigned encoding is its atom and `BUFFER_END`.
pub proof fn lemma_framed_is_atom(tag: u8, payload: Seq<u8>)
    ensures
        framed(tag, payload) == atom(seq![tag], payload) + seq![BUFFER_END],
        framed(tag, payload).drop_last() == atom(seq![tag], payload),
{
    assert(framed(tag, payload) =~= atom(seq![tag], payload) + seq![BUFFER_END]);
    assert(framed(tag, payload).drop_last() =~= atom(seq![tag], payload));
}

/// A signed encoding is its atom and `BUFFER_END`.
pub proof fn lemma_signed_framed_is_atom(tag: u8, negative: bool, payload: Seq<u8>)
    ensures
        signed_framed(tag, negative, payload) == atom(seq![tag, sign_byte(negative)], payload)
            + seq![BUFFER_END],
        signed_framed(tag, negative, payload).drop_last() == atom(
            seq![tag, sign_byte(negative)],
            payload,
        ),
{
    assert(signed_framed(tag, negative, payload) =~= atom(
        seq![tag, sign_byte(negative)],
        payload,
    ) + seq![BUFFER_END]);
    assert(signed_framed(tag, negative, payload).drop_last() =~= atom(
        seq![tag, sign_byte(negative)],
        payload,
    ));
}

/// Digits hold no framing byte.
pub proof fn lemma_digits_are_plain(digits: Seq<u8>)
    requires
        all_digits(digits),
    ensures
        is_plain(digits),
{
}

/// Round trip of 64-bit integers: every number is read back from its
/// encoding, also inside a composite and before trailing bytes.
pub proof fn lemma_bigint_reads_back(value: i64, tail: Seq<u8>)
    requires
        is_plain(tail),
    ensures
        bigint_read(scalar_atom(ScalarValue::BigInt(value)) + tail) == Ok::<i64, DecodingCause>(
            value,
        ),
{
    let digits = decimal_digits(magnitude(value as int));
    lemma_decimal_digits_are_digits(magnitude(value as int));
    lemma_decimal_value_of_digits(magnitude(value as int));
    lemma_digits_are_plain(digits);
    lemma_plain_survives(digits);
    lemma_opened_signed_atom(tags::BIG_INT, "BigInt"@, value < 0, digits, tail);
}

/// Round trip of 64-bit integers: decoding the encoding of a number gives
/// the number.
pub proof fn lemma_bigint_round_trip(value: i64)
    ensures
        bigint_read(bigint_bytes(value)) == Ok::<i64, DecodingCause>(value),
{
    lemma_signed_framed_is_atom(
        tags::BIG_INT,
        value < 0,
        decimal_digits(magnitude(value as int)),
    );
    lemma_bigint_reads_back(value, seq![BUFFER_END]);
}

/// Round trip of 32-bit integers: every number is read back from its
/// encoding, also inside a composite and before trailing bytes.
pub proof fn lemma_integer_reads_back(value: i32, tail: Seq<u8>)
    requires
        is_plain(tail),
    ensures
        integer_read(scalar_atom(ScalarValue::Integer(value)) + tail) == Ok::<i32, DecodingCause>(
            value,
        ),
{
    let digits = decimal_digits(magnitude(value as int));
    lemma_decimal_digits_are_digits(magnitude(value as int));
    lemma_decimal_value_of_digits(magnitude(value as int));
    lemma_digits_are_plain(digits);
    lemma_plain_survives(digits);
    lemma_opened_signed_atom(tags::INTEGER, "Integer"@, value < 0, digits, tail);
}

/// Round trip of 32-bit integers: decoding the encoding of a number gives
/// the number.
pub proof fn lemma_integer_round_trip(value: i32)
    ensures
        integer_read(integer_bytes(value)) == Ok::<i32, DecodingCause>(value),
{
    lemma_signed_framed_is_atom(
        tags::INTEGER,
        value < 0,
        decimal_digits(magnitude(value as int)),
    );
    lemma_integer_reads_back(value, seq![BUFFER_END]);
}

/// Round trip of truth values: both are read back from their encoding, also
/// inside a composite and before trailing bytes.
pub proof fn lemma_boolean_reads_back(value: bool, tail: Seq<u8>)
    requires
        is_plain(tail),
    ensures
        boolean_read(scalar_atom(ScalarValue::Boolean(value)) + tail) == Ok::<
            bool,
            DecodingCause,
        >(value),
{
    let payload = seq![truth_byte(value)];
    lemma_plain_survives(payload);
    lemma_opened_atom(tags::BOOLEAN, "Boolean"@, payload, tail);
}

/// Round trip of truth values: decoding the encoding of a truth value gives
/// the truth value.
pub proof fn lemma_boolean_round_trip(value: bool)
    ensures
        boolean_read(boolean_bytes(value)) == Ok::<bool, DecodingCause>(value),
{
    lemma_framed_is_atom(tags::BOOLEAN, seq![truth_byte(value)]);
    lemma_boolean_reads_back(value, seq![BUFFER_END]);
}

/// Round trip of the absent value: it is read back from its encoding, also
/// inside a composite and before trailing bytes.
pub proof fn lemma_null_reads_back(tail: Seq<u8>)
    requires
        is_plain(tail),
    ensures
        null_read(scalar_atom(ScalarValue::Null(None)) + tail) == Ok::<Option<()>, DecodingCause>(
            None,
        ),
{
    let payload = Seq::<u8>::empty();
    lemma_plain_survives(payload);
    lemma_opened_atom(tags::NULL, "Null"@, payload, tail);
}

/// Round trip of the absent value: decoding its encoding gives it.
pub proof fn lemma_null_round_trip()
    ensures
        null_read(null_bytes()) == Ok::<Option<()>, DecodingCause>(None),
{
    lemma_framed_is_atom(tags::NULL, Seq::empty());
    lemma_null_reads_back(seq![BUFFER_END]);
}

/// Round trip of texts: a text whose bytes survive framing is read back
/// from its encoding, also inside a composite and before trailing bytes.
pub proof fn lemma_string_reads_back(text: Seq<char>, tail: Seq<u8>)
    requires
        survives_framing(encode_utf8(text)),
        is_plain(tail),
    ensures
        string_read(scalar_atom(ScalarValue::String(text)) + tail) == Ok::<
            Seq<char>,
            DecodingCause,
        >(text),
{
    let payload = encode_utf8(text);
    encode_utf8_valid_utf8(text);
    encode_utf8_decode_utf8(text);
    lemma_opened_atom(tags::STRING, "String"@, payload, tail);
}

/// Round trip of texts: decoding the encoding of a text gives the text, if
/// its bytes survive framing.
pub proof fn lemma_string_round_trip(text: Seq<char>)
    requires
        survives_framing(encode_utf8(text)),
    ensures
        string_read(string_bytes(text)) == Ok::<Seq<char>, DecodingCause>(text),
{
    lemma_framed_is_atom(tags::STRING, encode_utf8(text));
    lemma_string_reads_back(text, seq![BUFFER_END]);
}

/// Whatever is read as a text survives framing.  A text that does not
/// survive framing is thus read from no buffer at all, so that the round
/// trip of texts leaves out only texts that decoding cannot give back.
pub proof fn lemma_read_text_survives(buff: Seq<u8>, text: Seq<char>)
    requires
        string_read(buff) == Ok::<Seq<char>, DecodingCause>(text),
    ensures
        survives_framing(encode_utf8(text)),
{
    let records = sliced(buff.skip(1));
    assert(records.len() == 1);
    decode_utf8_encode_utf8(records[0]);
    assert(records[0] == encode_utf8(text));
    lemma_sliced_records_survive(buff.skip(1), records[0]);
}

/// Whatever is read as a scalar holds no text that does not survive
/// framing.
pub proof fn lemma_read_scalar_survives(buff: Seq<u8>, value: ScalarValue)
    requires
        inferred(buff) == Ok::<ScalarValue, DecodingCause>(value),
    ensures
        text_survives(value),
{
    if let ScalarValue::String(text) = value {
        lemma_read_text_survives(buff, text);
    }
}

/// The payload of decimal text holds no framing byte, and its text is the
/// text it was made of.
pub proof fn lemma_decimal_payload(text: Seq<char>)
    requires
        forall|i: int| 0 <= i < text.len() ==> is_decimal_char(#[trigger] text[i]),
    ensures
        is_plain(decimal_payload(text)),
        payload_text(decimal_payload(text)) == text,
{
    let payload = decimal_payload(text);
    assert forall|i: int| 0 <= i < payload.len() implies !is_framing_byte(
        #[trigger] payload[i],
    ) by {
        assert(is_decimal_char(text[i]));
    }
    assert forall|i: int| 0 <= i < text.len() implies payload_text(payload)[i] == text[i] by {
        assert(is_decimal_char(text[i]));
    }
    assert(payload_text(payload) =~= text);
}

/// Round trip of decimal numbers: decimal text with its sign is read back
/// from its encoding, also inside a composite and before trailing bytes.
pub proof fn lemma_double_reads_back(value: DecimalView, tail: Seq<u8>)
    requires
        is_decimal_text(value.text),
        is_plain(tail),
    ensures
        double_read(scalar_atom(ScalarValue::Double(value)) + tail) == Ok::<
            DecimalView,
            DecodingCause,
        >(value),
{
    let payload = decimal_payload(value.text);
    lemma_decimal_payload(value.text);
    lemma_plain_survives(payload);
    lemma_opened_signed_atom(tags::DOUBLE, "Double"@, value.negative, payload, tail);
}

/// Round trip of decimal numbers: if a number can be encoded, decoding its
/// encoding gives the number.
pub proof fn lemma_double_round_trip(value: DecimalView)
    ensures
        double_written(value) matches Ok(written) ==> double_read(written) == Ok::<
            DecimalView,
            DecodingCause,
        >(value),
{
    if is_decimal_text(value.text) {
        lemma_signed_framed_is_atom(
            tags::DOUBLE,
            value.negative,
            decimal_payload(value.text),
        );
        lemma_double_reads_back(value, seq![BUFFER_END]);
    }
}

/// The encoding of a scalar that can be encoded is its atom and
/// `BUFFER_END`.
pub proof fn lemma_scalar_written_is_atom(value: ScalarValue)
    requires
        can_be_written(value),
    ensures
        scalar_written(value) == Ok::<Seq<u8>, TypeFailure>(
            scalar_atom(value) + seq![BUFFER_END],
        ),
        (scalar_atom(value) + seq![BUFFER_END]).drop_last() == scalar_atom(value),
{
    lemma_framed_is_atom(scalar_head(value)[0], scalar_payload(value));
    if scalar_head(value).len() == 2 {
        lemma_signed_framed_is_atom(
            scalar_head(value)[0],
            scalar_head(value)[1] == MINUS,
            scalar_payload(value),
        );
    }
    assert((scalar_atom(value) + seq![BUFFER_END]).drop_last() =~= scalar_atom(value));
}

/// A scalar that cannot be encoded has no encoding.
pub proof fn lemma_unwritable_scalar(value: ScalarValue)
    requires
        !can_be_written(value),
    ensures
        scalar_written(value) is Err,
{
}

/// Round trip of scalars of any kind: a scalar that can be encoded, with
/// text that survives framing, is read back from its encoding by its tag,
/// also inside a composite and before trailing bytes.
pub proof fn lemma_scalar_reads_back(value: ScalarValue, tail: Seq<u8>)
    requires
        can_be_written(value),
        text_survives(value),
        is_plain(tail),
    ensures
        inferred(scalar_atom(value) + tail) == Ok::<ScalarValue, DecodingCause>(value),
{
    let buff = scalar_atom(value) + tail;
    assert(buff[0] == scalar_head(value)[0]);
    match value {
        ScalarValue::BigInt(number) => lemma_bigint_reads_back(number, tail),
        ScalarValue::Boolean(truth) => lemma_boolean_reads_back(truth, tail),
        ScalarValue::Double(number) => lemma_double_reads_back(number, tail),
        ScalarValue::Integer(number) => lemma_integer_reads_back(number, tail),
        ScalarValue::Null(_) => lemma_null_reads_back(tail),
        ScalarValue::String(text) => lemma_string_reads_back(text, tail),
    }
}

/// Round trip of scalars of any kind: if a scalar can be encoded and its
/// text survives framing, decoding its encoding by its tag gives the scalar.
pub proof fn lemma_scalar_round_trip(value: ScalarValue)
    requires
        text_survives(value),
    ensures
        scalar_written(value) matches Ok(written) ==> inferred(written) == Ok::<
            ScalarValue,
            DecodingCause,
        >(value),
{
    if can_be_written(value) {
        lemma_scalar_written_is_atom(value);
        lemma_scalar_reads_back(value, seq![BUFFER_END]);
    } else {
        lemma_unwritable_scalar(value);
    }
}

/// Whether two readings agree: both give the same value, or both fail.
pub open spec fn agree<V>(a: Result<V, DecodingCause>, b: Result<V, DecodingCause>) -> bool {
    match (a, b) {
        (Ok(x), Ok(y)) => x == y,
        (Err(_), Err(_)) => true,
        _ => false,
    }
}

/// Sign optionality of 64-bit integers: a buffer without sign byte is read
/// as the same buffer with `'+'` after the tag.
pub proof fn lemma_bigint_sign_is_optional(rest: Seq<u8>)
    requires
        rest.len() > 0 ==> rest[0] != PLUS && rest[0] != MINUS,
    ensures
        agree(
            bigint_read(seq![tags::BIG_INT] + rest),
            bigint_read(seq![tags::BIG_INT, PLUS] + rest),
        ),
{
    let bare = seq![tags::BIG_INT] + rest;
    let signed = seq![tags::BIG_INT, PLUS] + rest;
    assert(signed.skip(2) =~= rest);
    if rest.len() > 0 {
        assert(bare.skip(1) =~= rest);
    } else {
        assert(sliced(rest) =~= Seq::<Seq<u8>>::empty());
    }
}

/// Sign optionality of 32-bit integers: a buffer without sign byte is read
/// as the same buffer with `'+'` after the tag.
pub proof fn lemma_integer_sign_is_optional(rest: Seq<u8>)
    requires
        rest.len() > 0 ==> rest[0] != PLUS && rest[0] != MINUS,
    ensures
        agree(
            integer_read(seq![tags::INTEGER] + rest),
            integer_read(seq![tags::INTEGER, PLUS] + rest),
        ),
{
    let bare = seq![tags::INTEGER] + rest;
    let signed = seq![tags::INTEGER, PLUS] + rest;
    assert(signed.skip(2) =~= rest);
    if rest.len() > 0 {
        assert(bare.skip(1) =~= rest);
    } else {
        assert(sliced(rest) =~= Seq::<Seq<u8>>::empty());
    }
}

/// Sign optionality of decimal numbers: a buffer without sign byte is read
/// as the same buffer with `'+'` after the tag.
pub proof fn lemma_double_sign_is_optional(rest: Seq<u8>)
    requires
        rest.len() > 0 ==> rest[0] != PLUS && rest[0] != MINUS,
    ensures
        agree(
            double_read(seq![tags::DOUBLE] + rest),
            double_read(seq![tags::DOUBLE, PLUS] + rest),
        ),
{
    let bare = seq![tags::DOUBLE] + rest;
    let signed = seq![tags::DOUBLE, PLUS] + rest;
    assert(signed.skip(2) =~= rest);
    if rest.len() > 0 {
        assert(bare.skip(1) =~= rest);
    } else {
        assert(sliced(rest) =~= Seq::<Seq<u8>>::empty());
    }
}

/// Boundary of truth values: a payload of one byte other than 0 and 1 is
/// an invalid byte.
pub proof fn lemma_boolean_rejects_other_bytes(byte: u8, tail: Seq<u8>)
    requires
        byte > 1,
        !is_framing_byte(byte),
        is_plain(tail),
    ensures
        boolean_read(atom(seq![tags::BOOLEAN], seq![byte]) + tail) == Err::<bool, DecodingCause>(
            invalid_byte(byte, 0, truth_alphabet()),
        ),
{
    let payload = seq![byte];
    lemma_plain_survives(payload);
    lemma_opened_atom(tags::BOOLEAN, "Boolean"@, payload, tail);
}

/// Boundary of the absent value: a payload that holds any byte is too much.
pub proof fn lemma_null_rejects_payload(payload: Seq<u8>, tail: Seq<u8>)
    requires
        payload.len() > 0,
        survives_framing(payload),
        is_plain(tail),
    ensures
        null_read(atom(seq![tags::NULL], payload) + tail) == Err::<Option<()>, DecodingCause>(
            too_much("Bytes"@, 0, payload.len()),
        ),
{
    lemma_opened_atom(tags::NULL, "Null"@, payload, tail);
}

/// Boundary of the absent value: a present value is not encoded.
pub proof fn lemma_null_rejects_present_value()
    ensures
        null_written(Some(())) == Err::<Seq<u8>, TypeFailure>(
            encoding_failure(
                "Some(())"@,
                "Null"@,
                EncodingCause::InvalidValue("Value cannot be Some(()), only None"@),
            ),
        ),
{
}

/// Boundary of texts: a payload that is no UTF-8 is an internal error.
pub proof fn lemma_string_rejects_invalid_utf8(payload: Seq<u8>, tail: Seq<u8>)
    requires
        !valid_utf8(payload),
        survives_framing(payload),
        is_plain(tail),
    ensures
        string_read(atom(seq![tags::STRING], payload) + tail) == Err::<Seq<char>, DecodingCause>(
            DecodingCause::InternalError("invalid utf-8 sequence"@),
        ),
{
    lemma_opened_atom(tags::STRING, "String"@, payload, tail);
}

/// Boundary of 64-bit integers: digits that spell a number beyond 64 bits
/// are a size conversion error.
pub proof fn lemma_bigint_rejects_overflow(negative: bool, digits: Seq<u8>, tail: Seq<u8>)
    requires
        all_digits(digits),
        is_plain(tail),
        decimal_value(digits) > if negative {
            0x8000_0000_0000_0000int
        } else {
            0x7fff_ffff_ffff_ffffint
        },
    ensures
        bigint_read(atom(seq![tags::BIG_INT, sign_byte(negative)], digits) + tail) == Err::<
            i64,
            DecodingCause,
        >(DecodingCause::SizeConversionError("magnitude"@, "i64"@)),
{
    lemma_digits_are_plain(digits);
    lemma_plain_survives(digits);
    lemma_opened_signed_atom(tags::BIG_INT, "BigInt"@, negative, digits, tail);
}

/// Boundary of 32-bit integers: digits that spell a number beyond 32 bits
/// are a size conversion error.
pub proof fn lemma_integer_rejects_overflow(negative: bool, digits: Seq<u8>, tail: Seq<u8>)
    requires
        all_digits(digits),
        is_plain(tail),
        decimal_value(digits) > if negative {
            0x8000_0000int
        } else {
            0x7fff_ffffint
        },
    ensures
        integer_read(atom(seq![tags::INTEGER, sign_byte(negative)], digits) + tail) == Err::<
            i32,
            DecodingCause,
        >(DecodingCause::SizeConversionError("magnitude"@, "i32"@)),
{
    lemma_digits_are_plain(digits);
    lemma_plain_survives(digits);
    lemma_opened_signed_atom(tags::INTEGER, "Integer"@, negative, digits, tail);
}

/// Boundary of integers: a payload without digits is read as 0, whatever
/// the sign.
pub proof fn lemma_no_digits_spell_zero(negative: bool, tail: Seq<u8>)
    requires
        is_plain(tail),
    ensures
        bigint_read(atom(seq![tags::BIG_INT, sign_byte(negative)], Seq::empty()) + tail) == Ok::<
            i64,
            DecodingCause,
        >(0),
        integer_read(atom(seq![tags::INTEGER, sign_byte(negative)], Seq::empty()) + tail) == Ok::<
            i32,
            DecodingCause,
        >(0),
{
    let digits = Seq::<u8>::empty();
    lemma_plain_survives(digits);
    lemma_opened_signed_atom(tags::BIG_INT, "BigInt"@, negative, digits, tail);
    lemma_opened_signed_atom(tags::INTEGER, "Integer"@, negative, digits, tail);
}

/// Purity of decoding scalars: what is read depends on the bytes alone, so
/// that buffers with the same bytes are read as the same value or fail for
/// the same reason, whenever and however often they are read.
pub proof fn lemma_reading_scalars_is_pure(first: Seq<u8>, second: Seq<u8>)
    requires
        first =~= second,
    ensures
        bigint_read(first) == bigint_read(second),
        integer_read(first) == integer_read(second),
        double_read(first) == double_read(second),
        boolean_read(first) == boolean_read(second),
        null_read(first) == null_read(second),
        string_read(first) == string_read(second),
        inferred(first) == inferred(second),
{
}

} // verus!
