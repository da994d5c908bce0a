//! Laws of the composite kinds.
//!
//! * Round trip: what was encoded is decoded again
//!   ([`lemma_array_round_trip`], [`lemma_named_value_round_trip`],
//!   [`lemma_command_round_trip`], [`lemma_table_round_trip`]).  The texts
//!   have to survive framing for this, and only such texts are ever decoded
//!   ([`lemma_read_array_survives`], [`lemma_read_named_value_survives`],
//!   [`lemma_read_command_survives`], [`lemma_read_table_survives`]).
//! * Purity: what is read depends on the bytes alone
//!   ([`lemma_reading_composites_is_pure`]).
//! * Boundaries of each kind ([`lemma_empty_array_round_trip`],
//!   [`lemma_command_needs_name`], [`lemma_command_rejects_other_kinds`],
//!   [`lemma_named_value_needs_name`], [`lemma_named_value_needs_value`],
//!   [`lemma_table_rejects_no_headers`], [`lemma_table_rejects_misfit`],
//!   [`lemma_table_without_sentinel`], [`lemma_table_rejects_partial_row`]).

use crate::common::tags;
use crate::common::delimiters::{BUFFER_END, VALUE_DELIMITER};
use crate::common::errors::{
    encoding_failure, not_enough, DecodingCause, EncodingCause, TypeFailure,
};
use crate::common::framing::{
    atom, is_enclosed, is_plain, lemma_atom_is_enclosed, lemma_nesting_concat,
    lemma_plain_is_enclosed, lemma_split_atom, lemma_split_concat, lemma_split_delimiter,
    survives_framing,
};
use crate::common::slice_records::sliced;
use crate::common::split_values::{fields_of, split_bytes, split_start, Split};
use crate::types::infer_buffer::inferred;
use crate::types::primitive::digits::{lemma_decimal_digits_are_digits, magnitude};
use crate::types::primitive::frame::{framed, opened};
use crate::types::primitive::laws::{
    can_be_written, lemma_decimal_payload, lemma_framed_is_atom, lemma_opened_atom,
    lemma_read_scalar_survives, lemma_read_text_survives, lemma_scalar_reads_back,
    lemma_scalar_written_is_atom, lemma_string_reads_back, lemma_unwritable_scalar, scalar_atom,
    scalar_head, scalar_payload, text_survives,
};
use crate::types::primitive::string::string_bytes;
use crate::types::primitive::supported_types::{kind_name, scalar_written, ScalarValue};
use super::array::{array_read, array_written};
use super::body::{inferred_all, sibling, siblings_written, text_siblings};
use super::command::{command_bytes, command_read, lemma_text_failure_reaches_end, texts_inferred};
use super::named_value::{named_value_read, named_value_written};
use super::table::{
    lemma_row_rejection_reaches_end, misfit, rows_written, table_read, table_scan, table_start,
    table_written, TableScan,
};
use vstd::prelude::*;
use vstd::utf8::encode_utf8;

verus! {

/// Whether every one of `values` can be encoded.
pub open spec fn all_can_be_written(values: Seq<ScalarValue>) -> bool {
    forall|i: int| 0 <= i < values.len() ==> can_be_written(#[trigger] values[i])
}

/// Whether every text among `values` survives framing.
pub open spec fn all_text_survives(values: Seq<ScalarValue>) -> bool {
    forall|i: int| 0 <= i < values.len() ==> text_survives(#[trigger] values[i])
}

/// The encodings of `values` as a composite holds them, one by one.
pub open spec fn scalar_atoms(values: Seq<ScalarValue>) -> Seq<Seq<u8>> {
    Seq::new(values.len(), |i: int| scalar_atom(values[i]))
}

/// The body that holds `values` as siblings, for values that can be
/// encoded.
pub open spec fn siblings_body(values: Seq<ScalarValue>) -> Seq<u8>
    decreases values.len(),
{
    if values.len() == 0 {
        Seq::empty()
    } else {
        siblings_body(values.drop_last()) + scalar_atom(values.last()) + seq![VALUE_DELIMITER]
    }
}

/// `texts` as scalar values.
pub open spec fn as_scalars(texts: Seq<Seq<char>>) -> Seq<ScalarValue> {
    Seq::new(texts.len(), |i: int| ScalarValue::String(texts[i]))
}

/// The head of an encoded scalar holds no framing byte and starts with the
/// tag of a scalar kind; the payload is well nested.
pub proof fn lemma_scalar_parts(value: ScalarValue)
    requires
        can_be_written(value),
        text_survives(value),
    ensures
        is_plain(scalar_head(value)),
        scalar_head(value).len() > 0,
        tags::is_scalar_tag(scalar_head(value)[0]),
        is_enclosed(scalar_payload(value)),
        is_enclosed(scalar_atom(value)),
        scalar_atom(value).len() > 0,
        scalar_atom(value)[0] == scalar_head(value)[0],
{
    match value {
        ScalarValue::BigInt(number) => {
            lemma_decimal_digits_are_digits(magnitude(number as int));
            assert(is_plain(scalar_payload(value)));
            lemma_plain_is_enclosed(scalar_payload(value));
        },
        ScalarValue::Integer(number) => {
            lemma_decimal_digits_are_digits(magnitude(number as int));
            assert(is_plain(scalar_payload(value)));
            lemma_plain_is_enclosed(scalar_payload(value));
        },
        ScalarValue::Double(number) => {
            lemma_decimal_payload(number.text);
            lemma_plain_is_enclosed(scalar_payload(value));
        },
        ScalarValue::Boolean(_) => {
            lemma_plain_is_enclosed(scalar_payload(value));
        },
        ScalarValue::Null(_) => {
            lemma_plain_is_enclosed(scalar_payload(value));
        },
        ScalarValue::String(_) => {},
    }
    lemma_atom_is_enclosed(scalar_head(value), scalar_payload(value));
}

/// Values that can all be encoded are encoded as their siblings body.
pub proof fn lemma_siblings_written(values: Seq<ScalarValue>)
    requires
        all_can_be_written(values),
    ensures
        siblings_written(values) == Ok::<Seq<u8>, TypeFailure>(siblings_body(values)),
    decreases values.len(),
{
    if values.len() > 0 {
        lemma_siblings_written(values.drop_last());
        lemma_scalar_written_is_atom(values.last());
        assert(sibling(scalar_atom(values.last()) + seq![BUFFER_END]) =~= scalar_atom(
            values.last(),
        ) + seq![VALUE_DELIMITER]);
        assert(siblings_body(values.drop_last()) + (scalar_atom(values.last())
            + seq![VALUE_DELIMITER]) =~= siblings_body(values));
    }
}

/// Values of which one cannot be encoded are not encoded.
pub proof fn lemma_siblings_rejected(values: Seq<ScalarValue>)
    requires
        !all_can_be_written(values),
    ensures
        siblings_written(values) is Err,
    decreases values.len(),
{
    if values.len() > 0 {
        if all_can_be_written(values.drop_last()) {
            let at = choose|i: int| 0 <= i < values.len() && !can_be_written(#[trigger] values[i]);
            if at < values.len() - 1 {
                assert(values.drop_last()[at] == values[at]);
            }
            assert(!can_be_written(values.last()));
            lemma_unwritable_scalar(values.last());
        } else {
            lemma_siblings_rejected(values.drop_last());
        }
    }
}

/// A siblings body is well nested, and starts with the tag of a scalar kind
/// if it holds any value.
pub proof fn lemma_siblings_body_survives(values: Seq<ScalarValue>)
    requires
        all_can_be_written(values),
        all_text_survives(values),
    ensures
        is_enclosed(siblings_body(values)),
        values.len() > 0 ==> siblings_body(values).len() > 0 && siblings_body(values)[0]
            == scalar_head(values[0])[0] && tags::is_scalar_tag(siblings_body(values)[0]),
        values.len() == 0 ==> siblings_body(values).len() == 0,
    decreases values.len(),
{
    if values.len() > 0 {
        let before = values.drop_last();
        lemma_siblings_body_survives(before);
        lemma_scalar_parts(values.last());
        lemma_nesting_concat(siblings_body(before), scalar_atom(values.last()));
        let held = siblings_body(before) + scalar_atom(values.last());
        assert(siblings_body(values).drop_last() =~= held);
        if before.len() > 0 {
            assert(before[0] == values[0]);
        }
    }
}

/// Splitting a siblings body gives one field for each value: its encoding as a
/// composite holds it.
pub proof fn lemma_split_siblings(split: Split, values: Seq<ScalarValue>)
    requires
        split.depth == 0,
        split.field.len() == 0,
        all_can_be_written(values),
        all_text_survives(values),
    ensures
        split_bytes(split, siblings_body(values)) == (Split {
            depth: 0,
            field: Seq::empty(),
            fields: split.fields + scalar_atoms(values),
        }),
    decreases values.len(),
{
    if values.len() == 0 {
        assert(split.fields + scalar_atoms(values) =~= split.fields);
        assert(split.field =~= Seq::<u8>::empty());
    } else {
        let before = values.drop_last();
        let last = values.last();
        lemma_split_siblings(split, before);
        lemma_scalar_parts(last);
        let reached = split_bytes(split, siblings_body(before));
        lemma_split_concat(split, siblings_body(before), scalar_atom(last));
        lemma_split_atom(reached, scalar_head(last), scalar_payload(last));
        let held = split_bytes(split, siblings_body(before) + scalar_atom(last));
        assert(held.field =~= scalar_atom(last));
        lemma_split_concat(
            split,
            siblings_body(before) + scalar_atom(last),
            seq![VALUE_DELIMITER],
        );
        lemma_split_delimiter(held);
        assert((split.fields + scalar_atoms(before)).push(scalar_atom(last)) =~= split.fields
            + scalar_atoms(values));
    }
}

/// The fields that hold values as a composite holds them give the values
/// back.
pub proof fn lemma_inferred_atoms(values: Seq<ScalarValue>)
    requires
        all_can_be_written(values),
        all_text_survives(values),
    ensures
        inferred_all(scalar_atoms(values)) == Ok::<Seq<ScalarValue>, DecodingCause>(values),
    decreases values.len(),
{
    if values.len() == 0 {
        assert(scalar_atoms(values) =~= Seq::<Seq<u8>>::empty());
        assert(values =~= Seq::<ScalarValue>::empty());
    } else {
        let before = values.drop_last();
        lemma_inferred_atoms(before);
        assert(scalar_atoms(values).drop_last() =~= scalar_atoms(before));
        lemma_scalar_parts(values.last());
        lemma_scalar_reads_back(values.last(), Seq::empty());
        assert(scalar_atom(values.last()) + Seq::<u8>::empty() =~= scalar_atom(values.last()));
        assert(before.push(values.last()) =~= values);
    }
}

/// A siblings body survives framing.
pub proof fn lemma_body_survives_framing(body: Seq<u8>)
    requires
        is_enclosed(body),
        body.len() > 0 ==> tags::is_tag(body[0]),
    ensures
        survives_framing(body),
{
    if body.contains(VALUE_DELIMITER) {
        assert(body.len() > 0);
    }
}

/// Round trip of arrays: if the values can be encoded and their texts
/// survive framing, decoding the encoding of an array gives its values, in
/// order.
pub proof fn lemma_array_round_trip(values: Seq<ScalarValue>)
    requires
        all_text_survives(values),
    ensures
        array_written(values) matches Ok(written) ==> array_read(written) == Ok::<
            Seq<ScalarValue>,
            DecodingCause,
        >(values),
{
    if all_can_be_written(values) {
        let body = siblings_body(values);
        lemma_siblings_written(values);
        lemma_siblings_body_survives(values);
        lemma_body_survives_framing(body);
        lemma_framed_is_atom(tags::ARRAY, body);
        lemma_opened_atom(tags::ARRAY, "Array"@, body, seq![BUFFER_END]);
        lemma_split_siblings(split_start(), values);
        assert(Seq::<Seq<u8>>::empty() + scalar_atoms(values) =~= scalar_atoms(values));
        lemma_inferred_atoms(values);
    } else {
        lemma_siblings_rejected(values);
    }
}

/// Whether every one of `texts` survives framing.
pub open spec fn all_survive(texts: Seq<Seq<char>>) -> bool {
    forall|i: int| 0 <= i < texts.len() ==> survives_framing(encode_utf8(#[trigger] texts[i]))
}

/// Texts are scalars that can be encoded; they survive framing as scalars if
/// they do as texts.
pub proof fn lemma_texts_as_scalars(texts: Seq<Seq<char>>)
    ensures
        all_can_be_written(as_scalars(texts)),
        all_survive(texts) ==> all_text_survives(as_scalars(texts)),
{
    if all_survive(texts) {
        assert forall|i: int| 0 <= i < texts.len() implies text_survives(
            #[trigger] as_scalars(texts)[i],
        ) by {
            assert(survives_framing(encode_utf8(texts[i])));
        }
    }
}

/// The body that holds texts as siblings is the siblings body of the texts
/// as scalars.
pub proof fn lemma_text_siblings(texts: Seq<Seq<char>>)
    ensures
        text_siblings(texts) == siblings_body(as_scalars(texts)),
    decreases texts.len(),
{
    if texts.len() > 0 {
        lemma_text_siblings(texts.drop_last());
        assert(as_scalars(texts).drop_last() =~= as_scalars(texts.drop_last()));
        let last = ScalarValue::String(texts.last());
        lemma_scalar_written_is_atom(last);
        assert(sibling(scalar_atom(last) + seq![BUFFER_END]) =~= scalar_atom(last)
            + seq![VALUE_DELIMITER]);
        assert(siblings_body(as_scalars(texts.drop_last())) + (scalar_atom(last)
            + seq![VALUE_DELIMITER]) =~= siblings_body(as_scalars(texts)));
    }
}

/// The siblings body of two lists in a row is their siblings bodies in a row.
pub proof fn lemma_siblings_body_concat(a: Seq<ScalarValue>, b: Seq<ScalarValue>)
    ensures
        siblings_body(a + b) == siblings_body(a) + siblings_body(b),
    decreases b.len(),
{
    if b.len() == 0 {
        assert(a + b =~= a);
        assert(siblings_body(a) + siblings_body(b) =~= siblings_body(a));
    } else {
        assert((a + b).drop_last() =~= a + b.drop_last());
        lemma_siblings_body_concat(a, b.drop_last());
        assert(siblings_body(a) + siblings_body(b.drop_last()) + scalar_atom(b.last())
            + seq![VALUE_DELIMITER] =~= siblings_body(a) + siblings_body(b));
    }
}

/// The siblings body of one value is its encoding as a composite holds it,
/// and a `VALUE_DELIMITER`.
pub proof fn lemma_siblings_body_one(value: ScalarValue)
    requires
        can_be_written(value),
    ensures
        siblings_body(seq![value]) == scalar_atom(value) + seq![VALUE_DELIMITER],
        scalar_written(value) matches Ok(written) && sibling(written) == scalar_atom(value)
            + seq![VALUE_DELIMITER],
{
    reveal_with_fuel(siblings_body, 2);
    assert(seq![value].drop_last() =~= Seq::<ScalarValue>::empty());
    assert(Seq::<u8>::empty() + scalar_atom(value) + seq![VALUE_DELIMITER] =~= scalar_atom(value)
        + seq![VALUE_DELIMITER]);
    lemma_scalar_written_is_atom(value);
    assert(sibling(scalar_atom(value) + seq![BUFFER_END]) =~= scalar_atom(value)
        + seq![VALUE_DELIMITER]);
}

/// Round trip of named values: if the value can be encoded and the texts
/// survive framing, decoding the encoding of a named value gives its name
/// and its value.
pub proof fn lemma_named_value_round_trip(name: Seq<char>, value: ScalarValue)
    requires
        survives_framing(encode_utf8(name)),
        text_survives(value),
    ensures
        named_value_written(name, value) matches Ok(written) ==> named_value_read(written)
            == Ok::<(Seq<char>, ScalarValue), DecodingCause>((name, value)),
{
    if can_be_written(value) {
        let named = ScalarValue::String(name);
        let both = seq![named] + seq![value];
        lemma_siblings_body_one(named);
        lemma_siblings_body_one(value);
        lemma_siblings_body_concat(seq![named], seq![value]);
        let body = siblings_body(both);
        assert(all_can_be_written(both));
        assert(all_text_survives(both));
        lemma_siblings_body_survives(both);
        lemma_body_survives_framing(body);
        lemma_framed_is_atom(tags::NAMED_VALUE, body);
        lemma_opened_atom(tags::NAMED_VALUE, "NamedValue"@, body, seq![BUFFER_END]);
        lemma_split_siblings(split_start(), both);
        assert(Seq::<Seq<u8>>::empty() + scalar_atoms(both) =~= scalar_atoms(both));
        let fields = fields_of(body);
        assert(fields == scalar_atoms(both));
        lemma_scalar_parts(named);
        lemma_scalar_parts(value);
        lemma_string_reads_back(name, Seq::empty());
        lemma_scalar_reads_back(value, Seq::empty());
        assert(scalar_atom(named) + Seq::<u8>::empty() =~= scalar_atom(named));
        assert(scalar_atom(value) + Seq::<u8>::empty() =~= scalar_atom(value));
        assert(fields[0] == scalar_atom(named));
        assert(fields[1] == scalar_atom(value));
    } else {
        lemma_unwritable_scalar(value);
    }
}

/// The fields that hold texts as a composite holds them give the texts back.
pub proof fn lemma_texts_inferred(texts: Seq<Seq<char>>)
    requires
        all_survive(texts),
    ensures
        texts_inferred(scalar_atoms(as_scalars(texts))) == Ok::<Seq<Seq<char>>, DecodingCause>(
            texts,
        ),
    decreases texts.len(),
{
    let fields = scalar_atoms(as_scalars(texts));
    if texts.len() == 0 {
        assert(fields =~= Seq::<Seq<u8>>::empty());
        assert(texts =~= Seq::<Seq<char>>::empty());
    } else {
        let before = texts.drop_last();
        lemma_texts_inferred(before);
        assert(fields.drop_last() =~= scalar_atoms(as_scalars(before)));
        let last = ScalarValue::String(texts.last());
        assert(survives_framing(encode_utf8(texts[texts.len() - 1])));
        lemma_scalar_parts(last);
        lemma_scalar_reads_back(last, Seq::empty());
        assert(scalar_atom(last) + Seq::<u8>::empty() =~= scalar_atom(last));
        assert(fields.last() == scalar_atom(last));
        assert(before.push(texts.last()) =~= texts);
    }
}

/// Round trip of commands: if the texts survive framing, decoding the
/// encoding of a command gives its name and its arguments, in order.
pub proof fn lemma_command_round_trip(name: Seq<char>, args: Seq<Seq<char>>)
    requires
        survives_framing(encode_utf8(name)),
        all_survive(args),
    ensures
        command_read(command_bytes(name, args)) == Ok::<
            (Seq<char>, Seq<Seq<char>>),
            DecodingCause,
        >((name, args)),
{
    let named = ScalarValue::String(name);
    let all = seq![named] + as_scalars(args);
    lemma_siblings_body_one(named);
    lemma_text_siblings(args);
    lemma_siblings_body_concat(seq![named], as_scalars(args));
    let body = siblings_body(all);
    assert(body == sibling(string_bytes(name)) + text_siblings(args));
    lemma_texts_as_scalars(args);
    assert(all_can_be_written(all));
    assert forall|i: int| 0 <= i < all.len() implies text_survives(#[trigger] all[i]) by {
        if i > 0 {
            assert(all[i] == as_scalars(args)[i - 1]);
        }
    }
    lemma_siblings_body_survives(all);
    lemma_body_survives_framing(body);
    lemma_framed_is_atom(tags::COMMAND, body);
    lemma_opened_atom(tags::COMMAND, "Command"@, body, seq![BUFFER_END]);
    lemma_split_siblings(split_start(), all);
    assert(Seq::<Seq<u8>>::empty() + scalar_atoms(all) =~= scalar_atoms(all));
    let fields = fields_of(body);
    assert(fields == scalar_atoms(all));
    lemma_scalar_parts(named);
    lemma_string_reads_back(name, Seq::empty());
    assert(scalar_atom(named) + Seq::<u8>::empty() =~= scalar_atom(named));
    assert(fields[0] == scalar_atom(named));
    assert(fields.skip(1) =~= scalar_atoms(as_scalars(args)));
    lemma_texts_inferred(args);
}

/// Whether every row of `rows` holds `width` values that can all be encoded.
pub open spec fn rows_fit(width: nat, rows: Seq<Seq<ScalarValue>>) -> bool {
    forall|r: int|
        0 <= r < rows.len() ==> (#[trigger] rows[r]).len() == width && all_can_be_written(rows[r])
}

/// Whether every text in `rows` survives framing.
pub open spec fn rows_survive(rows: Seq<Seq<ScalarValue>>) -> bool {
    forall|r: int| 0 <= r < rows.len() ==> all_text_survives(#[trigger] rows[r])
}

/// The bytes that hold `rows`, for rows that can be encoded: the siblings
/// body of each row, followed by one more `VALUE_DELIMITER`.
pub open spec fn rows_body(rows: Seq<Seq<ScalarValue>>) -> Seq<u8>
    decreases rows.len(),
{
    if rows.len() == 0 {
        Seq::empty()
    } else {
        rows_body(rows.drop_last()) + siblings_body(rows.last()) + seq![VALUE_DELIMITER]
    }
}

/// The fields that the bytes of `rows` split into: one for each value, and
/// one without bytes after each row.
pub open spec fn row_fields(rows: Seq<Seq<ScalarValue>>) -> Seq<Seq<u8>>
    decreases rows.len(),
{
    if rows.len() == 0 {
        Seq::empty()
    } else {
        row_fields(rows.drop_last()) + scalar_atoms(rows.last()) + seq![Seq::<u8>::empty()]
    }
}

/// Rows are encoded exactly if they fit, and then as their rows body.
pub proof fn lemma_rows_written(width: nat, rows: Seq<Seq<ScalarValue>>)
    ensures
        rows_fit(width, rows) ==> rows_written(width, rows) == Ok::<Seq<u8>, TypeFailure>(
            rows_body(rows),
        ),
        !rows_fit(width, rows) ==> rows_written(width, rows) is Err,
    decreases rows.len(),
{
    if rows.len() > 0 {
        let before = rows.drop_last();
        lemma_rows_written(width, before);
        if rows_fit(width, rows) {
            assert forall|r: int| 0 <= r < before.len() implies (#[trigger] before[r]).len()
                == width && all_can_be_written(before[r]) by {
                assert(before[r] == rows[r]);
            }
            assert(rows[rows.len() - 1].len() == width);
            lemma_siblings_written(rows.last());
            assert(rows_body(before) + siblings_body(rows.last()).push(VALUE_DELIMITER)
                =~= rows_body(rows));
        } else if rows_fit(width, before) {
            let at = choose|r: int|
                0 <= r < rows.len() && !((#[trigger] rows[r]).len() == width
                    && all_can_be_written(rows[r]));
            if at < rows.len() - 1 {
                assert(before[at] == rows[at]);
            }
            if rows.last().len() == width {
                lemma_siblings_rejected(rows.last());
            }
        }
    }
}

/// The bytes of rows are well nested.
pub proof fn lemma_rows_body_enclosed(width: nat, rows: Seq<Seq<ScalarValue>>)
    requires
        rows_fit(width, rows),
        rows_survive(rows),
    ensures
        is_enclosed(rows_body(rows)),
    decreases rows.len(),
{
    if rows.len() > 0 {
        let before = rows.drop_last();
        assert forall|r: int| 0 <= r < before.len() implies (#[trigger] before[r]).len() == width
            && all_can_be_written(before[r]) && all_text_survives(before[r]) by {
            assert(before[r] == rows[r]);
        }
        lemma_rows_body_enclosed(width, before);
        let last = rows[rows.len() - 1];
        lemma_siblings_body_survives(last);
        lemma_nesting_concat(rows_body(before), siblings_body(last));
        assert(rows_body(rows).drop_last() =~= rows_body(before) + siblings_body(last));
    }
}

/// Splitting the bytes of rows gives their row fields.
pub proof fn lemma_split_rows(split: Split, width: nat, rows: Seq<Seq<ScalarValue>>)
    requires
        split.depth == 0,
        split.field.len() == 0,
        rows_fit(width, rows),
        rows_survive(rows),
    ensures
        split_bytes(split, rows_body(rows)) == (Split {
            depth: 0,
            field: Seq::empty(),
            fields: split.fields + row_fields(rows),
        }),
    decreases rows.len(),
{
    if rows.len() == 0 {
        assert(split.fields + row_fields(rows) =~= split.fields);
        assert(split.field =~= Seq::<u8>::empty());
    } else {
        let before = rows.drop_last();
        assert forall|r: int| 0 <= r < before.len() implies (#[trigger] before[r]).len() == width
            && all_can_be_written(before[r]) && all_text_survives(before[r]) by {
            assert(before[r] == rows[r]);
        }
        lemma_split_rows(split, width, before);
        let last = rows[rows.len() - 1];
        let reached = split_bytes(split, rows_body(before));
        lemma_split_concat(split, rows_body(before), siblings_body(last));
        lemma_split_siblings(reached, last);
        let held = split_bytes(split, rows_body(before) + siblings_body(last));
        lemma_split_concat(
            split,
            rows_body(before) + siblings_body(last),
            seq![VALUE_DELIMITER],
        );
        lemma_split_delimiter(held);
        assert((split.fields + row_fields(before) + scalar_atoms(last)).push(
            Seq::<u8>::empty(),
        ) =~= split.fields + row_fields(rows));
    }
}

/// Reading the fields of the headers gives the headers, and no sentinel yet.
pub proof fn lemma_scan_headers(headers: Seq<Seq<char>>)
    requires
        all_survive(headers),
    ensures
        table_scan(scalar_atoms(as_scalars(headers))) == Ok::<TableScan, DecodingCause>(
            TableScan { headers, ..table_start() },
        ),
    decreases headers.len(),
{
    let fields = scalar_atoms(as_scalars(headers));
    if headers.len() == 0 {
        assert(fields =~= Seq::<Seq<u8>>::empty());
        assert(headers =~= Seq::<Seq<char>>::empty());
    } else {
        let before = headers.drop_last();
        lemma_scan_headers(before);
        assert(fields.drop_last() =~= scalar_atoms(as_scalars(before)));
        let last = ScalarValue::String(headers.last());
        assert(survives_framing(encode_utf8(headers[headers.len() - 1])));
        lemma_scalar_parts(last);
        lemma_scalar_reads_back(last, Seq::empty());
        assert(scalar_atom(last) + Seq::<u8>::empty() =~= scalar_atom(last));
        assert(fields.last() == scalar_atom(last));
        assert(before.push(headers.last()) =~= headers);
    }
}

/// Reading the first values of one more row, after fields that were read up
/// to the end of a row: the row is complete once all its values are read.
pub proof fn lemma_scan_row(
    fields: Seq<Seq<u8>>,
    scan: TableScan,
    row: Seq<ScalarValue>,
    taken: int,
)
    requires
        table_scan(fields) == Ok::<TableScan, DecodingCause>(scan),
        scan.sentinel,
        scan.row.len() == 0,
        scan.headers.len() == row.len(),
        0 <= taken <= row.len(),
        row.len() > 0,
        all_can_be_written(row),
        all_text_survives(row),
    ensures
        table_scan(fields + scalar_atoms(row.take(taken))) == Ok::<TableScan, DecodingCause>(
            if taken < row.len() {
                TableScan { row: row.take(taken), ..scan }
            } else {
                TableScan { rows: scan.rows.push(row), row: Seq::empty(), ..scan }
            },
        ),
    decreases taken,
{
    let read = fields + scalar_atoms(row.take(taken));
    if taken == 0 {
        assert(read =~= fields);
        assert(row.take(0) =~= scan.row);
    } else {
        lemma_scan_row(fields, scan, row, taken - 1);
        let value = row[taken - 1];
        assert(read.drop_last() =~= fields + scalar_atoms(row.take(taken - 1)));
        assert(read.last() == scalar_atom(value));
        lemma_scalar_parts(value);
        lemma_scalar_reads_back(value, Seq::empty());
        assert(scalar_atom(value) + Seq::<u8>::empty() =~= scalar_atom(value));
        assert(row.take(taken - 1).push(value) =~= row.take(taken));
        if taken == row.len() {
            assert(row.take(taken) =~= row);
        }
    }
}

/// Reading the fields of rows, after the fields of headers and sentinel,
/// gives the rows.
pub proof fn lemma_scan_rows(
    fields: Seq<Seq<u8>>,
    headers: Seq<Seq<char>>,
    rows: Seq<Seq<ScalarValue>>,
)
    requires
        table_scan(fields) == Ok::<TableScan, DecodingCause>(
            TableScan { headers, sentinel: true, ..table_start() },
        ),
        headers.len() > 0,
        rows_fit(headers.len(), rows),
        rows_survive(rows),
    ensures
        table_scan(fields + row_fields(rows)) == Ok::<TableScan, DecodingCause>(
            TableScan { headers, sentinel: true, rows, row: Seq::empty() },
        ),
    decreases rows.len(),
{
    if rows.len() == 0 {
        assert(fields + row_fields(rows) =~= fields);
        assert(rows =~= Seq::<Seq<ScalarValue>>::empty());
    } else {
        let before = rows.drop_last();
        assert forall|r: int| 0 <= r < before.len() implies (#[trigger] before[r]).len()
            == headers.len() && all_can_be_written(before[r]) && all_text_survives(
            before[r],
        ) by {
            assert(before[r] == rows[r]);
        }
        lemma_scan_rows(fields, headers, before);
        let last = rows[rows.len() - 1];
        let reached = TableScan { headers, sentinel: true, rows: before, row: Seq::empty() };
        lemma_scan_row(fields + row_fields(before), reached, last, last.len() as int);
        assert(last.take(last.len() as int) =~= last);
        let values_read = fields + row_fields(before) + scalar_atoms(last);
        let all_read = fields + row_fields(rows);
        assert(all_read.drop_last() =~= values_read);
        assert(all_read.last().len() == 0);
        assert(before.push(last) =~= rows);
    }
}

/// Round trip of tables: if the values can be encoded and the texts survive
/// framing, decoding the encoding of a table gives its headers and its rows,
/// in order.
pub proof fn lemma_table_round_trip(headers: Seq<Seq<char>>, rows: Seq<Seq<ScalarValue>>)
    requires
        all_survive(headers),
        rows_survive(rows),
    ensures
        table_written(headers, rows) matches Ok(written) ==> table_read(written) == Ok::<
            (Seq<Seq<char>>, Seq<Seq<ScalarValue>>),
            DecodingCause,
        >((headers, rows)),
{
    lemma_rows_written(headers.len(), rows);
    if headers.len() > 0 && rows_fit(headers.len(), rows) {
        let sentinel = ScalarValue::Null(None);
        let lead = as_scalars(headers) + seq![sentinel];
        let nothing = Seq::<ScalarValue>::empty();
        lemma_text_siblings(headers);
        lemma_siblings_body_one(sentinel);
        lemma_siblings_body_concat(as_scalars(headers), seq![sentinel]);
        let body = table_body(headers, rows, nothing);
        assert(body =~= siblings_body(lead) + rows_body(rows));
        lemma_framed_is_atom(tags::TABLE, body);
        lemma_table_body(headers, rows, nothing, seq![BUFFER_END]);
        assert(scalar_atoms(lead) + row_fields(rows) + scalar_atoms(nothing) =~= scalar_atoms(
            lead,
        ) + row_fields(rows));
        lemma_scan_lead(headers);
        lemma_scan_rows(scalar_atoms(lead), headers, rows);
    }
}

/// Whatever is read as scalars holds no text that does not survive
/// framing.
pub proof fn lemma_read_scalars_survive(fields: Seq<Seq<u8>>, values: Seq<ScalarValue>)
    requires
        inferred_all(fields) == Ok::<Seq<ScalarValue>, DecodingCause>(values),
    ensures
        all_text_survives(values),
    decreases fields.len(),
{
    if fields.len() > 0 {
        let before = inferred_all(fields.drop_last())->Ok_0;
        if fields.last().len() == 0 {
            lemma_read_scalars_survive(fields.drop_last(), values);
        } else {
            let last = inferred(fields.last())->Ok_0;
            lemma_read_scalars_survive(fields.drop_last(), before);
            lemma_read_scalar_survives(fields.last(), last);
            assert forall|i: int| 0 <= i < values.len() implies text_survives(
                #[trigger] values[i],
            ) by {
                if i < before.len() {
                    assert(values[i] == before[i]);
                }
            }
        }
    }
}

/// Whatever is read as texts survives framing.
pub proof fn lemma_read_texts_survive(fields: Seq<Seq<u8>>, texts: Seq<Seq<char>>)
    requires
        texts_inferred(fields) == Ok::<Seq<Seq<char>>, DecodingCause>(texts),
    ensures
        all_survive(texts),
    decreases fields.len(),
{
    if fields.len() > 0 {
        let before = texts_inferred(fields.drop_last())->Ok_0;
        if fields.last().len() == 0 {
            lemma_read_texts_survive(fields.drop_last(), texts);
        } else {
            let last = inferred(fields.last())->Ok_0;
            lemma_read_texts_survive(fields.drop_last(), before);
            lemma_read_scalar_survives(fields.last(), last);
            assert forall|i: int| 0 <= i < texts.len() implies survives_framing(
                encode_utf8(#[trigger] texts[i]),
            ) by {
                if i < before.len() {
                    assert(texts[i] == before[i]);
                }
            }
        }
    }
}

/// Whatever is read as an array holds no text that does not survive
/// framing.  The round trip of arrays thus leaves out only arrays that
/// decoding cannot give back.
pub proof fn lemma_read_array_survives(buff: Seq<u8>, values: Seq<ScalarValue>)
    requires
        array_read(buff) == Ok::<Seq<ScalarValue>, DecodingCause>(values),
    ensures
        all_text_survives(values),
{
    let records = sliced(buff.skip(1));
    if records.len() == 1 {
        lemma_read_scalars_survive(fields_of(records[0]), values);
    }
}

/// Whatever is read as a named value holds no text that does not survive
/// framing.  The round trip of named values thus leaves out only named
/// values that decoding cannot give back.
pub proof fn lemma_read_named_value_survives(buff: Seq<u8>, name: Seq<char>, value: ScalarValue)
    requires
        named_value_read(buff) == Ok::<(Seq<char>, ScalarValue), DecodingCause>((name, value)),
    ensures
        survives_framing(encode_utf8(name)),
        text_survives(value),
{
    let fields = fields_of(sliced(buff.skip(1))[0]);
    lemma_read_text_survives(fields[0], name);
    lemma_read_scalar_survives(fields[1], value);
}

/// Whatever is read as a command holds no text that does not survive
/// framing.  The round trip of commands thus leaves out only commands that
/// decoding cannot give back.
pub proof fn lemma_read_command_survives(buff: Seq<u8>, name: Seq<char>, args: Seq<Seq<char>>)
    requires
        command_read(buff) == Ok::<(Seq<char>, Seq<Seq<char>>), DecodingCause>((name, args)),
    ensures
        survives_framing(encode_utf8(name)),
        all_survive(args),
{
    let fields = fields_of(sliced(buff.skip(1))[0]);
    lemma_read_text_survives(fields[0], name);
    lemma_read_texts_survive(fields.skip(1), args);
}

/// Whether no text that a table scan has read fails to survive framing.
pub open spec fn scan_survives(scan: TableScan) -> bool {
    all_survive(scan.headers) && rows_survive(scan.rows) && all_text_survives(scan.row)
}

/// Whatever a table scan reads holds no text that does not survive framing.
pub proof fn lemma_table_scan_survives(fields: Seq<Seq<u8>>)
    ensures
        table_scan(fields) matches Ok(scan) ==> scan_survives(scan),
    decreases fields.len(),
{
    if fields.len() > 0 {
        lemma_table_scan_survives(fields.drop_last());
        if let Ok(before) = table_scan(fields.drop_last()) {
            if fields.last().len() > 0 {
                if let Ok(value) = inferred(fields.last()) {
                    lemma_read_scalar_survives(fields.last(), value);
                    if let Ok(scan) = table_scan(fields) {
                        if before.sentinel {
                            let row = before.row.push(value);
                            assert forall|i: int| 0 <= i < row.len() implies text_survives(
                                #[trigger] row[i],
                            ) by {
                                if i < before.row.len() {
                                    assert(row[i] == before.row[i]);
                                }
                            }
                            assert forall|r: int|
                                0 <= r < scan.rows.len() implies all_text_survives(
                                #[trigger] scan.rows[r],
                            ) by {
                                if r < before.rows.len() {
                                    assert(scan.rows[r] == before.rows[r]);
                                }
                            }
                        } else {
                            assert forall|i: int|
                                0 <= i < scan.headers.len() implies survives_framing(
                                encode_utf8(#[trigger] scan.headers[i]),
                            ) by {
                                if i < before.headers.len() {
                                    assert(scan.headers[i] == before.headers[i]);
                                }
                            }
                        }
                    }
                }
            }
        }
    }
}

/// Whatever is read as a table holds no text that does not survive framing.
/// The round trip of tables thus leaves out only tables that decoding cannot
/// give back.
pub proof fn lemma_read_table_survives(
    buff: Seq<u8>,
    headers: Seq<Seq<char>>,
    rows: Seq<Seq<ScalarValue>>,
)
    requires
        table_read(buff) == Ok::<(Seq<Seq<char>>, Seq<Seq<ScalarValue>>), DecodingCause>(
            (headers, rows),
        ),
    ensures
        all_survive(headers),
        rows_survive(rows),
{
    let records = sliced(buff.skip(1));
    if records.len() == 1 {
        lemma_table_scan_survives(fields_of(records[0]));
    }
}

/// Boundary of arrays: the array without elements is encoded as the tag and
/// one empty record, and read back.
pub proof fn lemma_empty_array_round_trip()
    ensures
        array_written(Seq::empty()) == Ok::<Seq<u8>, TypeFailure>(
            framed(tags::ARRAY, Seq::empty()),
        ),
        array_read(framed(tags::ARRAY, Seq::empty())) == Ok::<Seq<ScalarValue>, DecodingCause>(
            Seq::empty(),
        ),
{
    lemma_array_round_trip(Seq::empty());
}

/// Boundary of commands: a record without a name is short of values.
pub proof fn lemma_command_needs_name(tail: Seq<u8>)
    requires
        is_plain(tail),
    ensures
        command_read(atom(seq![tags::COMMAND], Seq::empty()) + tail) == Err::<
            (Seq<char>, Seq<Seq<char>>),
            DecodingCause,
        >(not_enough("Values"@, 1, 0)),
{
    let body = Seq::<u8>::empty();
    lemma_body_survives_framing(body);
    lemma_opened_atom(tags::COMMAND, "Command"@, body, tail);
}

/// Boundary of named values: a record without a name is short of values.
pub proof fn lemma_named_value_needs_name(tail: Seq<u8>)
    requires
        is_plain(tail),
    ensures
        named_value_read(atom(seq![tags::NAMED_VALUE], Seq::empty()) + tail) == Err::<
            (Seq<char>, ScalarValue),
            DecodingCause,
        >(not_enough("Values"@, 2, 0)),
{
    let body = Seq::<u8>::empty();
    lemma_body_survives_framing(body);
    lemma_opened_atom(tags::NAMED_VALUE, "NamedValue"@, body, tail);
}

/// Boundary of named values: a record with a name and no value is short of
/// values.
pub proof fn lemma_named_value_needs_value(name: Seq<char>, tail: Seq<u8>)
    requires
        survives_framing(encode_utf8(name)),
        is_plain(tail),
    ensures
        named_value_read(
            atom(seq![tags::NAMED_VALUE], siblings_body(seq![ScalarValue::String(name)])) + tail,
        ) == Err::<(Seq<char>, ScalarValue), DecodingCause>(not_enough("Values"@, 2, 1)),
{
    let named = seq![ScalarValue::String(name)];
    let body = siblings_body(named);
    lemma_siblings_body_survives(named);
    lemma_body_survives_framing(body);
    lemma_opened_atom(tags::NAMED_VALUE, "NamedValue"@, body, tail);
    lemma_split_siblings(split_start(), named);
    assert(Seq::<Seq<u8>>::empty() + scalar_atoms(named) =~= scalar_atoms(named));
    lemma_scalar_parts(named[0]);
}

/// Boundary of commands: an argument of another kind than text is a value of
/// the wrong kind, whatever follows it.
pub proof fn lemma_command_rejects_other_kinds(
    name: Seq<char>,
    args: Seq<Seq<char>>,
    other: ScalarValue,
    rest: Seq<ScalarValue>,
    tail: Seq<u8>,
)
    requires
        survives_framing(encode_utf8(name)),
        all_survive(args),
        !(other is String),
        can_be_written(other),
        all_can_be_written(rest),
        all_text_survives(rest),
        is_plain(tail),
    ensures
        command_read(
            atom(
                seq![tags::COMMAND],
                siblings_body(
                    seq![ScalarValue::String(name)] + as_scalars(args) + seq![other] + rest,
                ),
            ) + tail,
        ) == Err::<(Seq<char>, Seq<Seq<char>>), DecodingCause>(
            DecodingCause::InvalidTypeInCompositeType(kind_name(other), "String"@),
        ),
{
    let named = ScalarValue::String(name);
    let all = seq![named] + as_scalars(args) + seq![other] + rest;
    let body = siblings_body(all);
    lemma_texts_as_scalars(args);
    assert forall|i: int| 0 <= i < all.len() implies can_be_written(#[trigger] all[i])
        && text_survives(all[i]) by {
        if 1 <= i <= args.len() {
            assert(all[i] == as_scalars(args)[i - 1]);
        } else if i > args.len() + 1 {
            assert(all[i] == rest[i - args.len() - 2]);
        }
    }
    lemma_siblings_body_survives(all);
    lemma_body_survives_framing(body);
    lemma_opened_atom(tags::COMMAND, "Command"@, body, tail);
    lemma_split_siblings(split_start(), all);
    assert(Seq::<Seq<u8>>::empty() + scalar_atoms(all) =~= scalar_atoms(all));
    let fields = fields_of(body);
    lemma_scalar_parts(named);
    lemma_string_reads_back(name, Seq::empty());
    assert(scalar_atom(named) + Seq::<u8>::empty() =~= scalar_atom(named));
    assert(fields[0] == scalar_atom(named));
    let later = fields.skip(1);
    let count = args.len() as int + 1;
    let reached = later.take(count);
    assert(reached.drop_last() =~= scalar_atoms(as_scalars(args)));
    lemma_texts_inferred(args);
    assert(reached.last() == scalar_atom(other));
    lemma_scalar_parts(other);
    lemma_scalar_reads_back(other, Seq::empty());
    assert(scalar_atom(other) + Seq::<u8>::empty() =~= scalar_atom(other));
    lemma_text_failure_reaches_end(later, count);
}

/// Boundary of tables: a table without headers is not encoded.
pub proof fn lemma_table_rejects_no_headers(rows: Seq<Seq<ScalarValue>>)
    ensures
        table_written(Seq::empty(), rows) == Err::<Seq<u8>, TypeFailure>(
            encoding_failure(
                "[]"@,
                "Table"@,
                EncodingCause::InvalidValue("headers cannot be empty"@),
            ),
        ),
{
}

/// Boundary of tables: the first row that holds another number of values
/// than there are headers is a misfit, if the rows before it can be encoded.
pub proof fn lemma_table_rejects_misfit(
    headers: Seq<Seq<char>>,
    rows: Seq<Seq<ScalarValue>>,
    at: int,
)
    requires
        headers.len() > 0,
        0 <= at < rows.len(),
        rows_fit(headers.len(), rows.take(at)),
        rows[at].len() != headers.len(),
    ensures
        table_written(headers, rows) == Err::<Seq<u8>, TypeFailure>(
            misfit(headers.len(), rows[at].len()),
        ),
{
    let reached = rows.take(at + 1);
    assert(reached.drop_last() =~= rows.take(at));
    lemma_rows_written(headers.len(), rows.take(at));
    lemma_row_rejection_reaches_end(headers.len(), rows, at + 1);
}

/// The body of a table: headers and sentinel, complete rows, and the values
/// of one more row.
pub open spec fn table_body(
    headers: Seq<Seq<char>>,
    rows: Seq<Seq<ScalarValue>>,
    partial: Seq<ScalarValue>,
) -> Seq<u8> {
    siblings_body(as_scalars(headers) + seq![ScalarValue::Null(None)]) + rows_body(rows)
        + siblings_body(partial)
}

/// The body of a table comes back from its frame, and splits into one field
/// for each header, the sentinel and each value, and one field without bytes
/// after each complete row.
pub proof fn lemma_table_body(
    headers: Seq<Seq<char>>,
    rows: Seq<Seq<ScalarValue>>,
    partial: Seq<ScalarValue>,
    tail: Seq<u8>,
)
    requires
        all_survive(headers),
        rows_fit(headers.len(), rows),
        rows_survive(rows),
        all_can_be_written(partial),
        all_text_survives(partial),
        is_plain(tail),
    ensures
        opened(
            atom(seq![tags::TABLE], table_body(headers, rows, partial)) + tail,
            "Table"@,
            tags::TABLE,
        ) == Ok::<Seq<Seq<u8>>, DecodingCause>(seq![table_body(headers, rows, partial)]),
        fields_of(table_body(headers, rows, partial)) == scalar_atoms(
            as_scalars(headers) + seq![ScalarValue::Null(None)],
        ) + row_fields(rows) + scalar_atoms(partial),
{
    let width = headers.len();
    let sentinel = ScalarValue::Null(None);
    let lead = as_scalars(headers) + seq![sentinel];
    lemma_texts_as_scalars(headers);
    assert(all_can_be_written(lead));
    assert forall|i: int| 0 <= i < lead.len() implies text_survives(#[trigger] lead[i]) by {
        if i < headers.len() {
            assert(lead[i] == as_scalars(headers)[i]);
        }
    }
    lemma_siblings_body_survives(lead);
    lemma_rows_body_enclosed(width, rows);
    lemma_siblings_body_survives(partial);
    lemma_nesting_concat(siblings_body(lead), rows_body(rows));
    lemma_nesting_concat(siblings_body(lead) + rows_body(rows), siblings_body(partial));
    let body = table_body(headers, rows, partial);
    assert(body[0] == siblings_body(lead)[0]);
    lemma_body_survives_framing(body);
    lemma_opened_atom(tags::TABLE, "Table"@, body, tail);
    let start = split_start();
    lemma_split_siblings(start, lead);
    lemma_split_concat(start, siblings_body(lead), rows_body(rows));
    let after_lead = split_bytes(start, siblings_body(lead));
    lemma_split_rows(after_lead, width, rows);
    lemma_split_concat(start, siblings_body(lead) + rows_body(rows), siblings_body(partial));
    let after_rows = split_bytes(start, siblings_body(lead) + rows_body(rows));
    lemma_split_siblings(after_rows, partial);
    assert(fields_of(body) =~= scalar_atoms(lead) + row_fields(rows) + scalar_atoms(partial));
}

/// Reading the fields of headers and sentinel gives the headers and the
/// sentinel.
pub proof fn lemma_scan_lead(headers: Seq<Seq<char>>)
    requires
        all_survive(headers),
    ensures
        table_scan(scalar_atoms(as_scalars(headers) + seq![ScalarValue::Null(None)])) == Ok::<
            TableScan,
            DecodingCause,
        >(TableScan { headers, sentinel: true, ..table_start() }),
{
    let sentinel = ScalarValue::Null(None);
    let lead_fields = scalar_atoms(as_scalars(headers) + seq![sentinel]);
    lemma_scan_headers(headers);
    assert(lead_fields.drop_last() =~= scalar_atoms(as_scalars(headers)));
    assert(lead_fields.last() == scalar_atom(sentinel));
    lemma_scalar_parts(sentinel);
    lemma_scalar_reads_back(sentinel, Seq::empty());
    assert(scalar_atom(sentinel) + Seq::<u8>::empty() =~= scalar_atom(sentinel));
}

/// Boundary of tables: without a sentinel all fields are headers, and there
/// are no rows.
pub proof fn lemma_table_without_sentinel(headers: Seq<Seq<char>>, tail: Seq<u8>)
    requires
        all_survive(headers),
        is_plain(tail),
    ensures
        table_read(atom(seq![tags::TABLE], text_siblings(headers)) + tail) == Ok::<
            (Seq<Seq<char>>, Seq<Seq<ScalarValue>>),
            DecodingCause,
        >((headers, Seq::empty())),
{
    let texts = as_scalars(headers);
    let body = siblings_body(texts);
    lemma_text_siblings(headers);
    lemma_texts_as_scalars(headers);
    lemma_siblings_body_survives(texts);
    lemma_body_survives_framing(body);
    lemma_opened_atom(tags::TABLE, "Table"@, body, tail);
    lemma_split_siblings(split_start(), texts);
    assert(Seq::<Seq<u8>>::empty() + scalar_atoms(texts) =~= scalar_atoms(texts));
    lemma_scan_headers(headers);
}

/// Boundary of tables: values after the last complete row that do not make
/// up a row cannot be fitted.
pub proof fn lemma_table_rejects_partial_row(
    headers: Seq<Seq<char>>,
    rows: Seq<Seq<ScalarValue>>,
    partial: Seq<ScalarValue>,
    tail: Seq<u8>,
)
    requires
        all_survive(headers),
        rows_fit(headers.len(), rows),
        rows_survive(rows),
        0 < partial.len() < headers.len(),
        all_can_be_written(partial),
        all_text_survives(partial),
        is_plain(tail),
    ensures
        table_read(atom(seq![tags::TABLE], table_body(headers, rows, partial)) + tail) == Err::<
            (Seq<Seq<char>>, Seq<Seq<ScalarValue>>),
            DecodingCause,
        >(DecodingCause::CantFitValues(headers.len() as usize, partial.len() as usize)),
{
    let lead_fields = scalar_atoms(as_scalars(headers) + seq![ScalarValue::Null(None)]);
    lemma_table_body(headers, rows, partial, tail);
    lemma_scan_lead(headers);
    lemma_scan_rows(lead_fields, headers, rows);
    let reached = TableScan { headers, sentinel: true, rows, row: Seq::empty() };
    let filler = Seq::new((headers.len() - partial.len()) as nat, |i: int| ScalarValue::Null(None));
    let row = partial + filler;
    assert(row.take(partial.len() as int) =~= partial);
    assert forall|i: int| 0 <= i < row.len() implies can_be_written(#[trigger] row[i])
        && text_survives(row[i]) by {
        if i < partial.len() {
            assert(row[i] == partial[i]);
        }
    }
    lemma_scan_row(lead_fields + row_fields(rows), reached, row, partial.len() as int);
}

/// Purity of decoding composites: what is read depends on the bytes alone,
/// so that buffers with the same bytes are read as the same value or fail
/// for the same reason, whenever and however often they are read.
pub proof fn lemma_reading_composites_is_pure(first: Seq<u8>, second: Seq<u8>)
    requires
        first =~= second,
    ensures
        array_read(first) == array_read(second),
        named_value_read(first) == named_value_read(second),
        command_read(first) == command_read(second),
        table_read(first) == table_read(second),
{
}

} // verus!
