//! Tables: a list of headers and rows of scalars, one per header.

use crate::common::{tags, CoprotoType, Uint8Buff, ValueOrBuffer};
use crate::common::delimiters::{BUFFER_END, END_RECORD, START_RECORD, VALUE_DELIMITER};
use crate::common::errors::{
    decoded, decoding_error, encoding_error, encoding_failure, first_byte_failure, too_much, viewed,
    DecodingCause, DecodingError, DecodingErrors, EncodingCause, EncodingError, EncodingErrors,
    TypeFailure, TypeResult,
};
use crate::common::join_parts::{join_parts, joined, push_part, BuffPart};
use crate::common::slice_records::views;
use crate::common::split_values::{fields_of, split_values};
use crate::types::infer_buffer::{infer_buffer, inferred};
use crate::types::primitive::frame::{framed, open_frame, opened};
use crate::types::primitive::null::{null_bytes, Null};
use crate::types::primitive::supported_types::{
    kind_name, scalar_views, text_views, ScalarValue, SupportedTypes,
};
use super::body::{cause_of, push_sibling, push_siblings, sibling, siblings_written, text_siblings};
use vstd::prelude::*;

verus! {

/// A table together with its encoding.
#[derive(Debug)]
pub struct Table {
    pub first_byte: u8,
    pub modifier_byte: Option<u8>,
    pub modifier_char: Option<char>,
    pub first_char: char,
    pub value_of: TypeResult<(Vec<String>, Vec<Vec<SupportedTypes>>)>,
    pub buff: TypeResult<Uint8Buff>,
}

/// The contents of a list of rows.
pub open spec fn row_views(rows: Seq<Vec<SupportedTypes>>) -> Seq<Seq<ScalarValue>> {
    rows.map_values(|row: Vec<SupportedTypes>| scalar_views(row@))
}

/// The failure of encoding a row of `found` values for `width` headers.
pub open spec fn misfit(width: nat, found: nat) -> TypeFailure {
    encoding_failure(
        "(Vec<String>, Vec<Vec<SupportedTypes>>)"@,
        "Table"@,
        EncodingCause::TableMisfit(width as usize, found as usize),
    )
}

/// The bytes that hold `rows` for `width` headers: each row as the siblings
/// of its values, followed by one more `VALUE_DELIMITER`.  The first row of
/// another length than `width`, or the first value that cannot be encoded,
/// is a failure.
pub open spec fn rows_written(width: nat, rows: Seq<Seq<ScalarValue>>) -> Result<
    Seq<u8>,
    TypeFailure,
>
    decreases rows.len(),
{
    if rows.len() == 0 {
        Ok(Seq::empty())
    } else {
        match rows_written(width, rows.drop_last()) {
            Err(failure) => Err(failure),
            Ok(before) => if rows.last().len() != width {
                Err(misfit(width, rows.last().len()))
            } else {
                match siblings_written(rows.last()) {
                    Err(failure) => Err(failure),
                    Ok(row) => Ok(before + row.push(VALUE_DELIMITER)),
                }
            },
        }
    }
}

/// What encoding a table gives: the tag and one record that holds the
/// headers as text siblings, the absent value as the sentinel, and the rows.
/// A table without headers is rejected.
pub open spec fn table_written(headers: Seq<Seq<char>>, rows: Seq<Seq<ScalarValue>>) -> Result<
    Seq<u8>,
    TypeFailure,
> {
    if headers.len() == 0 {
        Err(
            encoding_failure(
                "[]"@,
                "Table"@,
                EncodingCause::InvalidValue("headers cannot be empty"@),
            ),
        )
    } else {
        match rows_written(headers.len(), rows) {
            Err(failure) => Err(failure),
            Ok(body) => Ok(
                framed(
                    tags::TABLE,
                    text_siblings(headers) + sibling(null_bytes()) + body,
                ),
            ),
        }
    }
}

/// State of reading the fields of a table in order.
pub struct TableScan {
    /// The headers read so far.
    pub headers: Seq<Seq<char>>,
    /// Whether the sentinel was read.
    pub sentinel: bool,
    /// The rows that are complete.
    pub rows: Seq<Seq<ScalarValue>>,
    /// The values of the row that is being read.
    pub row: Seq<ScalarValue>,
}

/// The state before any field was read.
pub open spec fn table_start() -> TableScan {
    TableScan { headers: Seq::empty(), sentinel: false, rows: Seq::empty(), row: Seq::empty() }
}

/// The state after one more field.
///
/// A field without bytes changes nothing.  Before the sentinel a text is
/// one more header, the absent value is the sentinel, and a scalar of
/// another kind is a failure.  After the sentinel every scalar is one more
/// value of the current row, which is complete as soon as it holds as many
/// values as there are headers.
pub open spec fn table_step(scan: TableScan, field: Seq<u8>) -> Result<TableScan, DecodingCause> {
    if field.len() == 0 {
        Ok(scan)
    } else {
        match inferred(field) {
            Err(cause) => Err(cause),
            Ok(value) => if scan.sentinel {
                let row = scan.row.push(value);
                if row.len() == scan.headers.len() {
                    Ok(TableScan { rows: scan.rows.push(row), row: Seq::empty(), ..scan })
                } else {
                    Ok(TableScan { row, ..scan })
                }
            } else {
                match value {
                    ScalarValue::String(text) => Ok(
                        TableScan { headers: scan.headers.push(text), ..scan },
                    ),
                    ScalarValue::Null(_) => Ok(TableScan { sentinel: true, ..scan }),
                    other => Err(
                        DecodingCause::InvalidTypeInCompositeType(
                            kind_name(other),
                            "String or Null"@,
                        ),
                    ),
                }
            },
        }
    }
}

/// The state after all of `fields`, or the failure of the first field that
/// cannot be read.
pub open spec fn table_scan(fields: Seq<Seq<u8>>) -> Result<TableScan, DecodingCause>
    decreases fields.len(),
{
    if fields.len() == 0 {
        Ok(table_start())
    } else {
        match table_scan(fields.drop_last()) {
            Err(cause) => Err(cause),
            Ok(scan) => table_step(scan, fields.last()),
        }
    }
}

/// The table that a finished scan gives: its headers and rows, unless the
/// last row is incomplete.
pub open spec fn table_end(scan: Result<TableScan, DecodingCause>) -> Result<
    (Seq<Seq<char>>, Seq<Seq<ScalarValue>>),
    DecodingCause,
> {
    match scan {
        Err(cause) => Err(cause),
        Ok(scan) => if scan.row.len() > 0 {
            Err(DecodingCause::CantFitValues(scan.headers.len() as usize, scan.row.len() as usize))
        } else {
            Ok((scan.headers, scan.rows))
        },
    }
}

/// The table that `buff` holds, or why it holds none.
///
/// After the tag there may be at most one record.  Its fields are read in
/// order as headers, sentinel and values.  Without a record, and without a
/// sentinel, there are no rows.
pub open spec fn table_read(buff: Seq<u8>) -> Result<
    (Seq<Seq<char>>, Seq<Seq<ScalarValue>>),
    DecodingCause,
> {
    match opened(buff, "Table"@, tags::TABLE) {
        Err(cause) => Err(cause),
        Ok(records) => {
            if records.len() > 1 {
                Err(too_much("Records"@, 1, records.len()))
            } else if records.len() == 0 {
                Ok((Seq::empty(), Seq::empty()))
            } else {
                table_end(table_scan(fields_of(records[0])))
            }
        },
    }
}

/// A result of decoding a table, with value and error replaced by their
/// views.
pub open spec fn table_viewed(
    result: TypeResult<(Vec<String>, Vec<Vec<SupportedTypes>>)>,
) -> Result<(Seq<Seq<char>>, Seq<Seq<ScalarValue>>), TypeFailure> {
    match result {
        Ok((headers, rows)) => Ok((text_views(headers@), row_views(rows@))),
        Err(error) => Err(error@),
    }
}

/// Once a start of `fields` fails, all of `fields` fail for the same cause.
pub proof fn lemma_scan_failure_reaches_end(fields: Seq<Seq<u8>>, shorter: int)
    requires
        0 <= shorter <= fields.len(),
        table_scan(fields.take(shorter)) is Err,
    ensures
        table_scan(fields) == table_scan(fields.take(shorter)),
    decreases fields.len() - shorter,
{
    if shorter < fields.len() {
        assert(fields.take(shorter + 1).drop_last() =~= fields.take(shorter));
        lemma_scan_failure_reaches_end(fields, shorter + 1);
    } else {
        assert(fields.take(shorter) =~= fields);
    }
}

/// Once a start of `rows` cannot be encoded, all of `rows` cannot, for the
/// same reason.
pub proof fn lemma_row_rejection_reaches_end(
    width: nat,
    rows: Seq<Seq<ScalarValue>>,
    shorter: int,
)
    requires
        0 <= shorter <= rows.len(),
        rows_written(width, rows.take(shorter)) is Err,
    ensures
        rows_written(width, rows) == rows_written(width, rows.take(shorter)),
    decreases rows.len() - shorter,
{
    if shorter < rows.len() {
        assert(rows.take(shorter + 1).drop_last() =~= rows.take(shorter));
        lemma_row_rejection_reaches_end(width, rows, shorter + 1);
    } else {
        assert(rows.take(shorter) =~= rows);
    }
}

impl CoprotoType<(Vec<String>, Vec<Vec<SupportedTypes>>)> for Table {
    const FIRST_BYTE: u8 = tags::TABLE;

    /// Encodes a value or decodes a buffer, and keeps both sides.
    fn new(value: ValueOrBuffer<(Vec<String>, Vec<Vec<SupportedTypes>>)>) -> (made: Self)
        ensures
            made.first_byte == tags::TABLE,
            made.first_char == '{',
            made.modifier_byte.is_none(),
            made.modifier_char.is_none(),
            match value {
                ValueOrBuffer::Value(v) => {
                    &&& table_viewed(made.value_of) == Ok::<
                        (Seq<Seq<char>>, Seq<Seq<ScalarValue>>),
                        TypeFailure,
                    >((text_views(v.0@), row_views(v.1@)))
                    &&& viewed(made.buff) == table_written(text_views(v.0@), row_views(v.1@))
                },
                ValueOrBuffer::Buffer(b) => {
                    &&& table_viewed(made.value_of) == decoded(b@, "Table"@, table_read(b@))
                    &&& viewed(made.buff) == Ok::<Seq<u8>, TypeFailure>(b@)
                },
            },
    {
        match value {
            ValueOrBuffer::Value(v) => {
                let buff = Self::encode_ref(&v.0, &v.1);
                Self {
                    first_byte: tags::TABLE,
                    modifier_byte: None,
                    modifier_char: None,
                    first_char: '{',
                    value_of: Ok(v),
                    buff,
                }
            },
            ValueOrBuffer::Buffer(vec) => Self {
                first_byte: tags::TABLE,
                modifier_byte: None,
                modifier_char: None,
                first_char: '{',
                value_of: Self::decode(vec.clone()),
                buff: Ok(vec),
            },
        }
    }

    /// The bytes of the table `value`.
    fn encode(value: (Vec<String>, Vec<Vec<SupportedTypes>>)) -> (buff: TypeResult<Uint8Buff>)
        ensures
            viewed(buff) == table_written(text_views(value.0@), row_views(value.1@)),
            buff matches Ok(bytes) ==> bytes@.len() > 0 && bytes@[0] == tags::TABLE,
    {
        Self::encode_ref(&value.0, &value.1)
    }

    /// The table that `value` holds.
    fn decode(value: Uint8Buff) -> (table: TypeResult<(Vec<String>, Vec<Vec<SupportedTypes>>)>)
        ensures
            table_viewed(table) == decoded(value@, "Table"@, table_read(value@)),
            value@.len() > 0 && value@[0] != tags::TABLE ==> (table matches Err(error) && error@
                == first_byte_failure(value@, "Table"@, tags::TABLE)),
            table is Ok ==> value@.len() > 0 && value@[0] == tags::TABLE,
    {
        let mut headers: Vec<String> = Vec::new();
        let mut rows: Vec<Vec<SupportedTypes>> = Vec::new();
        let mut row: Vec<SupportedTypes> = Vec::new();
        let mut found_null = false;
        proof {
            assert(text_views(headers@) =~= Seq::<Seq<char>>::empty());
            assert(row_views(rows@) =~= Seq::<Seq<ScalarValue>>::empty());
            assert(scalar_views(row@) =~= Seq::<ScalarValue>::empty());
        }
        let mut records = match open_frame(&value, "Table", tags::TABLE) {
            Ok(records) => records,
            Err(cause) => {
                return Err(decoding_error(DecodingError::new(value, "Table", cause)));
            },
        };
        if records.len() > 1 {
            let cause = DecodingErrors::too_much("Records", 1, records.len());
            return Err(decoding_error(DecodingError::new(value, "Table", cause)));
        }
        let body = match records.pop() {
            Some(body) => body,
            None => {
                return Ok((headers, rows));
            },
        };
        let fields = split_values(body);
        assert(table_read(value@) == table_end(table_scan(views(fields@))));
        let mut i: usize = 0;
        while i < fields.len()
            invariant
                i <= fields.len(),
                table_read(value@) == table_end(table_scan(views(fields@))),
                table_scan(views(fields@).take(i as int)) == Ok::<TableScan, DecodingCause>(
                    TableScan {
                        headers: text_views(headers@),
                        sentinel: found_null,
                        rows: row_views(rows@),
                        row: scalar_views(row@),
                    },
                ),
            decreases fields.len() - i,
        {
            proof {
                assert(views(fields@).take(i + 1).drop_last() =~= views(fields@).take(i as int));
            }
            if fields[i].len() > 0 {
                let infered = match infer_buffer(fields[i].clone()) {
                    Ok(infered) => infered,
                    Err(error) => {
                        proof {
                            lemma_scan_failure_reaches_end(views(fields@), i + 1);
                        }
                        let cause = cause_of(error);
                        return Err(decoding_error(DecodingError::new(value, "Table", cause)));
                    },
                };
                if found_null {
                    let ghost before = row@;
                    row.push(infered);
                    assert(scalar_views(row@) =~= scalar_views(before).push(infered@));
                    if row.len() == headers.len() {
                        let ghost rows_before = rows@;
                        let ghost full = row@;
                        rows.push(row);
                        row = Vec::new();
                        proof {
                            assert(row_views(rows@) =~= row_views(rows_before).push(
                                scalar_views(full),
                            ));
                            assert(scalar_views(row@) =~= Seq::<ScalarValue>::empty());
                        }
                    }
                } else {
                    match infered {
                        SupportedTypes::String(text) => {
                            let ghost before = headers@;
                            headers.push(text);
                            assert(text_views(headers@) =~= text_views(before).push(text@));
                        },
                        SupportedTypes::Null(_) => {
                            found_null = true;
                        },
                        other => {
                            proof {
                                lemma_scan_failure_reaches_end(views(fields@), i + 1);
                            }
                            let cause = DecodingErrors::InvalidTypeInCompositeType(
                                other.get_name().to_string(),
                                "String or Null".to_string(),
                            );
                            return Err(decoding_error(DecodingError::new(value, "Table", cause)));
                        },
                    }
                }
            }
            i += 1;
        }
        assert(views(fields@).take(i as int) =~= views(fields@));
        if row.len() > 0 {
            let cause = DecodingErrors::CantFitValues(headers.len(), row.len());
            return Err(decoding_error(DecodingError::new(value, "Table", cause)));
        }
        Ok((headers, rows))
    }
}

impl Table {
    /// The bytes of the table with the given headers and rows, which stay
    /// with the caller.
    pub fn encode_ref(headers: &Vec<String>, rows: &Vec<Vec<SupportedTypes>>) -> (buff: TypeResult<
        Uint8Buff,
    >)
        ensures
            viewed(buff) == table_written(text_views(headers@), row_views(rows@)),
    {
        if headers.len() == 0 {
            return Err(
                encoding_error(
                    EncodingError::new(
                        "[]",
                        "Table",
                        EncodingErrors::InvalidValue("headers cannot be empty".to_string()),
                    ),
                ),
            );
        }
        let mut parts: Vec<BuffPart> = Vec::new();
        assert(joined(parts@) =~= Seq::<u8>::empty());
        push_part(&mut parts, BuffPart::Val(tags::TABLE));
        push_part(&mut parts, BuffPart::Val(START_RECORD));
        let ghost start = seq![tags::TABLE, START_RECORD];
        let ghost names = text_views(headers@);
        assert(joined(parts@) =~= start + text_siblings(names.take(0)));
        let mut h: usize = 0;
        while h < headers.len()
            invariant
                h <= headers.len(),
                names == text_views(headers@),
                joined(parts@) == start + text_siblings(names.take(h as int)),
            decreases headers.len() - h,
        {
            proof {
                assert(names.take(h + 1).drop_last() =~= names.take(h as int));
            }
            let encoded_str = match crate::types::primitive::String::encode(headers[h].clone()) {
                Ok(encoded_str) => encoded_str,
                Err(error) => {
                    return Err(error);
                },
            };
            push_sibling(&mut parts, encoded_str);
            assert(joined(parts@) =~= start + text_siblings(names.take(h + 1)));
            h += 1;
        }
        assert(names.take(h as int) =~= names);
        let sentinel = match Null::encode(None) {
            Ok(sentinel) => sentinel,
            Err(error) => {
                return Err(error);
            },
        };
        push_sibling(&mut parts, sentinel);
        let ghost head = start + text_siblings(names) + sibling(null_bytes());
        let ghost all = row_views(rows@);
        let ghost width = headers@.len();
        let ghost mut body: Seq<u8> = Seq::empty();
        assert(joined(parts@) =~= head + body);
        let mut r: usize = 0;
        while r < rows.len()
            invariant
                r <= rows.len(),
                all == row_views(rows@),
                names == text_views(headers@),
                width == headers@.len(),
                width > 0,
                rows_written(width, all.take(r as int)) == Ok::<Seq<u8>, TypeFailure>(body),
                joined(parts@) == head + body,
            decreases rows.len() - r,
        {
            proof {
                assert(all.take(r + 1).drop_last() =~= all.take(r as int));
            }
            let row = &rows[r];
            if row.len() != headers.len() {
                proof {
                    lemma_row_rejection_reaches_end(width, all, r + 1);
                }
                return Err(
                    encoding_error(
                        EncodingError::new(
                            "(Vec<String>, Vec<Vec<SupportedTypes>>)",
                            "Table",
                            EncodingErrors::TableMisfit(headers.len(), row.len()),
                        ),
                    ),
                );
            }
            match push_siblings(&mut parts, row) {
                Ok(_) => {},
                Err(error) => {
                    proof {
                        lemma_row_rejection_reaches_end(width, all, r + 1);
                    }
                    return Err(error);
                },
            }
            push_part(&mut parts, BuffPart::Val(VALUE_DELIMITER));
            proof {
                let written = siblings_written(scalar_views(row@))->Ok_0;
                assert(joined(parts@) =~= head + (body + written.push(VALUE_DELIMITER)));
                body = body + written.push(VALUE_DELIMITER);
            }
            r += 1;
        }
        assert(all.take(r as int) =~= all);
        push_part(&mut parts, BuffPart::Val(END_RECORD));
        push_part(&mut parts, BuffPart::Val(BUFFER_END));
        assert(joined(parts@) =~= framed(
            tags::TABLE,
            text_siblings(names) + sibling(null_bytes()) + body,
        ));
        Ok(join_parts(parts))
    }
}

} // verus!
