//! Splitting a record body into its sibling values.

use super::Uint8Buff;
use super::delimiters::{END_RECORD, START_RECORD, VALUE_DELIMITER};
use super::slice_records::views;
use vstd::prelude::*;

verus! {

/// State of a left-to-right split of a record body.
pub struct Split {
    /// How many nested records are open at this point.
    pub depth: nat,
    /// The bytes read so far of the field that is being read.
    pub field: Seq<u8>,
    /// The fields that were ended by a delimiter so far.
    pub fields: Seq<Seq<u8>>,
}

/// The split before any byte was read.
pub open spec fn split_start() -> Split {
    Split { depth: 0, field: Seq::empty(), fields: Seq::empty() }
}

/// The split after one more byte.  A `VALUE_DELIMITER` outside of every
/// nested record ends the current field; every other byte belongs to it.
pub open spec fn split_byte(split: Split, byte: u8) -> Split {
    if byte == VALUE_DELIMITER && split.depth == 0 {
        Split { depth: 0, field: Seq::empty(), fields: split.fields.push(split.field) }
    } else {
        Split {
            depth: if byte == START_RECORD {
                split.depth + 1
            } else if byte == END_RECORD && split.depth > 0 {
                (split.depth - 1) as nat
            } else {
                split.depth
            },
            field: split.field.push(byte),
            fields: split.fields,
        }
    }
}

/// The split after all of `bytes`, starting from `split`.
pub open spec fn split_bytes(split: Split, bytes: Seq<u8>) -> Split
    decreases bytes.len(),
{
    if bytes.len() == 0 {
        split
    } else {
        split_byte(split_bytes(split, bytes.drop_last()), bytes.last())
    }
}

/// The fields of a split once the input has ended: those that a delimiter
/// ended, and the last one if it holds any byte.
pub open spec fn split_end(split: Split) -> Seq<Seq<u8>> {
    if split.field.len() > 0 {
        split.fields.push(split.field)
    } else {
        split.fields
    }
}

/// The fields of the record body `buff`.
pub open spec fn fields_of(buff: Seq<u8>) -> Seq<Seq<u8>> {
    split_end(split_bytes(split_start(), buff))
}

/// Splits a record body at the `VALUE_DELIMITER`s that stand outside of
/// nested records.  Two delimiters in a row give an empty field.  The
/// delimiter after the last field may be left out.
pub fn split_values(buff: Uint8Buff) -> (values: Vec<Uint8Buff>)
    ensures
        views(values@) == fields_of(buff@),
{
    let mut values: Vec<Uint8Buff> = Vec::new();
    let mut value: Uint8Buff = Vec::new();
    let mut depth: usize = 0;
    let mut idx: usize = 0;
    assert(views(values@) =~= Seq::<Seq<u8>>::empty());
    while idx < buff.len()
        invariant
            idx <= buff.len(),
            depth <= idx,
            split_bytes(split_start(), buff@.take(idx as int)) == (Split {
                depth: depth as nat,
                field: value@,
                fields: views(values@),
            }),
        decreases buff.len() - idx,
    {
        let byte = buff[idx];
        proof {
            assert(buff@.take(idx + 1).drop_last() =~= buff@.take(idx as int));
        }
        if byte == VALUE_DELIMITER && depth == 0 {
            let ghost old_values = values@;
            let ghost field = value@;
            values.push(value);
            value = Vec::new();
            assert(views(values@) =~= views(old_values).push(field));
        } else {
            if byte == START_RECORD {
                depth += 1;
            } else if byte == END_RECORD && depth > 0 {
                depth -= 1;
            }
            value.push(byte);
        }
        idx += 1;
    }
    assert(buff@.take(idx as int) =~= buff@);
    if value.len() > 0 {
        let ghost old_values = values@;
        let ghost field = value@;
        values.push(value);
        assert(views(values@) =~= views(old_values).push(field));
    }
    values
}

} // verus!
