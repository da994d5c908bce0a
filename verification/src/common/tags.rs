//! The type tags: the first byte of every encoded value names its kind.
//!
//! The tags are printable ASCII characters.  They differ from each other and
//! from the control bytes.

use super::delimiters::{BUFFER_END, END_RECORD, START_RECORD, VALUE_DELIMITER};
use vstd::prelude::*;

verus! {

/// Tag of a signed 64-bit integer: `'('`.
pub const BIG_INT: u8 = 40;

/// Tag of a truth value: `'#'`.
pub const BOOLEAN: u8 = 35;

/// Tag of a decimal number: `';'`.
pub const DOUBLE: u8 = 59;

/// Tag of a signed 32-bit integer: `':'`.
pub const INTEGER: u8 = 58;

/// Tag of the absent value: `'-'`.
pub const NULL: u8 = 45;

/// Tag of a text: `'+'`.
pub const STRING: u8 = 43;

/// Tag of an array: `'['`.
pub const ARRAY: u8 = 91;

/// Tag of a command: `'$'`.
pub const COMMAND: u8 = 36;

/// Tag of a named value: `'@'`.
pub const NAMED_VALUE: u8 = 64;

/// Tag of a table: `'{'`.
pub const TABLE: u8 = 123;

/// Whether `byte` is the tag of one of the six scalar kinds.
pub open spec fn is_scalar_tag(byte: u8) -> bool {
    byte == BIG_INT || byte == BOOLEAN || byte == DOUBLE || byte == INTEGER || byte == NULL
        || byte == STRING
}

/// Whether `byte` is the tag of one of the ten value kinds.
pub open spec fn is_tag(byte: u8) -> bool {
    is_scalar_tag(byte) || byte == ARRAY || byte == COMMAND || byte == NAMED_VALUE || byte
        == TABLE
}

/// The tags of the ten kinds.
pub open spec fn all_tags() -> Seq<u8> {
    seq![BIG_INT, BOOLEAN, DOUBLE, INTEGER, NULL, STRING, ARRAY, COMMAND, NAMED_VALUE, TABLE]
}

/// The four control bytes.
pub open spec fn control_bytes() -> Seq<u8> {
    seq![START_RECORD, END_RECORD, VALUE_DELIMITER, BUFFER_END]
}

/// The reserved bytes are kept apart: no two kinds share a tag, no two
/// control bytes are the same, and no tag is a control byte.
pub proof fn lemma_reserved_bytes_are_apart()
    ensures
        all_tags().no_duplicates(),
        control_bytes().no_duplicates(),
        forall|byte: u8| is_tag(byte) <==> all_tags().contains(byte),
        forall|byte: u8| is_tag(byte) ==> !control_bytes().contains(byte),
{
    assert forall|byte: u8| is_tag(byte) implies all_tags().contains(byte) by {
        let tags = all_tags();
        if byte == BIG_INT {
            assert(tags[0] == byte);
        } else if byte == BOOLEAN {
            assert(tags[1] == byte);
        } else if byte == DOUBLE {
            assert(tags[2] == byte);
        } else if byte == INTEGER {
            assert(tags[3] == byte);
        } else if byte == NULL {
            assert(tags[4] == byte);
        } else if byte == STRING {
            assert(tags[5] == byte);
        } else if byte == ARRAY {
            assert(tags[6] == byte);
        } else if byte == COMMAND {
            assert(tags[7] == byte);
        } else if byte == NAMED_VALUE {
            assert(tags[8] == byte);
        } else {
            assert(tags[9] == byte);
        }
    }
}

} // verus!
