//! Telling type tags from other bytes.

use super::tags::{self, is_tag};
use vstd::prelude::*;

verus! {

/// Whether `byte` is the tag of one of the ten value kinds.
pub fn is_known_first_byte(byte: u8) -> (known: bool)
    ensures
        known == is_tag(byte),
{
    byte == tags::BIG_INT || byte == tags::BOOLEAN || byte == tags::DOUBLE || byte
        == tags::INTEGER || byte == tags::NULL || byte == tags::STRING || byte == tags::ARRAY
        || byte == tags::COMMAND || byte == tags::NAMED_VALUE || byte == tags::TABLE
}

} // verus!
