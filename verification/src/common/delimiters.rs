//! The four reserved control bytes of the wire format.
//!
//! They are taken from the ASCII control range so that they differ from every
//! type tag, from both sign bytes, from the digit values `0..=9` and from the
//! decimal point, none of which may be mistaken for framing.

use vstd::prelude::*;

verus! {

/// Opens a record frame (ASCII "shift out").
pub const START_RECORD: u8 = 0x0E;

/// Closes a record frame (ASCII "shift in").
pub const END_RECORD: u8 = 0x0F;

/// Separates sibling values inside a composite body (ASCII "unit separator").
pub const VALUE_DELIMITER: u8 = 0x1F;

/// Marks the end of a top-level buffer (ASCII "end of transmission block").
pub const BUFFER_END: u8 = 0x17;

/// Whether `byte` is one of the three bytes that the framing scanners react to.
pub open spec fn is_framing_byte(byte: u8) -> bool {
    byte == START_RECORD || byte == END_RECORD || byte == VALUE_DELIMITER
}

} // verus!
