//! Frame primitives, errors and helpers shared by all codecs.

pub mod coproto_type;
pub mod delimiters;
pub mod errors;
pub mod framing;
pub mod get_up_to;
pub mod is_known_first_byte;
pub mod join_parts;
pub mod modifiers;
pub mod slice_records;
pub mod split_values;
pub mod tags;
pub mod to_ascii_code;

pub use coproto_type::{CoprotoType, ValueOrBuffer};
pub use get_up_to::get_up_to;
pub use is_known_first_byte::is_known_first_byte;
pub use join_parts::{join_parts, BuffPart};
pub use slice_records::slice_records;
pub use split_values::split_values;
pub use to_ascii_code::to_ascii_code;
use vstd::prelude::*;

verus! {

/// An owned byte buffer.
pub type Uint8Buff = Vec<u8>;

} // verus!
