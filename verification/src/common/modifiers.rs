//! The sign bytes that may follow the tag of a signed number.

use vstd::prelude::*;

verus! {

/// Sign byte of a non-negative number: `'+'`.
pub const PLUS: u8 = 43;

/// Sign byte of a negative number: `'-'`.
pub const MINUS: u8 = 45;

} // verus!
