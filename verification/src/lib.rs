//! Coproto: a self-describing binary codec for a small, fixed set of scalar
//! and composite values.
//!
//! # Wire format
//!
//! Every encoded value starts with a one-byte type tag ([`common::tags`]) and
//! keeps its payload inside a record frame, which four reserved control
//! bytes ([`common::delimiters`]) mark:
//!
//! ```text
//! scalar    := tag sign? START_RECORD payload END_RECORD BUFFER_END
//! sign      := '+' | '-'
//! composite := tag START_RECORD (inner VALUE_DELIMITER)* END_RECORD BUFFER_END
//! inner     := tag sign? START_RECORD payload END_RECORD
//! ```
//!
//! | Kind       | Tag | Payload                                               |
//! |------------|-----|-------------------------------------------------------|
//! | Integer    | `:` | digits of the absolute value, as bytes `0..=9`        |
//! | BigInt     | `(` | digits of the absolute value, as bytes `0..=9`        |
//! | Double     | `;` | decimal text: digits as bytes `0..=9`, point as `'.'` |
//! | Boolean    | `#` | one byte, `0` or `1`                                  |
//! | Null       | `-` | nothing                                               |
//! | String     | `+` | the UTF-8 bytes of the text                           |
//! | Array      | `[` | the elements                                          |
//! | NamedValue | `@` | the name as a String, then the value                  |
//! | Command    | `$` | the name as a String, then the arguments as Strings   |
//! | Table      | `{` | the headers as Strings, a Null, then the rows         |
//!
//! A table row is the run of its values, followed by one more
//! `VALUE_DELIMITER`.
//!
//! # Decoding
//!
//! A decoder checks the tag, reads the sign of a number, and slices the rest
//! into its top-level records ([`common::slice_records()`]).  A composite
//! splits the body of its record into fields ([`common::split_values()`]) and
//! decodes each field by its own tag ([`types::infer_buffer()`]).  Bytes
//! outside of records do not count.  Text is not escaped: a text that holds
//! control bytes may not come back from its frame
//! ([`common::framing::survives_framing`]).
//!
//! # Contracts
//!
//! Every encoder and decoder states the exact bytes, value or error that it
//! gives, as a function of its input.  The laws that connect them, such as
//! that decoding gives back what was encoded, are proved in
//! [`types::primitive::laws`] and [`types::composite::laws`].

pub mod common;
pub mod types;
