//! The composite kinds.

pub mod array;
pub mod body;
pub mod command;
pub mod laws;
pub mod named_value;
pub mod table;

pub use array::Array;
pub use command::Command;
pub use named_value::NamedValue;
pub use table::Table;
