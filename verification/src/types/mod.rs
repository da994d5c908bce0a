//! The value kinds and their codecs.

pub mod composite;
pub mod infer_buffer;
pub mod primitive;

pub use composite::{Array, Command, NamedValue, Table};
pub use infer_buffer::infer_buffer;
pub use primitive::{BigInt, Boolean, Decimal, Double, Integer, Null, String, SupportedTypes};
