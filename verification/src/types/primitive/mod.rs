//! The scalar kinds.

pub mod bigint;
pub mod boolean;
pub mod digits;
pub mod double;
pub mod frame;
pub mod integer;
pub mod laws;
pub mod null;
pub mod string;
pub mod supported_types;

pub use bigint::BigInt;
pub use boolean::Boolean;
pub use double::{Decimal, Double};
pub use integer::Integer;
pub use null::Null;
pub use string::String;
pub use supported_types::SupportedTypes;
