//! The interface shared by every value kind.

use super::Uint8Buff;
use super::errors::TypeResult;
use vstd::prelude::*;

verus! {

/// Either side of a codec: a value to encode or a buffer to decode.
pub enum ValueOrBuffer<T> {
    Value(T),
    Buffer(Uint8Buff),
}

/// A value kind of the format, with `T` as its in-memory payload.
///
/// Each kind states the exact outcome of `encode` and `decode` on its own
/// implementation.
pub trait CoprotoType<T>: Sized {
    /// The tag byte that starts every encoding of this kind.
    const FIRST_BYTE: u8;

    /// Runs the codec on `value` and keeps both the value and the bytes.
    fn new(value: ValueOrBuffer<T>) -> Self;

    /// The bytes of `value`.
    fn encode(value: T) -> TypeResult<Uint8Buff>;

    /// The value that `value` holds.
    fn decode(value: Uint8Buff) -> TypeResult<T>;
}

} // verus!
