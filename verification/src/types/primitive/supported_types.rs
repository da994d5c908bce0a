//! The scalar values that a composite can hold.

use crate::common::{CoprotoType, Uint8Buff};
use crate::common::errors::{viewed, TypeFailure, TypeResult};
use super::bigint::{bigint_bytes, BigInt};
use super::boolean::{boolean_bytes, Boolean};
use super::double::{double_written, Decimal, DecimalView, Double};
use super::integer::{integer_bytes, Integer};
use super::null::{null_written, Null};
use super::string::string_bytes;
use vstd::prelude::*;

verus! {

/// A scalar value of any kind.
#[derive(Clone, PartialEq, Debug)]
pub enum SupportedTypes {
    BigInt(i64),
    Boolean(bool),
    Double(Decimal),
    Integer(i32),
    Null(Option<()>),
    String(std::string::String),
}

/// The mathematical content of a [`SupportedTypes`] value.
pub enum ScalarValue {
    BigInt(i64),
    Boolean(bool),
    Double(DecimalView),
    Integer(i32),
    Null(Option<()>),
    String(Seq<char>),
}

impl View for SupportedTypes {
    type V = ScalarValue;

    open spec fn view(&self) -> ScalarValue {
        match self {
            SupportedTypes::BigInt(value) => ScalarValue::BigInt(*value),
            SupportedTypes::Boolean(value) => ScalarValue::Boolean(*value),
            SupportedTypes::Double(value) => ScalarValue::Double(value@),
            SupportedTypes::Integer(value) => ScalarValue::Integer(*value),
            SupportedTypes::Null(value) => ScalarValue::Null(*value),
            SupportedTypes::String(value) => ScalarValue::String(value@),
        }
    }
}

/// The contents of a list of scalar values.
pub open spec fn scalar_views(values: Seq<SupportedTypes>) -> Seq<ScalarValue> {
    values.map_values(|value: SupportedTypes| value@)
}

/// The contents of a list of texts.
pub open spec fn text_views(texts: Seq<std::string::String>) -> Seq<Seq<char>> {
    texts.map_values(|text: std::string::String| text@)
}

/// The name of the kind of `value`.
pub open spec fn kind_name(value: ScalarValue) -> Seq<char> {
    match value {
        ScalarValue::BigInt(_) => "BigInt"@,
        ScalarValue::Boolean(_) => "Boolean"@,
        ScalarValue::Double(_) => "Double"@,
        ScalarValue::Integer(_) => "Integer"@,
        ScalarValue::Null(_) => "Null"@,
        ScalarValue::String(_) => "String"@,
    }
}

/// What encoding `value` on its own gives, by the rules of its kind.
pub open spec fn scalar_written(value: ScalarValue) -> Result<Seq<u8>, TypeFailure> {
    match value {
        ScalarValue::BigInt(number) => Ok(bigint_bytes(number)),
        ScalarValue::Boolean(truth) => Ok(boolean_bytes(truth)),
        ScalarValue::Double(number) => double_written(number),
        ScalarValue::Integer(number) => Ok(integer_bytes(number)),
        ScalarValue::Null(absent) => null_written(absent),
        ScalarValue::String(text) => Ok(string_bytes(text)),
    }
}

impl SupportedTypes {
    /// The name of the kind of this value.
    pub fn get_name(&self) -> (name: &str)
        ensures
            name@ == kind_name(self@),
    {
        match self {
            SupportedTypes::BigInt(_) => "BigInt",
            SupportedTypes::Boolean(_) => "Boolean",
            SupportedTypes::Double(_) => "Double",
            SupportedTypes::Integer(_) => "Integer",
            SupportedTypes::Null(_) => "Null",
            SupportedTypes::String(_) => "String",
        }
    }

    /// The bytes of this value, by the encoder of its kind.
    pub fn encode(&self) -> (buff: TypeResult<Uint8Buff>)
        ensures
            viewed(buff) == scalar_written(self@),
    {
        match self {
            SupportedTypes::BigInt(bi) => BigInt::encode(*bi),
            SupportedTypes::Boolean(bol) => Boolean::encode(*bol),
            SupportedTypes::Double(db) => Double::encode_ref(db),
            SupportedTypes::Integer(number) => Integer::encode(*number),
            SupportedTypes::Null(null_val) => Null::encode(*null_val),
            SupportedTypes::String(string) => super::string::String::encode(string.clone()),
        }
    }
}

} // verus!
