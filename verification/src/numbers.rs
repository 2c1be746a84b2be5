//! The conversions of the integer types: a JSON number whose text is an
//! integer in the type's range, and the type's values as decimal text.
use vstd::prelude::*;

use crate::convert::{FromJsonValue, ToJsonValue};
use crate::decimal::{
    decimal, format_signed, format_unsigned, integer_in, signed_decimal, signed_in, unsigned_in,
};
use crate::error::{Error, Result};
use crate::json::{JsonModel, JsonValue, Number};

verus! {

impl FromJsonValue for u8 {
    open spec fn accepts(value: JsonModel) -> bool {
        value is Number && integer_in(value->Number_0, 0, u8::MAX as int) is Some
    }

    open spec fn reads(value: JsonModel, out: Self) -> bool {
        value is Number && integer_in(value->Number_0, 0, u8::MAX as int) == Some(out as int)
    }

    open spec fn refusal(value: JsonModel) -> Seq<char> {
        if value is Number {
            "expect an integer in the range of `u8`"@
        } else {
            "expect `JsonValue::Number`"@
        }
    }

    fn from_json_value(value: &JsonValue) -> (r: Result<Self>) {
        match value {
            JsonValue::Number(num) => match unsigned_in(num.as_str(), u8::MAX as u128) {
                Some(v) => Ok(v as u8),
                None => Err(Error::new_validate_err("expect an integer in the range of `u8`")),
            },
            _ => Err(Error::new_validate_err("expect `JsonValue::Number`")),
        }
    }
}

impl ToJsonValue for u8 {
    open spec fn json_model(&self) -> JsonModel {
        JsonModel::Number(decimal(*self as nat))
    }

    fn to_json_value(&self) -> (value: JsonValue) {
        JsonValue::Number(Number::new(format_unsigned(*self as u128)))
    }
}

impl FromJsonValue for u16 {
    open spec fn accepts(value: JsonModel) -> bool {
        value is Number && integer_in(value->Number_0, 0, u16::MAX as int) is Some
    }

    open spec fn reads(value: JsonModel, out: Self) -> bool {
        value is Number && integer_in(value->Number_0, 0, u16::MAX as int) == Some(out as int)
    }

    open spec fn refusal(value: JsonModel) -> Seq<char> {
        if value is Number {
            "expect an integer in the range of `u16`"@
        } else {
            "expect `JsonValue::Number`"@
        }
    }

    fn from_json_value(value: &JsonValue) -> (r: Result<Self>) {
        match value {
            JsonValue::Number(num) => match unsigned_in(num.as_str(), u16::MAX as u128) {
                Some(v) => Ok(v as u16),
                None => Err(Error::new_validate_err("expect an integer in the range of `u16`")),
            },
            _ => Err(Error::new_validate_err("expect `JsonValue::Number`")),
        }
    }
}

impl ToJsonValue for u16 {
    open spec fn json_model(&self) -> JsonModel {
        JsonModel::Number(decimal(*self as nat))
    }

    fn to_json_value(&self) -> (value: JsonValue) {
        JsonValue::Number(Number::new(format_unsigned(*self as u128)))
    }
}

impl FromJsonValue for u32 {
    open spec fn accepts(value: JsonModel) -> bool {
        value is Number && integer_in(value->Number_0, 0, u32::MAX as int) is Some
    }

    open spec fn reads(value: JsonModel, out: Self) -> bool {
        value is Number && integer_in(value->Number_0, 0, u32::MAX as int) == Some(out as int)
    }

    open spec fn refusal(value: JsonModel) -> Seq<char> {
        if value is Number {
            "expect an integer in the range of `u32`"@
        } else {
            "expect `JsonValue::Number`"@
        }
    }

    fn from_json_value(value: &JsonValue) -> (r: Result<Self>) {
        match value {
            JsonValue::Number(num) => match unsigned_in(num.as_str(), u32::MAX as u128) {
                Some(v) => Ok(v as u32),
                None => Err(Error::new_validate_err("expect an integer in the range of `u32`")),
            },
            _ => Err(Error::new_validate_err("expect `JsonValue::Number`")),
        }
    }
}

impl ToJsonValue for u32 {
    open spec fn json_model(&self) -> JsonModel {
        JsonModel::Number(decimal(*self as nat))
    }

    fn to_json_value(&self) -> (value: JsonValue) {
        JsonValue::Number(Number::new(format_unsigned(*self as u128)))
    }
}

impl FromJsonValue for u64 {
    open spec fn accepts(value: JsonModel) -> bool {
        value is Number && integer_in(value->Number_0, 0, u64::MAX as int) is Some
    }

    open spec fn reads(value: JsonModel, out: Self) -> bool {
        value is Number && integer_in(value->Number_0, 0, u64::MAX as int) == Some(out as int)
    }

    open spec fn refusal(value: JsonModel) -> Seq<char> {
        if value is Number {
            "expect an integer in the range of `u64`"@
        } else {
            "expect `JsonValue::Number`"@
        }
    }

    fn from_json_value(value: &JsonValue) -> (r: Result<Self>) {
        match value {
            JsonValue::Number(num) => match unsigned_in(num.as_str(), u64::MAX as u128) {
                Some(v) => Ok(v as u64),
                None => Err(Error::new_validate_err("expect an integer in the range of `u64`")),
            },
            _ => Err(Error::new_validate_err("expect `JsonValue::Number`")),
        }
    }
}

impl ToJsonValue for u64 {
    open spec fn json_model(&self) -> JsonModel {
        JsonModel::Number(decimal(*self as nat))
    }

    fn to_json_value(&self) -> (value: JsonValue) {
        JsonValue::Number(Number::new(format_unsigned(*self as u128)))
    }
}

impl FromJsonValue for u128 {
    open spec fn accepts(value: JsonModel) -> bool {
        value is Number && integer_in(value->Number_0, 0, u128::MAX as int) is Some
    }

    open spec fn reads(value: JsonModel, out: Self) -> bool {
        value is Number && integer_in(value->Number_0, 0, u128::MAX as int) == Some(out as int)
    }

    open spec fn refusal(value: JsonModel) -> Seq<char> {
        if value is Number {
            "expect an integer in the range of `u128`"@
        } else {
            "expect `JsonValue::Number`"@
        }
    }

    fn from_json_value(value: &JsonValue) -> (r: Result<Self>) {
        match value {
            JsonValue::Number(num) => match unsigned_in(num.as_str(), u128::MAX as u128) {
                Some(v) => Ok(v as u128),
                None => Err(Error::new_validate_err("expect an integer in the range of `u128`")),
            },
            _ => Err(Error::new_validate_err("expect `JsonValue::Number`")),
        }
    }
}

impl ToJsonValue for u128 {
    open spec fn json_model(&self) -> JsonModel {
        JsonModel::Number(decimal(*self as nat))
    }

    fn to_json_value(&self) -> (value: JsonValue) {
        JsonValue::Number(Number::new(format_unsigned(*self as u128)))
    }
}

impl FromJsonValue for usize {
    open spec fn accepts(value: JsonModel) -> bool {
        value is Number && integer_in(value->Number_0, 0, usize::MAX as int) is Some
    }

    open spec fn reads(value: JsonModel, out: Self) -> bool {
        value is Number && integer_in(value->Number_0, 0, usize::MAX as int) == Some(out as int)
    }

    open spec fn refusal(value: JsonModel) -> Seq<char> {
        if value is Number {
            "expect an integer in the range of `usize`"@
        } else {
            "expect `JsonValue::Number`"@
        }
    }

    fn from_json_value(value: &JsonValue) -> (r: Result<Self>) {
        match value {
            JsonValue::Number(num) => match unsigned_in(num.as_str(), usize::MAX as u128) {
                Some(v) => Ok(v as usize),
                None => Err(Error::new_validate_err("expect an integer in the range of `usize`")),
            },
            _ => Err(Error::new_validate_err("expect `JsonValue::Number`")),
        }
    }
}

impl ToJsonValue for usize {
    open spec fn json_model(&self) -> JsonModel {
        JsonModel::Number(decimal(*self as nat))
    }

    fn to_json_value(&self) -> (value: JsonValue) {
        JsonValue::Number(Number::new(format_unsigned(*self as u128)))
    }
}

impl FromJsonValue for i8 {
    open spec fn accepts(value: JsonModel) -> bool {
        value is Number && integer_in(value->Number_0, i8::MIN as int, i8::MAX as int) is Some
    }

    open spec fn reads(value: JsonModel, out: Self) -> bool {
        value is Number && integer_in(value->Number_0, i8::MIN as int, i8::MAX as int) == Some(
            out as int,
        )
    }

    open spec fn refusal(value: JsonModel) -> Seq<char> {
        if value is Number {
            "expect an integer in the range of `i8`"@
        } else {
            "expect `JsonValue::Number`"@
        }
    }

    fn from_json_value(value: &JsonValue) -> (r: Result<Self>) {
        match value {
            JsonValue::Number(num) => match signed_in(
                num.as_str(),
                i8::MIN as i128,
                i8::MAX as i128,
            ) {
                Some(v) => Ok(v as i8),
                None => Err(Error::new_validate_err("expect an integer in the range of `i8`")),
            },
            _ => Err(Error::new_validate_err("expect `JsonValue::Number`")),
        }
    }
}

impl ToJsonValue for i8 {
    open spec fn json_model(&self) -> JsonModel {
        JsonModel::Number(signed_decimal(*self as int))
    }

    fn to_json_value(&self) -> (value: JsonValue) {
        JsonValue::Number(Number::new(format_signed(*self as i128)))
    }
}

impl FromJsonValue for i16 {
    open spec fn accepts(value: JsonModel) -> bool {
        value is Number && integer_in(value->Number_0, i16::MIN as int, i16::MAX as int) is Some
    }

    open spec fn reads(value: JsonModel, out: Self) -> bool {
        value is Number && integer_in(value->Number_0, i16::MIN as int, i16::MAX as int) == Some(
            out as int,
        )
    }

    open spec fn refusal(value: JsonModel) -> Seq<char> {
        if value is Number {
            "expect an integer in the range of `i16`"@
        } else {
            "expect `JsonValue::Number`"@
        }
    }

    fn from_json_value(value: &JsonValue) -> (r: Result<Self>) {
        match value {
            JsonValue::Number(num) => match signed_in(
                num.as_str(),
                i16::MIN as i128,
                i16::MAX as i128,
            ) {
                Some(v) => Ok(v as i16),
                None => Err(Error::new_validate_err("expect an integer in the range of `i16`")),
            },
            _ => Err(Error::new_validate_err("expect `JsonValue::Number`")),
        }
    }
}

impl ToJsonValue for i16 {
    open spec fn json_model(&self) -> JsonModel {
        JsonModel::Number(signed_decimal(*self as int))
    }

    fn to_json_value(&self) -> (value: JsonValue) {
        JsonValue::Number(Number::new(format_signed(*self as i128)))
    }
}

impl FromJsonValue for i32 {
    open spec fn accepts(value: JsonModel) -> bool {
        value is Number && integer_in(value->Number_0, i32::MIN as int, i32::MAX as int) is Some
    }

    open spec fn reads(value: JsonModel, out: Self) -> bool {
        value is Number && integer_in(value->Number_0, i32::MIN as int, i32::MAX as int) == Some(
            out as int,
        )
    }

    open spec fn refusal(value: JsonModel) -> Seq<char> {
        if value is Number {
            "expect an integer in the range of `i32`"@
        } else {
            "expect `JsonValue::Number`"@
        }
    }

    fn from_json_value(value: &JsonValue) -> (r: Result<Self>) {
        match value {
            JsonValue::Number(num) => match signed_in(
                num.as_str(),
                i32::MIN as i128,
                i32::MAX as i128,
            ) {
                Some(v) => Ok(v as i32),
                None => Err(Error::new_validate_err("expect an integer in the range of `i32`")),
            },
            _ => Err(Error::new_validate_err("expect `JsonValue::Number`")),
        }
    }
}

impl ToJsonValue for i32 {
    open spec fn json_model(&self) -> JsonModel {
        JsonModel::Number(signed_decimal(*self as int))
    }

    fn to_json_value(&self) -> (value: JsonValue) {
        JsonValue::Number(Number::new(format_signed(*self as i128)))
    }
}

impl FromJsonValue for i64 {
    open spec fn accepts(value: JsonModel) -> bool {
        value is Number && integer_in(value->Number_0, i64::MIN as int, i64::MAX as int) is Some
    }

    open spec fn reads(value: JsonModel, out: Self) -> bool {
        value is Number && integer_in(value->Number_0, i64::MIN as int, i64::MAX as int) == Some(
            out as int,
        )
    }

    open spec fn refusal(value: JsonModel) -> Seq<char> {
        if value is Number {
            "expect an integer in the range of `i64`"@
        } else {
            "expect `JsonValue::Number`"@
        }
    }

    fn from_json_value(value: &JsonValue) -> (r: Result<Self>) {
        match value {
            JsonValue::Number(num) => match signed_in(
                num.as_str(),
                i64::MIN as i128,
                i64::MAX as i128,
            ) {
                Some(v) => Ok(v as i64),
                None => Err(Error::new_validate_err("expect an integer in the range of `i64`")),
            },
            _ => Err(Error::new_validate_err("expect `JsonValue::Number`")),
        }
    }
}

impl ToJsonValue for i64 {
    open spec fn json_model(&self) -> JsonModel {
        JsonModel::Number(signed_decimal(*self as int))
    }

    fn to_json_value(&self) -> (value: JsonValue) {
        JsonValue::Number(Number::new(format_signed(*self as i128)))
    }
}

impl FromJsonValue for i128 {
    open spec fn accepts(value: JsonModel) -> bool {
        value is Number && integer_in(value->Number_0, i128::MIN as int, i128::MAX as int) is Some
    }

    open spec fn reads(value: JsonModel, out: Self) -> bool {
        value is Number && integer_in(value->Number_0, i128::MIN as int, i128::MAX as int) == Some(
            out as int,
        )
    }

    open spec fn refusal(value: JsonModel) -> Seq<char> {
        if value is Number {
            "expect an integer in the range of `i128`"@
        } else {
            "expect `JsonValue::Number`"@
        }
    }

    fn from_json_value(value: &JsonValue) -> (r: Result<Self>) {
        match value {
            JsonValue::Number(num) => match signed_in(
                num.as_str(),
                i128::MIN as i128,
                i128::MAX as i128,
            ) {
                Some(v) => Ok(v as i128),
                None => Err(Error::new_validate_err("expect an integer in the range of `i128`")),
            },
            _ => Err(Error::new_validate_err("expect `JsonValue::Number`")),
        }
    }
}

impl ToJsonValue for i128 {
    open spec fn json_model(&self) -> JsonModel {
        JsonModel::Number(signed_decimal(*self as int))
    }

    fn to_json_value(&self) -> (value: JsonValue) {
        JsonValue::Number(Number::new(format_signed(*self as i128)))
    }
}

impl FromJsonValue for isize {
    open spec fn accepts(value: JsonModel) -> bool {
        value is Number && integer_in(value->Number_0, isize::MIN as int, isize::MAX as int) is Some
    }

    open spec fn reads(value: JsonModel, out: Self) -> bool {
        value is Number && integer_in(value->Number_0, isize::MIN as int, isize::MAX as int) == Some(
            out as int,
        )
    }

    open spec fn refusal(value: JsonModel) -> Seq<char> {
        if value is Number {
            "expect an integer in the range of `isize`"@
        } else {
            "expect `JsonValue::Number`"@
        }
    }

    fn from_json_value(value: &JsonValue) -> (r: Result<Self>) {
        match value {
            JsonValue::Number(num) => match signed_in(
                num.as_str(),
                isize::MIN as i128,
                isize::MAX as i128,
            ) {
                Some(v) => Ok(v as isize),
                None => Err(Error::new_validate_err("expect an integer in the range of `isize`")),
            },
            _ => Err(Error::new_validate_err("expect `JsonValue::Number`")),
        }
    }
}

impl ToJsonValue for isize {
    open spec fn json_model(&self) -> JsonModel {
        JsonModel::Number(signed_decimal(*self as int))
    }

    fn to_json_value(&self) -> (value: JsonValue) {
        JsonValue::Number(Number::new(format_signed(*self as i128)))
    }
}

} // verus!
