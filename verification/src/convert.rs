//! The two conversions between values of Rust types and JSON values.
use vstd::prelude::*;

use crate::error::{Error, ErrorModel, ErrorType, Result};
use crate::json::{lemma_array_view, models_of, JsonModel, JsonValue};

verus! {

/// The validation error with the given message.
pub open spec fn refused(message: Seq<char>) -> ErrorModel {
    ErrorModel { kind: ErrorType::ValidateError, message }
}

/// The index of the first item from `from` on that `T` does not accept, or
/// the number of items where it accepts them all.
pub open spec fn first_refused<T: FromJsonValue>(items: Seq<JsonModel>, from: int) -> int
    decreases items.len() - from,
{
    if from < 0 || from >= items.len() || !T::accepts(items[from]) {
        from
    } else {
        first_refused::<T>(items, from + 1)
    }
}

/// A type whose values can be read from JSON values.
pub trait FromJsonValue: Sized {
    /// Whether `value` has the shape and range of a value of this type.
    /// An impl states it; where it does not, nothing is known of it.
    open spec fn accepts(value: JsonModel) -> bool {
        arbitrary()
    }

    /// Whether `out` is what `value`, which is accepted, converts to.
    /// An impl states it; where it does not, nothing is known of it.
    open spec fn reads(value: JsonModel, out: Self) -> bool {
        arbitrary()
    }

    /// The message with which `value`, which is not accepted, is refused.
    /// An impl states it; where it does not, nothing is known of it.
    open spec fn refusal(value: JsonModel) -> Seq<char> {
        arbitrary()
    }

    /// Converts `value`, or fails with a validation error where it is not accepted.
    fn from_json_value(value: &JsonValue) -> (r: Result<Self>)
        ensures
            match r {
                Ok(out) => Self::accepts(value@) && Self::reads(value@, out),
                Err(e) => !Self::accepts(value@) && e@ == refused(Self::refusal(value@)),
            },
    ;
}

/// A type whose values can be written as JSON values.
pub trait ToJsonValue {
    /// The JSON value that stands for `self`.
    /// An impl states it; where it does not, nothing is known of it.
    open spec fn json_model(&self) -> JsonModel {
        arbitrary()
    }

    fn to_json_value(&self) -> (value: JsonValue)
        ensures
            value@ == self.json_model(),
    ;
}

impl FromJsonValue for () {
    open spec fn accepts(value: JsonModel) -> bool {
        value is Null
    }

    open spec fn reads(value: JsonModel, out: Self) -> bool {
        true
    }

    open spec fn refusal(value: JsonModel) -> Seq<char> {
        "expect `JsonValue::Null`"@
    }

    fn from_json_value(value: &JsonValue) -> (r: Result<Self>) {
        match value {
            JsonValue::Null => Ok(()),
            _ => Err(Error::new_validate_err("expect `JsonValue::Null`")),
        }
    }
}

impl FromJsonValue for String {
    open spec fn accepts(value: JsonModel) -> bool {
        value is String
    }

    open spec fn reads(value: JsonModel, out: Self) -> bool {
        value == JsonModel::String(out@)
    }

    open spec fn refusal(value: JsonModel) -> Seq<char> {
        "expect `JsonValue::String`"@
    }

    fn from_json_value(value: &JsonValue) -> (r: Result<Self>) {
        match value {
            JsonValue::String(s) => Ok(s.clone()),
            _ => Err(Error::new_validate_err("expect `JsonValue::String`")),
        }
    }
}

impl FromJsonValue for bool {
    open spec fn accepts(value: JsonModel) -> bool {
        value is Bool
    }

    open spec fn reads(value: JsonModel, out: Self) -> bool {
        value == JsonModel::Bool(out)
    }

    open spec fn refusal(value: JsonModel) -> Seq<char> {
        "expect `JsonValue::Bool`"@
    }

    fn from_json_value(value: &JsonValue) -> (r: Result<Self>) {
        match value {
            JsonValue::Bool(b) => Ok(*b),
            _ => Err(Error::new_validate_err("expect `JsonValue::Bool`")),
        }
    }
}

impl<T: FromJsonValue> FromJsonValue for Vec<T> {
    open spec fn accepts(value: JsonModel) -> bool {
        &&& value is Array
        &&& forall|i: int| 0 <= i < value->Array_0.len() ==> T::accepts(#[trigger] value->Array_0[i])
    }

    open spec fn reads(value: JsonModel, out: Self) -> bool {
        &&& value is Array
        &&& out@.len() == value->Array_0.len()
        &&& forall|i: int|
            0 <= i < out@.len() ==> T::reads(value->Array_0[i], #[trigger] out@[i])
    }

    open spec fn refusal(value: JsonModel) -> Seq<char> {
        match value {
            JsonModel::Array(items) => T::refusal(items[first_refused::<T>(items, 0)]),
            _ => "expect `JsonValue::Array`"@,
        }
    }

    fn from_json_value(value: &JsonValue) -> (r: Result<Self>) {
        match value {
            JsonValue::Array(arr) => {
                proof {
                    lemma_array_view(*arr);
                }
                let ghost items = models_of(arr@);
                let mut buffer: Vec<T> = Vec::with_capacity(arr.len());
                let mut i: usize = 0;
                while i < arr.len()
                    invariant
                        i <= arr@.len(),
                        items == models_of(arr@),
                        value@ == JsonModel::Array(items),
                        buffer@.len() == i,
                        forall|j: int| 0 <= j < i ==> T::accepts(#[trigger] items[j]),
                        first_refused::<T>(items, 0) == first_refused::<T>(items, i as int),
                        forall|j: int| 0 <= j < i ==> T::reads(items[j], #[trigger] buffer@[j]),
                    decreases arr@.len() - i,
                {
                    assert(arr@[i as int]@ == items[i as int]);
                    match T::from_json_value(&arr[i]) {
                        Ok(out) => buffer.push(out),
                        Err(e) => {
                            assert(!T::accepts(value@->Array_0[i as int]));
                            return Err(e);
                        },
                    }
                    i += 1;
                }
                Ok(buffer)
            },
            _ => Err(Error::new_validate_err("expect `JsonValue::Array`")),
        }
    }
}

impl<T: FromJsonValue> FromJsonValue for Option<T> {
    open spec fn accepts(value: JsonModel) -> bool {
        value is Null || T::accepts(value)
    }

    open spec fn reads(value: JsonModel, out: Self) -> bool {
        match out {
            None => value is Null,
            Some(inner) => !(value is Null) && T::reads(value, inner),
        }
    }

    open spec fn refusal(value: JsonModel) -> Seq<char> {
        T::refusal(value)
    }

    fn from_json_value(value: &JsonValue) -> (r: Result<Self>) {
        match value {
            JsonValue::Null => Ok(None),
            _ => match T::from_json_value(value) {
                Ok(inner) => Ok(Some(inner)),
                Err(e) => Err(e),
            },
        }
    }
}

impl<T: FromJsonValue> FromJsonValue for Box<T> {
    open spec fn accepts(value: JsonModel) -> bool {
        T::accepts(value)
    }

    open spec fn reads(value: JsonModel, out: Self) -> bool {
        T::reads(value, *out)
    }

    open spec fn refusal(value: JsonModel) -> Seq<char> {
        T::refusal(value)
    }

    fn from_json_value(value: &JsonValue) -> (r: Result<Self>) {
        match T::from_json_value(value) {
            Ok(inner) => Ok(Box::new(inner)),
            Err(e) => Err(e),
        }
    }
}

impl ToJsonValue for () {
    open spec fn json_model(&self) -> JsonModel {
        JsonModel::Null
    }

    fn to_json_value(&self) -> (value: JsonValue) {
        JsonValue::Null
    }
}

impl ToJsonValue for String {
    open spec fn json_model(&self) -> JsonModel {
        JsonModel::String(self@)
    }

    fn to_json_value(&self) -> (value: JsonValue) {
        JsonValue::String(self.clone())
    }
}

impl ToJsonValue for bool {
    open spec fn json_model(&self) -> JsonModel {
        JsonModel::Bool(*self)
    }

    fn to_json_value(&self) -> (value: JsonValue) {
        JsonValue::Bool(*self)
    }
}

impl<T: ToJsonValue> ToJsonValue for Vec<T> {
    open spec fn json_model(&self) -> JsonModel {
        JsonModel::Array(Seq::new(self@.len(), |i: int| self@[i].json_model()))
    }

    fn to_json_value(&self) -> (value: JsonValue) {
        let mut items: Vec<JsonValue> = Vec::with_capacity(self.len());
        let mut i: usize = 0;
        while i < self.len()
            invariant
                i <= self@.len(),
                items@.len() == i,
                forall|j: int| 0 <= j < i ==> (#[trigger] items@[j])@ == self@[j].json_model(),
            decreases self@.len() - i,
        {
            items.push(self[i].to_json_value());
            i += 1;
        }
        proof {
            lemma_array_view(items);
            assert(models_of(items@) =~= Seq::new(self@.len(), |i: int| self@[i].json_model()));
        }
        JsonValue::Array(items)
    }
}

impl<T: ToJsonValue> ToJsonValue for Option<T> {
    open spec fn json_model(&self) -> JsonModel {
        match self {
            None => JsonModel::Null,
            Some(val) => val.json_model(),
        }
    }

    fn to_json_value(&self) -> (value: JsonValue) {
        match self {
            None => JsonValue::Null,
            Some(val) => val.to_json_value(),
        }
    }
}

impl<T: ToJsonValue> ToJsonValue for Box<T> {
    open spec fn json_model(&self) -> JsonModel {
        (**self).json_model()
    }

    fn to_json_value(&self) -> (value: JsonValue) {
        (**self).to_json_value()
    }
}

} // verus!
