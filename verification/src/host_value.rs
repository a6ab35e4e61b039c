//! The values of the host realm: a realm that lives in host memory and runs
//! no scripts.

use vstd::prelude::*;
use vstd::string::StrSliceExecFns;
use crate::adapters::{JsValueAdapter, JsValueFactory};
use crate::errors::JsError;
use crate::facades::{JsF64, JsPlainValue};
use crate::model::JsValueModel;
use crate::numbers::{
    int32_as_text, int32_text, int32_to_number, is_truthy, number_as_int32, number_as_text,
    number_from_int32, number_is_truthy, number_text, number_to_int32, text_as_number,
    text_to_number, NUMBER_NAN, NUMBER_ONE,
};
use crate::value_type::JsValueType;

verus! {

/// A value of the host realm. A plain value holds its content; an object, a
/// function or an array is a handle into the realm that made it.
#[derive(Debug)]
pub enum HostValue {
    I32(i32),
    F64(JsF64),
    String(String),
    Boolean(bool),
    Null,
    Undefined,
    Object(usize),
    Function(usize),
    Array(usize),
}

impl View for HostValue {
    type V = JsValueModel;

    open spec fn view(&self) -> JsValueModel {
        match self {
            HostValue::I32(v) => JsValueModel::Plain(JsPlainValue::I32(*v)),
            HostValue::F64(v) => JsValueModel::Plain(JsPlainValue::F64(v.bits)),
            HostValue::String(v) => JsValueModel::Plain(JsPlainValue::String(v@)),
            HostValue::Boolean(v) => JsValueModel::Plain(JsPlainValue::Boolean(*v)),
            HostValue::Null => JsValueModel::null(),
            HostValue::Undefined => JsValueModel::undefined(),
            HostValue::Object(id) => JsValueModel::Object(*id as int),
            HostValue::Function(id) => JsValueModel::Function(*id as int),
            HostValue::Array(id) => JsValueModel::Array(*id as int),
        }
    }
}

impl Clone for HostValue {
    fn clone(&self) -> (copy: Self)
        ensures
            copy == *self,
            copy@ == self@,
    {
        match self {
            HostValue::I32(v) => HostValue::I32(*v),
            HostValue::F64(v) => HostValue::F64(*v),
            HostValue::String(v) => HostValue::String(v.clone()),
            HostValue::Boolean(v) => HostValue::Boolean(*v),
            HostValue::Null => HostValue::Null,
            HostValue::Undefined => HostValue::Undefined,
            HostValue::Object(id) => HostValue::Object(*id),
            HostValue::Function(id) => HostValue::Function(*id),
            HostValue::Array(id) => HostValue::Array(*id),
        }
    }
}

/// Truthiness, as the language has it.
pub open spec fn host_bool_of(value: JsValueModel) -> bool {
    match value {
        JsValueModel::Plain(JsPlainValue::I32(v)) => v != 0,
        JsValueModel::Plain(JsPlainValue::F64(bits)) => is_truthy(bits),
        JsValueModel::Plain(JsPlainValue::String(text)) => text.len() > 0,
        JsValueModel::Plain(JsPlainValue::Boolean(b)) => b,
        JsValueModel::Plain(JsPlainValue::Null) => false,
        JsValueModel::Plain(JsPlainValue::Undefined) => false,
        JsValueModel::BigInt(n) => n != 0,
        _ => true,
    }
}

/// The 32-bit integer of a value: that of its number. What is no number
/// counts as 0.
pub open spec fn host_i32_of(value: JsValueModel) -> i32 {
    match value {
        JsValueModel::Plain(JsPlainValue::I32(v)) => v,
        JsValueModel::Plain(JsPlainValue::F64(bits)) => number_to_int32(bits),
        JsValueModel::Plain(JsPlainValue::String(text)) => number_to_int32(text_to_number(text)),
        JsValueModel::Plain(JsPlainValue::Boolean(b)) => if b {
            1
        } else {
            0
        },
        _ => 0,
    }
}

/// The number of a value. A text is the number that it writes, and
/// `undefined` and every object are no number.
pub open spec fn host_f64_of(value: JsValueModel) -> u64 {
    match value {
        JsValueModel::Plain(JsPlainValue::I32(v)) => int32_to_number(v),
        JsValueModel::Plain(JsPlainValue::F64(bits)) => bits,
        JsValueModel::Plain(JsPlainValue::String(text)) => text_to_number(text),
        JsValueModel::Plain(JsPlainValue::Boolean(b)) => if b {
            NUMBER_ONE
        } else {
            0
        },
        JsValueModel::Plain(JsPlainValue::Null) => 0,
        _ => NUMBER_NAN,
    }
}

/// The text of a value. A handle is written by its category alone: the
/// content of an object is the realm's to tell.
pub open spec fn host_string_of(value: JsValueModel) -> Seq<char> {
    match value {
        JsValueModel::Plain(JsPlainValue::I32(v)) => int32_text(v),
        JsValueModel::Plain(JsPlainValue::F64(bits)) => number_text(bits),
        JsValueModel::Plain(JsPlainValue::String(text)) => text,
        JsValueModel::Plain(JsPlainValue::Boolean(b)) => if b {
            "true"@
        } else {
            "false"@
        },
        JsValueModel::Plain(JsPlainValue::Null) => "null"@,
        JsValueModel::Plain(JsPlainValue::Undefined) => "undefined"@,
        JsValueModel::Function(_) => "function () { [native code] }"@,
        JsValueModel::Array(_) => "[object Array]"@,
        _ => "[object Object]"@,
    }
}

impl JsValueAdapter for HostValue {
    open spec fn model(&self) -> JsValueModel {
        self@
    }

    open spec fn bool_of(value: JsValueModel) -> bool {
        host_bool_of(value)
    }

    open spec fn i32_of(value: JsValueModel) -> i32 {
        host_i32_of(value)
    }

    open spec fn f64_of(value: JsValueModel) -> u64 {
        host_f64_of(value)
    }

    open spec fn string_of(value: JsValueModel) -> Seq<char> {
        host_string_of(value)
    }

    proof fn coercion_table(value: JsValueModel) {
    }

    fn js_get_type(&self) -> (kind: JsValueType) {
        match self {
            HostValue::I32(_) => JsValueType::I32,
            HostValue::F64(_) => JsValueType::F64,
            HostValue::String(_) => JsValueType::String,
            HostValue::Boolean(_) => JsValueType::Boolean,
            HostValue::Null => JsValueType::Null,
            HostValue::Undefined => JsValueType::Undefined,
            HostValue::Object(_) => JsValueType::Object,
            HostValue::Function(_) => JsValueType::Function,
            HostValue::Array(_) => JsValueType::Array,
        }
    }

    fn js_type_of(&self) -> (name: &'static str) {
        self.js_get_type().js_type_of()
    }

    fn js_to_bool(&self) -> (b: bool) {
        match self {
            HostValue::I32(v) => *v != 0,
            HostValue::F64(v) => number_is_truthy(v.bits),
            HostValue::String(v) => v.as_str().unicode_len() > 0,
            HostValue::Boolean(v) => *v,
            HostValue::Null => false,
            HostValue::Undefined => false,
            _ => true,
        }
    }

    fn js_to_i32(&self) -> (v: i32) {
        match self {
            HostValue::I32(v) => *v,
            HostValue::F64(v) => number_as_int32(v.bits),
            HostValue::String(v) => number_as_int32(text_as_number(v.as_str())),
            HostValue::Boolean(v) => if *v {
                1
            } else {
                0
            },
            _ => 0,
        }
    }

    fn js_to_f64(&self) -> (v: JsF64) {
        match self {
            HostValue::I32(v) => JsF64 { bits: number_from_int32(*v) },
            HostValue::F64(v) => *v,
            HostValue::String(v) => JsF64 { bits: text_as_number(v.as_str()) },
            HostValue::Boolean(v) => if *v {
                JsF64 { bits: NUMBER_ONE }
            } else {
                JsF64 { bits: 0 }
            },
            HostValue::Null => JsF64 { bits: 0 },
            _ => JsF64 { bits: NUMBER_NAN },
        }
    }

    fn js_to_string(&self) -> (text: String) {
        match self {
            HostValue::I32(v) => int32_as_text(*v),
            HostValue::F64(v) => number_as_text(v.bits),
            HostValue::String(v) => v.clone(),
            HostValue::Boolean(v) => if *v {
                "true".to_owned()
            } else {
                "false".to_owned()
            },
            HostValue::Null => "null".to_owned(),
            HostValue::Undefined => "undefined".to_owned(),
            HostValue::Function(_) => "function () { [native code] }".to_owned(),
            HostValue::Array(_) => "[object Array]".to_owned(),
            HostValue::Object(_) => "[object Object]".to_owned(),
        }
    }
}

/// What the host realm hands to a host function: it makes the plain values
/// of the realm, which need no place in it.
#[derive(Clone, Copy, Debug, PartialEq, Eq, Structural)]
pub struct HostContext {}

impl JsValueFactory for HostContext {
    type JsValueAdapterType = HostValue;

    fn js_null_create(&self) -> (r: Result<HostValue, JsError>)
        ensures
            r is Ok,
    {
        Ok(HostValue::Null)
    }

    fn js_undefined_create(&self) -> (r: Result<HostValue, JsError>)
        ensures
            r is Ok,
    {
        Ok(HostValue::Undefined)
    }

    fn js_i32_create(&self, val: i32) -> (r: Result<HostValue, JsError>)
        ensures
            r is Ok,
    {
        Ok(HostValue::I32(val))
    }

    fn js_string_create(&self, val: &str) -> (r: Result<HostValue, JsError>)
        ensures
            r is Ok,
    {
        Ok(HostValue::String(val.to_owned()))
    }

    fn js_boolean_create(&self, val: bool) -> (r: Result<HostValue, JsError>)
        ensures
            r is Ok,
    {
        Ok(HostValue::Boolean(val))
    }

    fn js_f64_create(&self, val: JsF64) -> (r: Result<HostValue, JsError>)
        ensures
            r is Ok,
    {
        Ok(HostValue::F64(val))
    }
}

} // verus!
