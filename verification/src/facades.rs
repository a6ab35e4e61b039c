//! Detached values: plain owned data that may be stored, copied and moved
//! across threads, away from the engine that produced it.

use vstd::prelude::*;
use crate::value_type::JsValueType;

verus! {

/// A 64-bit IEEE-754 number, carried by its bit pattern.
#[derive(Clone, Copy, Debug, PartialEq, Eq, Structural)]
pub struct JsF64 {
    pub bits: u64,
}

/// What a plain value is, as mathematics.
pub enum JsPlainValue {
    I32(i32),
    F64(u64),
    String(Seq<char>),
    Boolean(bool),
    Null,
    Undefined,
}

impl JsPlainValue {
    pub open spec fn kind(self) -> JsValueType {
        match self {
            JsPlainValue::I32(_) => JsValueType::I32,
            JsPlainValue::F64(_) => JsValueType::F64,
            JsPlainValue::String(_) => JsValueType::String,
            JsPlainValue::Boolean(_) => JsValueType::Boolean,
            JsPlainValue::Null => JsValueType::Null,
            JsPlainValue::Undefined => JsValueType::Undefined,
        }
    }
}

/// What a detached value is: a plain value, or, for a value of one of the
/// object categories, that category and nothing more.
pub enum JsFacadeModel {
    Plain(JsPlainValue),
    Other(JsValueType),
}

impl JsFacadeModel {
    pub open spec fn kind(self) -> JsValueType {
        match self {
            JsFacadeModel::Plain(plain) => plain.kind(),
            JsFacadeModel::Other(kind) => kind,
        }
    }
}

/// A detached value. It is made by conversion from an engine value and never
/// changes afterwards. A plain value holds its content. For the object
/// categories a detached value names the category alone: what such a value
/// would hold is for an engine to say.
#[derive(Debug)]
pub enum JsValueFacade {
    I32(i32),
    F64(JsF64),
    String(String),
    Boolean(bool),
    Object,
    Function,
    BigInt,
    Promise,
    Date,
    Null,
    Undefined,
    Array,
}

impl View for JsValueFacade {
    type V = JsFacadeModel;

    open spec fn view(&self) -> JsFacadeModel {
        match self {
            JsValueFacade::I32(v) => JsFacadeModel::Plain(JsPlainValue::I32(*v)),
            JsValueFacade::F64(v) => JsFacadeModel::Plain(JsPlainValue::F64(v.bits)),
            JsValueFacade::String(v) => JsFacadeModel::Plain(JsPlainValue::String(v@)),
            JsValueFacade::Boolean(v) => JsFacadeModel::Plain(JsPlainValue::Boolean(*v)),
            JsValueFacade::Object => JsFacadeModel::Other(JsValueType::Object),
            JsValueFacade::Function => JsFacadeModel::Other(JsValueType::Function),
            JsValueFacade::BigInt => JsFacadeModel::Other(JsValueType::BigInt),
            JsValueFacade::Promise => JsFacadeModel::Other(JsValueType::Promise),
            JsValueFacade::Date => JsFacadeModel::Other(JsValueType::Date),
            JsValueFacade::Null => JsFacadeModel::Plain(JsPlainValue::Null),
            JsValueFacade::Undefined => JsFacadeModel::Plain(JsPlainValue::Undefined),
            JsValueFacade::Array => JsFacadeModel::Other(JsValueType::Array),
        }
    }
}

impl Clone for JsValueFacade {
    fn clone(&self) -> (copy: Self)
        ensures
            copy@ == self@,
    {
        match self {
            JsValueFacade::I32(v) => JsValueFacade::I32(*v),
            JsValueFacade::F64(v) => JsValueFacade::F64(*v),
            JsValueFacade::String(v) => JsValueFacade::String(v.clone()),
            JsValueFacade::Boolean(v) => JsValueFacade::Boolean(*v),
            JsValueFacade::Object => JsValueFacade::Object,
            JsValueFacade::Function => JsValueFacade::Function,
            JsValueFacade::BigInt => JsValueFacade::BigInt,
            JsValueFacade::Promise => JsValueFacade::Promise,
            JsValueFacade::Date => JsValueFacade::Date,
            JsValueFacade::Null => JsValueFacade::Null,
            JsValueFacade::Undefined => JsValueFacade::Undefined,
            JsValueFacade::Array => JsValueFacade::Array,
        }
    }
}

impl JsValueFacade {
    /// The category of the value.
    pub fn js_get_type(&self) -> (kind: JsValueType)
        ensures
            kind == self@.kind(),
    {
        match self {
            JsValueFacade::I32(_) => JsValueType::I32,
            JsValueFacade::F64(_) => JsValueType::F64,
            JsValueFacade::String(_) => JsValueType::String,
            JsValueFacade::Boolean(_) => JsValueType::Boolean,
            JsValueFacade::Object => JsValueType::Object,
            JsValueFacade::Function => JsValueType::Function,
            JsValueFacade::BigInt => JsValueType::BigInt,
            JsValueFacade::Promise => JsValueType::Promise,
            JsValueFacade::Date => JsValueType::Date,
            JsValueFacade::Null => JsValueType::Null,
            JsValueFacade::Undefined => JsValueType::Undefined,
            JsValueFacade::Array => JsValueType::Array,
        }
    }

    /// The integer that an `I32` value holds.
    pub fn js_as_i32(&self) -> (v: i32)
        requires
            self@.kind() == JsValueType::I32,
        ensures
            self@ == JsFacadeModel::Plain(JsPlainValue::I32(v)),
    {
        match self {
            JsValueFacade::I32(v) => *v,
            _ => 0,
        }
    }

    /// The number that an `F64` value holds.
    pub fn js_as_f64(&self) -> (v: JsF64)
        requires
            self@.kind() == JsValueType::F64,
        ensures
            self@ == JsFacadeModel::Plain(JsPlainValue::F64(v.bits)),
    {
        match self {
            JsValueFacade::F64(v) => *v,
            _ => JsF64 { bits: 0 },
        }
    }

    /// The text that a `String` value holds.
    pub fn js_as_str(&self) -> (v: &str)
        requires
            self@.kind() == JsValueType::String,
        ensures
            self@ == JsFacadeModel::Plain(JsPlainValue::String(v@)),
    {
        match self {
            JsValueFacade::String(v) => v.as_str(),
            _ => "",
        }
    }

    /// The truth value that a `Boolean` value holds.
    pub fn js_as_bool(&self) -> (v: bool)
        requires
            self@.kind() == JsValueType::Boolean,
        ensures
            self@ == JsFacadeModel::Plain(JsPlainValue::Boolean(v)),
    {
        match self {
            JsValueFacade::Boolean(v) => *v,
            _ => false,
        }
    }
}

} // verus!
