//! The closed set of value categories.

use vstd::prelude::*;

verus! {

/// The category of a JavaScript value. Exactly one describes any value.
#[derive(Clone, Copy, Debug, PartialEq, Eq, Structural)]
pub enum JsValueType {
    I32,
    F64,
    String,
    Boolean,
    Object,
    Function,
    BigInt,
    Promise,
    Date,
    Null,
    Undefined,
    Array,
}

/// The `typeof` string of a value of the given category. It is coarser than
/// the category: every object-like value, and `null`, report `"object"`.
pub open spec fn typeof_name(kind: JsValueType) -> Seq<char> {
    match kind {
        JsValueType::I32 | JsValueType::F64 => "number"@,
        JsValueType::String => "string"@,
        JsValueType::Boolean => "boolean"@,
        JsValueType::Function => "function"@,
        JsValueType::BigInt => "bigint"@,
        JsValueType::Undefined => "undefined"@,
        JsValueType::Object | JsValueType::Promise | JsValueType::Date | JsValueType::Null
        | JsValueType::Array => "object"@,
    }
}

impl JsValueType {
    /// The categories whose values are plain data: they can be detached from
    /// the engine without walking an object graph.
    pub open spec fn is_plain(self) -> bool {
        self == JsValueType::I32 || self == JsValueType::F64 || self == JsValueType::String
            || self == JsValueType::Boolean || self == JsValueType::Null || self
            == JsValueType::Undefined
    }

    /// The categories whose values are handles into a realm's object graph.
    pub open spec fn is_reference(self) -> bool {
        self == JsValueType::Object || self == JsValueType::Function || self
            == JsValueType::Array || self == JsValueType::Promise || self == JsValueType::Date
    }

    /// Tells whether a value of this category is plain data.
    pub fn js_is_plain(self) -> (b: bool)
        ensures
            b == self.is_plain(),
    {
        match self {
            JsValueType::I32
            | JsValueType::F64
            | JsValueType::String
            | JsValueType::Boolean
            | JsValueType::Null
            | JsValueType::Undefined => true,
            _ => false,
        }
    }

    /// The `typeof` string of a value of this category.
    pub fn js_type_of(self) -> (name: &'static str)
        ensures
            name@ == typeof_name(self),
    {
        match self {
            JsValueType::I32 | JsValueType::F64 => "number",
            JsValueType::String => "string",
            JsValueType::Boolean => "boolean",
            JsValueType::Function => "function",
            JsValueType::BigInt => "bigint",
            JsValueType::Undefined => "undefined",
            JsValueType::Object
            | JsValueType::Promise
            | JsValueType::Date
            | JsValueType::Null
            | JsValueType::Array => "object",
        }
    }
}

} // verus!
