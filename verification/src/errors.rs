//! The failures that the adapter layer reports to its caller.

use vstd::prelude::*;
use crate::facades::{JsFacadeModel, JsPlainValue, JsValueFacade};
use crate::value_type::JsValueType;

verus! {

/// Every recoverable failure is returned as one of these.
#[derive(Debug)]
pub enum JsError {
    /// A script or a module did not parse or did not run; carries the
    /// engine's diagnostic.
    ScriptError(String),
    /// A called function threw; carries the thrown value, detached.
    InvocationError(JsValueFacade),
    /// A namespace segment or a property could not be resolved; carries its
    /// name.
    PropertyNotFound(String),
    /// A realm with this identifier exists already.
    DuplicateRealm(String),
    /// A promise was settled a second time.
    InvalidState,
    /// No conversion is defined for values of this category.
    NotImplemented(JsValueType),
}

impl JsError {
    /// The value that a script sees thrown when a host function fails with
    /// this error: the value that an `InvocationError` carries, and for any
    /// other error its text.
    pub open spec fn thrown(self) -> JsFacadeModel {
        match self {
            JsError::ScriptError(text) => JsFacadeModel::Plain(JsPlainValue::String(text@)),
            JsError::InvocationError(value) => value@,
            JsError::PropertyNotFound(name) => JsFacadeModel::Plain(JsPlainValue::String(name@)),
            JsError::DuplicateRealm(id) => JsFacadeModel::Plain(JsPlainValue::String(id@)),
            JsError::InvalidState => JsFacadeModel::Plain(JsPlainValue::String("InvalidState"@)),
            JsError::NotImplemented(_) => JsFacadeModel::Plain(
                JsPlainValue::String("NotImplemented"@),
            ),
        }
    }

    pub fn into_thrown(self) -> (value: JsValueFacade)
        ensures
            value@ == self.thrown(),
    {
        match self {
            JsError::ScriptError(text) => JsValueFacade::String(text),
            JsError::InvocationError(value) => value,
            JsError::PropertyNotFound(name) => JsValueFacade::String(name),
            JsError::DuplicateRealm(id) => JsValueFacade::String(id),
            JsError::InvalidState => JsValueFacade::String("InvalidState".to_owned()),
            JsError::NotImplemented(_) => JsValueFacade::String("NotImplemented".to_owned()),
        }
    }
}

} // verus!
