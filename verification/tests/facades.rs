use js_adapters::errors::JsError;
use js_adapters::facades::{JsF64, JsValueFacade};
use js_adapters::proxies::JsProxy;
use js_adapters::script::Script;
use js_adapters::value_type::JsValueType;

#[test]
fn a_facade_knows_its_category() {
    assert_eq!(JsValueFacade::I32(1).js_get_type(), JsValueType::I32);
    assert_eq!(JsValueFacade::F64(JsF64 { bits: 0 }).js_get_type(), JsValueType::F64);
    assert_eq!(JsValueFacade::String("s".to_string()).js_get_type(), JsValueType::String);
    assert_eq!(JsValueFacade::Boolean(true).js_get_type(), JsValueType::Boolean);
    assert_eq!(JsValueFacade::Null.js_get_type(), JsValueType::Null);
    assert_eq!(JsValueFacade::Undefined.js_get_type(), JsValueType::Undefined);
}

#[test]
fn a_facade_hands_out_its_content() {
    assert_eq!(JsValueFacade::I32(-5).js_as_i32(), -5);
    assert_eq!(JsValueFacade::F64(JsF64 { bits: 3.14f64.to_bits() }).js_as_f64().bits, 3.14f64.to_bits());
    assert_eq!(JsValueFacade::String("abc".to_string()).js_as_str(), "abc");
    assert_eq!(JsValueFacade::String(String::new()).js_as_str(), "");
    assert!(JsValueFacade::Boolean(true).js_as_bool());
    assert!(!JsValueFacade::Boolean(false).js_as_bool());
}

#[test]
fn a_copy_of_a_facade_holds_the_same() {
    let first = JsValueFacade::String("kept".to_string());
    let copy = first.clone();
    assert_eq!(copy.js_get_type(), JsValueType::String);
    assert_eq!(copy.js_as_str(), "kept");
    assert_eq!(first.js_as_str(), "kept");
    assert_eq!(JsValueFacade::I32(3).clone().js_as_i32(), 3);
}

#[test]
fn plain_categories() {
    let plain = [
        JsValueType::I32,
        JsValueType::F64,
        JsValueType::String,
        JsValueType::Boolean,
        JsValueType::Null,
        JsValueType::Undefined,
    ];
    let other = [
        JsValueType::Object,
        JsValueType::Function,
        JsValueType::BigInt,
        JsValueType::Promise,
        JsValueType::Date,
        JsValueType::Array,
    ];
    for kind in plain {
        assert!(kind.js_is_plain());
    }
    for kind in other {
        assert!(!kind.js_is_plain());
    }
}

#[test]
fn the_thrown_value_of_an_error() {
    let thrown = JsError::InvocationError(JsValueFacade::I32(7)).into_thrown();
    assert!(matches!(thrown, JsValueFacade::I32(7)));
    let thrown = JsError::ScriptError("syntax".to_string()).into_thrown();
    assert!(matches!(thrown, JsValueFacade::String(ref s) if s == "syntax"));
    let thrown = JsError::PropertyNotFound("a".to_string()).into_thrown();
    assert!(matches!(thrown, JsValueFacade::String(ref s) if s == "a"));
    let thrown = JsError::DuplicateRealm("r".to_string()).into_thrown();
    assert!(matches!(thrown, JsValueFacade::String(ref s) if s == "r"));
    let thrown = JsError::InvalidState.into_thrown();
    assert!(matches!(thrown, JsValueFacade::String(ref s) if s == "InvalidState"));
    let thrown = JsError::NotImplemented(JsValueType::Date).into_thrown();
    assert!(matches!(thrown, JsValueFacade::String(ref s) if s == "NotImplemented"));
}

#[test]
fn a_script_keeps_its_path_and_code() {
    let script = Script::new("lib/util.js", "let a = 1;");
    assert_eq!(script.get_path(), "lib/util.js");
    assert_eq!(script.get_code(), "let a = 1;");
}

#[test]
fn a_host_class_keeps_its_place() {
    let proxy = JsProxy::new(vec!["com".to_string(), "example".to_string()], "Widget");
    assert_eq!(proxy.namespace, vec!["com", "example"]);
    assert_eq!(proxy.class_name, "Widget");
}
