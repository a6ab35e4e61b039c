use js_adapters::adapters::{JsRealmAdapter, JsValueAdapter, JsValueFactory};
use js_adapters::errors::JsError;
use js_adapters::facades::{JsF64, JsValueFacade};
use js_adapters::host_realm::HostRealm;
use js_adapters::host_value::HostValue;
use js_adapters::proxies::{JsProxy, JsProxyHandle};
use js_adapters::script::Script;
use js_adapters::value_type::JsValueType;
use std::cell::Cell;
use std::rc::Rc;

fn number(x: f64) -> JsF64 {
    JsF64 { bits: x.to_bits() }
}

fn same_coercions(a: &HostValue, b: &HostValue) {
    assert_eq!(a.js_get_type(), b.js_get_type());
    assert_eq!(a.js_to_i32(), b.js_to_i32());
    assert_eq!(a.js_to_f64(), b.js_to_f64());
    assert_eq!(a.js_to_string(), b.js_to_string());
    assert_eq!(a.js_to_bool(), b.js_to_bool());
}

fn round_trip(realm: &HostRealm, first: HostValue) {
    let facade = realm.to_js_value_facade(&first).unwrap();
    assert_eq!(facade.js_get_type(), first.js_get_type());
    let back = realm.from_js_value_facade(&facade).unwrap();
    same_coercions(&first, &back);
}

#[test]
fn plain_values_round_trip_through_the_facade() {
    let realm = HostRealm::new();
    round_trip(&realm, realm.js_i32_create(0).unwrap());
    round_trip(&realm, realm.js_i32_create(-1).unwrap());
    round_trip(&realm, realm.js_i32_create(i32::MAX).unwrap());
    round_trip(&realm, realm.js_f64_create(number(3.14)).unwrap());
    round_trip(&realm, realm.js_f64_create(number(0.0)).unwrap());
    round_trip(&realm, realm.js_f64_create(number(f64::NAN)).unwrap());
    round_trip(&realm, realm.js_string_create("abc").unwrap());
    round_trip(&realm, realm.js_string_create("").unwrap());
    round_trip(&realm, realm.js_string_create("42").unwrap());
    round_trip(&realm, realm.js_boolean_create(true).unwrap());
    round_trip(&realm, realm.js_boolean_create(false).unwrap());
    round_trip(&realm, realm.js_null_create().unwrap());
    round_trip(&realm, realm.js_undefined_create().unwrap());
}

#[test]
fn to_facade_keeps_the_content() {
    let realm = HostRealm::new();
    let facade = realm.to_js_value_facade(&HostValue::I32(-7)).unwrap();
    assert!(matches!(facade, JsValueFacade::I32(-7)));
    let facade = realm.to_js_value_facade(&HostValue::F64(number(3.14))).unwrap();
    assert!(matches!(facade, JsValueFacade::F64(v) if v == number(3.14)));
    let facade = realm.to_js_value_facade(&HostValue::String("abc".to_string())).unwrap();
    assert!(matches!(facade, JsValueFacade::String(ref s) if s == "abc"));
    let facade = realm.to_js_value_facade(&HostValue::Boolean(true)).unwrap();
    assert!(matches!(facade, JsValueFacade::Boolean(true)));
    assert!(matches!(realm.to_js_value_facade(&HostValue::Null), Ok(JsValueFacade::Null)));
    assert!(matches!(
        realm.to_js_value_facade(&HostValue::Undefined),
        Ok(JsValueFacade::Undefined)
    ));
}

#[test]
fn from_facade_makes_the_value_of_the_same_category() {
    let realm = HostRealm::new();
    let made = realm.from_js_value_facade(&JsValueFacade::I32(21)).unwrap();
    assert!(matches!(made, HostValue::I32(21)));
    let made = realm.from_js_value_facade(&JsValueFacade::String("x".to_string())).unwrap();
    assert!(matches!(made, HostValue::String(ref s) if s == "x"));
    let made = realm.from_js_value_facade(&JsValueFacade::F64(number(2.5))).unwrap();
    assert!(matches!(made, HostValue::F64(v) if v == number(2.5)));
    let made = realm.from_js_value_facade(&JsValueFacade::Boolean(false)).unwrap();
    assert!(matches!(made, HostValue::Boolean(false)));
    assert!(matches!(realm.from_js_value_facade(&JsValueFacade::Null), Ok(HostValue::Null)));
    assert!(matches!(
        realm.from_js_value_facade(&JsValueFacade::Undefined),
        Ok(HostValue::Undefined)
    ));
}

#[test]
fn to_facade_has_no_conversion_for_objects() {
    let mut realm = HostRealm::new();
    let object = realm.js_object_create().unwrap();
    let array = realm.js_array_create().unwrap();
    let function = realm.js_function_create("f", |_context, _this, _args| Ok(HostValue::Null), 0).unwrap();
    assert!(matches!(
        realm.to_js_value_facade(&object),
        Err(JsError::NotImplemented(JsValueType::Object))
    ));
    assert!(matches!(
        realm.to_js_value_facade(&array),
        Err(JsError::NotImplemented(JsValueType::Array))
    ));
    assert!(matches!(
        realm.to_js_value_facade(&function),
        Err(JsError::NotImplemented(JsValueType::Function))
    ));
}

#[test]
fn null_or_undefined_goes_by_the_category() {
    let mut realm = HostRealm::new();
    let values = vec![
        realm.js_i32_create(0).unwrap(),
        realm.js_f64_create(number(0.0)).unwrap(),
        realm.js_string_create("").unwrap(),
        realm.js_boolean_create(false).unwrap(),
        realm.js_null_create().unwrap(),
        realm.js_undefined_create().unwrap(),
        realm.js_object_create().unwrap(),
        realm.js_array_create().unwrap(),
    ];
    for value in values.iter() {
        let kind = value.js_get_type();
        assert_eq!(
            value.js_is_null_or_undefined(),
            kind == JsValueType::Null || kind == JsValueType::Undefined
        );
    }
    assert!(realm.js_null_create().unwrap().js_is_null_or_undefined());
    assert!(realm.js_undefined_create().unwrap().js_is_null_or_undefined());
    assert!(!realm.js_i32_create(0).unwrap().js_is_null_or_undefined());
}

#[test]
fn type_of_is_coarser_than_the_category() {
    let mut realm = HostRealm::new();
    assert_eq!(realm.js_i32_create(1).unwrap().js_type_of(), "number");
    assert_eq!(realm.js_f64_create(number(1.5)).unwrap().js_type_of(), "number");
    assert_eq!(realm.js_string_create("s").unwrap().js_type_of(), "string");
    assert_eq!(realm.js_boolean_create(true).unwrap().js_type_of(), "boolean");
    assert_eq!(realm.js_undefined_create().unwrap().js_type_of(), "undefined");
    assert_eq!(realm.js_null_create().unwrap().js_type_of(), "object");
    assert_eq!(realm.js_object_create().unwrap().js_type_of(), "object");
    assert_eq!(realm.js_array_create().unwrap().js_type_of(), "object");
    let function = realm.js_function_create("f", |_context, _this, _args| Ok(HostValue::Null), 0).unwrap();
    assert_eq!(function.js_type_of(), "function");
    assert_eq!(JsValueType::BigInt.js_type_of(), "bigint");
    assert_eq!(JsValueType::Promise.js_type_of(), "object");
    assert_eq!(JsValueType::Date.js_type_of(), "object");
}

#[test]
fn coercions_of_plain_values() {
    assert_eq!(HostValue::I32(-1).js_to_i32(), -1);
    assert!(HostValue::I32(-1).js_to_bool());
    assert!(!HostValue::I32(0).js_to_bool());
    assert_eq!(HostValue::I32(-1).js_to_string(), "-1");
    assert_eq!(HostValue::I32(42).js_to_f64(), number(42.0));
    assert_eq!(HostValue::F64(number(3.14)).js_to_i32(), 3);
    assert!(HostValue::F64(number(3.14)).js_to_bool());
    assert!(!HostValue::F64(number(f64::NAN)).js_to_bool());
    assert_eq!(HostValue::F64(number(3.14)).js_to_f64(), number(3.14));
    assert_eq!(HostValue::F64(number(7.0)).js_to_string(), "7");
    assert_eq!(HostValue::String("abc".to_string()).js_to_string(), "abc");
    assert!(HostValue::String("abc".to_string()).js_to_bool());
    assert!(!HostValue::String(String::new()).js_to_bool());
    assert_eq!(HostValue::String("42".to_string()).js_to_i32(), 42);
    assert_eq!(HostValue::String("abc".to_string()).js_to_i32(), 0);
    assert_eq!(HostValue::String("42".to_string()).js_to_f64(), number(42.0));
    assert_eq!(HostValue::String("3.14".to_string()).js_to_i32(), 3);
    assert_eq!(HostValue::String("3.14".to_string()).js_to_f64(), number(3.14));
    assert_eq!(HostValue::String("-3.99".to_string()).js_to_i32(), -3);
    assert_eq!(HostValue::String(" 12 ".to_string()).js_to_i32(), 12);
    assert_eq!(HostValue::String("Infinity".to_string()).js_to_i32(), 0);
    assert_eq!(HostValue::String("Infinity".to_string()).js_to_f64(), number(f64::INFINITY));
    assert_eq!(HostValue::F64(number(f64::INFINITY)).js_to_string(), "Infinity");
    assert_eq!(HostValue::String(String::new()).js_to_f64(), number(0.0));
    assert!(f64::from_bits(HostValue::String("abc".to_string()).js_to_f64().bits).is_nan());
    assert_eq!(HostValue::Boolean(true).js_to_i32(), 1);
    assert_eq!(HostValue::Boolean(false).js_to_i32(), 0);
    assert_eq!(HostValue::Boolean(true).js_to_f64(), number(1.0));
    assert_eq!(HostValue::Boolean(true).js_to_string(), "true");
    assert_eq!(HostValue::Boolean(false).js_to_string(), "false");
    assert_eq!(HostValue::Null.js_to_i32(), 0);
    assert_eq!(HostValue::Null.js_to_f64(), number(0.0));
    assert_eq!(HostValue::Null.js_to_string(), "null");
    assert!(!HostValue::Null.js_to_bool());
    assert_eq!(HostValue::Undefined.js_to_i32(), 0);
    assert!(f64::from_bits(HostValue::Undefined.js_to_f64().bits).is_nan());
    assert_eq!(HostValue::Undefined.js_to_string(), "undefined");
    assert!(!HostValue::Undefined.js_to_bool());
}

#[test]
fn coercions_of_objects() {
    let mut realm = HostRealm::new();
    let object = realm.js_object_create().unwrap();
    let array = realm.js_array_create().unwrap();
    assert!(object.js_to_bool());
    assert!(array.js_to_bool());
    assert_eq!(object.js_to_i32(), 0);
    assert!(f64::from_bits(object.js_to_f64().bits).is_nan());
    assert_eq!(object.js_to_string(), "[object Object]");
    assert_eq!(array.js_to_string(), "[object Array]");
}

#[test]
fn cache_lends_the_same_value_until_it_is_consumed() {
    let mut realm = HostRealm::new();
    let id = realm.js_cache_add(HostValue::String("kept".to_string()));
    for _ in 0..3 {
        let seen = realm.js_cache_with(id, |value| value.js_to_string());
        assert_eq!(seen, "kept");
    }
    let other = realm.js_cache_add(HostValue::I32(5));
    assert_ne!(id, other);
    assert_eq!(realm.js_cache_with(other, |value| value.js_to_i32()), 5);
    assert_eq!(realm.js_cache_with(id, |value| value.js_to_string()), "kept");
    let owned = realm.js_cache_consume(id);
    assert!(matches!(owned, HostValue::String(ref s) if s == "kept"));
    assert_eq!(realm.js_cache_with(other, |value| value.js_to_i32()), 5);
    realm.js_cache_dispose(other);
    let next = realm.js_cache_add(HostValue::Null);
    assert_ne!(next, id);
    assert_ne!(next, other);
}

#[test]
fn properties_keep_their_insertion_order() {
    let mut realm = HostRealm::new();
    let object = realm.js_object_create().unwrap();
    realm.js_object_set_property(&object, "b", &HostValue::I32(1)).unwrap();
    realm.js_object_set_property(&object, "a", &HostValue::I32(2)).unwrap();
    realm.js_object_set_property(&object, "c", &HostValue::I32(3)).unwrap();
    realm.js_object_set_property(&object, "a", &HostValue::I32(4)).unwrap();
    assert_eq!(realm.js_object_get_properties(&object).unwrap(), vec!["b", "a", "c"]);
    assert_eq!(realm.js_object_get_property(&object, "a").unwrap().js_to_i32(), 4);
    realm.js_object_delete_property(&object, "b").unwrap();
    assert_eq!(realm.js_object_get_properties(&object).unwrap(), vec!["a", "c"]);
    realm.js_object_delete_property(&object, "missing").unwrap();
    assert_eq!(realm.js_object_get_properties(&object).unwrap(), vec!["a", "c"]);
}

#[test]
fn a_missing_property_reads_as_undefined() {
    let mut realm = HostRealm::new();
    let object = realm.js_object_create().unwrap();
    let read = realm.js_object_get_property(&object, "nothing").unwrap();
    assert_eq!(read.js_get_type(), JsValueType::Undefined);
    let read = realm.js_object_get_property(&HostValue::I32(1), "nothing").unwrap();
    assert_eq!(read.js_get_type(), JsValueType::Undefined);
}

#[test]
fn what_is_no_object_takes_no_property() {
    let mut realm = HostRealm::new();
    let set = realm.js_object_set_property(&HostValue::I32(1), "a", &HostValue::Null);
    assert!(matches!(set, Err(JsError::PropertyNotFound(ref name)) if name == "a"));
    let deleted = realm.js_object_delete_property(&HostValue::Null, "a");
    assert!(matches!(deleted, Err(JsError::PropertyNotFound(ref name)) if name == "a"));
    let foreign = realm.js_object_set_property(&HostValue::Object(99), "a", &HostValue::Null);
    assert!(matches!(foreign, Err(JsError::PropertyNotFound(_))));
}

#[test]
fn object_traverse_visits_every_property_once_in_order() {
    let mut realm = HostRealm::new();
    let object = realm.js_object_create().unwrap();
    realm.js_object_set_property(&object, "x", &HostValue::I32(10)).unwrap();
    realm.js_object_set_property(&object, "y", &HostValue::I32(20)).unwrap();
    realm.js_object_set_property(&object, "z", &HostValue::I32(30)).unwrap();
    let calls = Rc::new(Cell::new(0));
    let counter = calls.clone();
    let seen = realm
        .js_object_traverse(&object, move |name, value| {
            counter.set(counter.get() + 1);
            Ok(format!("{}={}", name, value.js_to_i32()))
        })
        .unwrap();
    assert_eq!(seen, vec!["x=10", "y=20", "z=30"]);
    assert_eq!(calls.get(), 3);
    let empty = realm.js_object_create().unwrap();
    let none: Vec<i32> = realm.js_object_traverse(&empty, |_name, _value| Ok(1)).unwrap();
    assert!(none.is_empty());
}

#[test]
fn object_traverse_stops_at_the_first_failure() {
    let mut realm = HostRealm::new();
    let object = realm.js_object_create().unwrap();
    realm.js_object_set_property(&object, "x", &HostValue::I32(10)).unwrap();
    realm.js_object_set_property(&object, "y", &HostValue::I32(20)).unwrap();
    realm.js_object_set_property(&object, "z", &HostValue::I32(30)).unwrap();
    let calls = Rc::new(Cell::new(0));
    let counter = calls.clone();
    let outcome: Result<Vec<i32>, JsError> = realm.js_object_traverse(&object, move |name, value| {
        counter.set(counter.get() + 1);
        if name == "y" {
            Err(JsError::ScriptError("refused".to_string()))
        } else {
            Ok(value.js_to_i32())
        }
    });
    assert!(matches!(outcome, Err(JsError::ScriptError(ref text)) if text == "refused"));
    assert_eq!(calls.get(), 2);
}

#[test]
fn array_elements_and_length() {
    let mut realm = HostRealm::new();
    let array = realm.js_array_create().unwrap();
    assert_eq!(realm.js_array_get_length(&array).unwrap(), 0);
    realm.js_array_set_element(&array, 0, HostValue::I32(7)).unwrap();
    realm.js_array_set_element(&array, 1, HostValue::I32(8)).unwrap();
    assert_eq!(realm.js_array_get_length(&array).unwrap(), 2);
    realm.js_array_set_element(&array, 4, HostValue::I32(9)).unwrap();
    assert_eq!(realm.js_array_get_length(&array).unwrap(), 5);
    assert_eq!(realm.js_array_get_element(&array, 0).unwrap().js_to_i32(), 7);
    assert_eq!(realm.js_array_get_element(&array, 2).unwrap().js_get_type(), JsValueType::Undefined);
    assert_eq!(realm.js_array_get_element(&array, 3).unwrap().js_get_type(), JsValueType::Undefined);
    assert_eq!(realm.js_array_get_element(&array, 4).unwrap().js_to_i32(), 9);
    assert_eq!(realm.js_array_get_element(&array, 5).unwrap().js_get_type(), JsValueType::Undefined);
    realm.js_array_set_element(&array, 1, HostValue::I32(80)).unwrap();
    assert_eq!(realm.js_array_get_element(&array, 1).unwrap().js_to_i32(), 80);
    assert_eq!(realm.js_array_get_length(&array).unwrap(), 5);
}

#[test]
fn what_is_no_array_has_no_elements() {
    let mut realm = HostRealm::new();
    let object = realm.js_object_create().unwrap();
    assert!(matches!(realm.js_array_get_length(&object), Err(JsError::PropertyNotFound(_))));
    assert!(matches!(realm.js_array_get_element(&object, 0), Err(JsError::PropertyNotFound(_))));
    assert!(matches!(
        realm.js_array_set_element(&HostValue::I32(3), 0, HostValue::Null),
        Err(JsError::PropertyNotFound(_))
    ));
}

#[test]
fn array_traverse_visits_every_element_once_in_ascending_order() {
    let mut realm = HostRealm::new();
    let array = realm.js_array_create().unwrap();
    for (index, value) in [5, 6, 7].iter().enumerate() {
        realm.js_array_set_element(&array, index as u32, HostValue::I32(*value)).unwrap();
    }
    let seen = realm
        .js_array_traverse(&array, |index, value| Ok((index, value.js_to_i32())))
        .unwrap();
    assert_eq!(seen, vec![(0, 5), (1, 6), (2, 7)]);
}

#[test]
fn array_traverse_stops_at_the_first_failure() {
    let mut realm = HostRealm::new();
    let array = realm.js_array_create().unwrap();
    for index in 0..4u32 {
        realm.js_array_set_element(&array, index, HostValue::I32(index as i32)).unwrap();
    }
    let calls = Rc::new(Cell::new(0));
    let counter = calls.clone();
    let outcome: Result<Vec<u32>, JsError> = realm.js_array_traverse(&array, move |index, _value| {
        counter.set(counter.get() + 1);
        if index == 1 {
            Err(JsError::InvalidState)
        } else {
            Ok(index)
        }
    });
    assert!(matches!(outcome, Err(JsError::InvalidState)));
    assert_eq!(calls.get(), 2);
}

#[test]
fn instance_of_follows_the_prototype_chain() {
    let mut realm = HostRealm::new();
    let base = realm.js_function_create("Base", |_context, _this, _args| Ok(HostValue::Undefined), 0).unwrap();
    let base_prototype = realm.js_object_create().unwrap();
    realm.js_object_set_property(&base, "prototype", &base_prototype).unwrap();
    let derived =
        realm.js_function_create("Derived", |_context, _this, _args| Ok(HostValue::Undefined), 0).unwrap();
    let derived_prototype = realm.js_object_construct(&base, &[]).unwrap();
    realm.js_object_set_property(&derived, "prototype", &derived_prototype).unwrap();
    let other = realm.js_function_create("Other", |_context, _this, _args| Ok(HostValue::Undefined), 0).unwrap();
    let other_prototype = realm.js_object_create().unwrap();
    realm.js_object_set_property(&other, "prototype", &other_prototype).unwrap();

    let instance = realm.js_object_construct(&derived, &[]).unwrap();
    assert!(realm.js_instance_of(&instance, &derived));
    assert!(realm.js_instance_of(&instance, &base));
    assert!(!realm.js_instance_of(&instance, &other));
    assert!(realm.js_instance_of(&derived_prototype, &base));
    assert!(!realm.js_instance_of(&derived_prototype, &derived));
    assert!(!realm.js_instance_of(&base_prototype, &base));
    let plain = realm.js_object_create().unwrap();
    assert!(!realm.js_instance_of(&plain, &base));
    assert!(!realm.js_instance_of(&HostValue::I32(1), &base));
    assert!(!realm.js_instance_of(&instance, &plain));
}

#[test]
fn construct_needs_a_function() {
    let mut realm = HostRealm::new();
    let plain = realm.js_object_create().unwrap();
    assert!(matches!(realm.js_object_construct(&plain, &[]), Err(JsError::InvocationError(_))));
    let failing = realm
        .js_function_create("F", |_context, _this, _args| Err(JsError::InvalidState), 0)
        .unwrap();
    let outcome = realm.js_object_construct(&failing, &[]);
    assert!(matches!(
        outcome,
        Err(JsError::InvocationError(JsValueFacade::String(ref text))) if text == "InvalidState"
    ));
}

#[test]
fn an_installed_closure_is_called_by_name() {
    let mut realm = HostRealm::new();
    realm
        .js_install_closure(
            &["math"],
            "double",
            |context, _this, args| context.js_i32_create(2 * args[0].js_to_i32()),
            1,
        )
        .unwrap();
    let result = realm.js_function_invoke_by_name(&["math"], "double", &[HostValue::I32(21)]).unwrap();
    assert_eq!(result.js_to_i32(), 42);
}

#[test]
fn a_namespace_under_a_plain_value_is_not_found() {
    let mut realm = HostRealm::new();
    let global = realm.js_get_namespace(&[]).unwrap();
    realm.js_object_set_property(&global, "a", &HostValue::I32(1)).unwrap();
    let outcome = realm.js_get_namespace(&["a", "b"]);
    assert!(matches!(outcome, Err(JsError::PropertyNotFound(ref name)) if name == "a"));
    let outcome = realm.js_get_namespace(&["a"]);
    assert!(matches!(outcome, Err(JsError::PropertyNotFound(ref name)) if name == "a"));
    let outcome = realm.js_get_namespace(&["missing"]);
    assert!(matches!(outcome, Err(JsError::PropertyNotFound(ref name)) if name == "missing"));
}

#[test]
fn installing_makes_the_missing_namespaces() {
    let mut realm = HostRealm::new();
    assert!(realm.js_get_namespace(&["com", "example", "tools"]).is_err());
    realm
        .js_install_function(&["com", "example", "tools"], "seven", |_context, _this, _args| Ok(HostValue::I32(7)), 0)
        .unwrap();
    let tools = realm.js_get_namespace(&["com", "example", "tools"]).unwrap();
    assert_eq!(tools.js_get_type(), JsValueType::Object);
    assert_eq!(realm.js_object_get_properties(&tools).unwrap(), vec!["seven"]);
    let seven = realm.js_object_get_property(&tools, "seven").unwrap();
    assert_eq!(seven.js_get_type(), JsValueType::Function);
    let example = realm.js_get_namespace(&["com", "example"]).unwrap();
    assert_eq!(realm.js_object_get_properties(&example).unwrap(), vec!["tools"]);
    realm
        .js_install_function(&["com", "example"], "eight", |_context, _this, _args| Ok(HostValue::I32(8)), 0)
        .unwrap();
    assert_eq!(realm.js_object_get_properties(&example).unwrap(), vec!["tools", "eight"]);
    assert_eq!(
        realm.js_function_invoke_by_name(&["com", "example", "tools"], "seven", &[]).unwrap().js_to_i32(),
        7
    );
    assert_eq!(
        realm.js_function_invoke_by_name(&["com", "example"], "eight", &[]).unwrap().js_to_i32(),
        8
    );
    realm.js_install_function(&[], "top", |_context, _this, _args| Ok(HostValue::I32(1)), 0).unwrap();
    assert_eq!(realm.js_function_invoke_by_name(&[], "top", &[]).unwrap().js_to_i32(), 1);
}

#[test]
fn installing_under_a_plain_value_changes_nothing() {
    let mut realm = HostRealm::new();
    let global = realm.js_get_namespace(&[]).unwrap();
    realm.js_object_set_property(&global, "a", &HostValue::I32(1)).unwrap();
    let outcome =
        realm.js_install_function(&["a", "b"], "f", |_context, _this, _args| Ok(HostValue::Null), 0);
    assert!(matches!(outcome, Err(JsError::PropertyNotFound(ref name)) if name == "a"));
    assert_eq!(realm.js_object_get_properties(&global).unwrap(), vec!["a"]);
    assert_eq!(realm.js_object_get_property(&global, "a").unwrap().js_to_i32(), 1);
}

#[test]
fn invoke_passes_this_and_the_arguments() {
    let mut realm = HostRealm::new();
    let function = realm
        .js_function_create(
            "sum",
            |_context, this, args| {
                let mut total = this.js_to_i32();
                for arg in args {
                    total += arg.js_to_i32();
                }
                Ok(HostValue::I32(total))
            },
            2,
        )
        .unwrap();
    let this = HostValue::I32(100);
    let result = realm
        .js_function_invoke(Some(&this), &function, &[HostValue::I32(1), HostValue::I32(2)])
        .unwrap();
    assert_eq!(result.js_to_i32(), 103);
    let result = realm.js_function_invoke(None, &function, &[HostValue::I32(1)]).unwrap();
    assert_eq!(result.js_to_i32(), 1);
}

#[test]
fn invoke_member_by_name_calls_the_property() {
    let mut realm = HostRealm::new();
    let object = realm.js_object_create().unwrap();
    let function = realm
        .js_function_create("kind", |_context, this, _args| Ok(HostValue::String(this.js_type_of().to_string())), 0)
        .unwrap();
    realm.js_object_set_property(&object, "kind", &function).unwrap();
    let result = realm.js_function_invoke_member_by_name(&object, "kind", &[]).unwrap();
    assert_eq!(result.js_to_string(), "object");
}

#[test]
fn a_failing_function_comes_back_as_an_invocation_error() {
    let mut realm = HostRealm::new();
    let thrower = realm
        .js_function_create(
            "thrower",
            |_context, _this, _args| Err(JsError::InvocationError(JsValueFacade::I32(13))),
            0,
        )
        .unwrap();
    let outcome = realm.js_function_invoke(None, &thrower, &[]);
    assert!(matches!(outcome, Err(JsError::InvocationError(JsValueFacade::I32(13)))));
    let failing = realm
        .js_function_create("failing", |_context, _this, _args| Err(JsError::ScriptError("bad".to_string())), 0)
        .unwrap();
    let outcome = realm.js_function_invoke(None, &failing, &[]);
    assert!(matches!(
        outcome,
        Err(JsError::InvocationError(JsValueFacade::String(ref text))) if text == "bad"
    ));
}

#[test]
fn what_is_no_function_cannot_be_called() {
    let mut realm = HostRealm::new();
    let object = realm.js_object_create().unwrap();
    assert!(matches!(
        realm.js_function_invoke(None, &object, &[]),
        Err(JsError::InvocationError(_))
    ));
    assert!(matches!(
        realm.js_function_invoke_member_by_name(&object, "missing", &[]),
        Err(JsError::InvocationError(_))
    ));
    assert!(matches!(
        realm.js_function_invoke_by_name(&["nowhere"], "f", &[]),
        Err(JsError::PropertyNotFound(_))
    ));
}

#[test]
fn the_host_realm_runs_no_scripts() {
    let mut realm = HostRealm::new();
    let outcome = realm.js_eval(Script::new("test.js", "1 + 1"));
    assert!(matches!(outcome, Err(JsError::ScriptError(ref path)) if path == "test.js"));
    let outcome = realm.js_eval_module(Script::new("test.mjs", "export const a = 1;"));
    assert!(matches!(outcome, Err(JsError::ScriptError(ref path)) if path == "test.mjs"));
}

#[test]
fn a_host_class_must_be_installed_before_it_is_instantiated() {
    let mut realm = HostRealm::new();
    let missing = realm.js_proxy_instantiate(&["com", "example"], "Widget", &[]);
    assert!(matches!(missing, Err(JsError::PropertyNotFound(ref name)) if name == "Widget"));
    realm.js_proxy_install(JsProxy::new(
        vec!["com".to_string(), "example".to_string()],
        "Widget",
    ));
    let instance = realm.js_proxy_instantiate(&["com", "example"], "Widget", &[]).unwrap();
    assert_eq!(instance.js_get_type(), JsValueType::Object);
    assert!(realm.js_proxy_instantiate(&["com"], "Widget", &[]).is_err());
    assert!(realm.js_proxy_instantiate(&["com", "example"], "Gadget", &[]).is_err());
    realm.js_proxy_invoke_event(&JsProxyHandle { id: 0 }, "changed", &HostValue::I32(1));
    assert!(realm.js_proxy_instantiate(&["com", "example"], "Widget", &[]).is_ok());
}

#[test]
fn the_cache_tells_what_it_holds() {
    let mut realm = HostRealm::new();
    assert!(realm.js_cache_has_room());
    assert!(!realm.js_cache_holds(0));
    assert!(!realm.js_cache_holds(-1));
    let first = realm.js_cache_add(HostValue::I32(1));
    let second = realm.js_cache_add(HostValue::I32(2));
    assert!(realm.js_cache_holds(first));
    assert!(realm.js_cache_holds(second));
    assert!(!realm.js_cache_holds(second + 1));
    realm.js_cache_consume(first);
    assert!(!realm.js_cache_holds(first));
    assert!(realm.js_cache_holds(second));
    realm.js_cache_dispose(second);
    assert!(!realm.js_cache_holds(second));
    let third = realm.js_cache_add(HostValue::I32(3));
    assert!(realm.js_cache_holds(third));
    assert!(!realm.js_cache_holds(first));
}

#[test]
fn from_facade_has_no_conversion_for_objects() {
    let realm = HostRealm::new();
    let cases = [
        (JsValueFacade::Object, JsValueType::Object),
        (JsValueFacade::Function, JsValueType::Function),
        (JsValueFacade::BigInt, JsValueType::BigInt),
        (JsValueFacade::Promise, JsValueType::Promise),
        (JsValueFacade::Date, JsValueType::Date),
        (JsValueFacade::Array, JsValueType::Array),
    ];
    for (facade, kind) in cases {
        assert_eq!(facade.js_get_type(), kind);
        assert!(matches!(
            realm.from_js_value_facade(&facade),
            Err(JsError::NotImplemented(refused)) if refused == kind
        ));
    }
}

#[test]
fn a_number_keeps_its_text_through_the_facade() {
    let realm = HostRealm::new();
    let made = realm.js_f64_create(number(3.14)).unwrap();
    let facade = realm.to_js_value_facade(&made).unwrap();
    let back = realm.from_js_value_facade(&facade).unwrap();
    assert_eq!(back.js_to_f64(), number(3.14));
    assert_eq!(back.js_to_i32(), 3);
    assert_eq!(back.js_to_string(), "3.14");
    assert!(back.js_to_bool());
}

#[test]
fn a_host_function_makes_its_value_with_the_context() {
    let mut realm = HostRealm::new();
    realm
        .js_install_closure(
            &["text"],
            "describe",
            |context, this, args| {
                let described = format!("{}:{}", this.js_type_of(), args.len());
                context.from_js_value_facade(&JsValueFacade::String(described))
            },
            0,
        )
        .unwrap();
    let result = realm
        .js_function_invoke_by_name(&["text"], "describe", &[HostValue::Null, HostValue::Null])
        .unwrap();
    assert_eq!(result.js_to_string(), "object:2");
}
