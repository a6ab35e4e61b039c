use js_adapters::adapters::{JsRealmAdapter, JsRuntimeAdapter, JsValueAdapter};
use js_adapters::errors::JsError;
use js_adapters::host_runtime::HostRuntime;
use js_adapters::host_value::HostValue;

#[test]
fn the_main_realm_is_always_there() {
    let mut runtime = HostRuntime::new("main");
    let main = runtime.js_get_main_realm();
    let global = main.js_get_namespace(&[]).unwrap();
    main.js_object_set_property(&global, "answer", &HostValue::I32(42)).unwrap();
    let again = runtime.js_get_main_realm();
    let global = again.js_get_namespace(&[]).unwrap();
    assert_eq!(again.js_object_get_property(&global, "answer").unwrap().js_to_i32(), 42);
    let by_id = runtime.js_get_realm("main").unwrap();
    let global = by_id.js_get_namespace(&[]).unwrap();
    assert_eq!(by_id.js_object_get_property(&global, "answer").unwrap().js_to_i32(), 42);
}

#[test]
fn a_realm_is_found_under_its_identifier() {
    let mut runtime = HostRuntime::new("main");
    assert!(runtime.js_get_realm("worker").is_none());
    {
        let worker = runtime.js_create_realm("worker").unwrap();
        let global = worker.js_get_namespace(&[]).unwrap();
        worker.js_object_set_property(&global, "role", &HostValue::String("w".to_string())).unwrap();
    }
    let worker = runtime.js_get_realm("worker").unwrap();
    let global = worker.js_get_namespace(&[]).unwrap();
    assert_eq!(worker.js_object_get_property(&global, "role").unwrap().js_to_string(), "w");
    let main = runtime.js_get_main_realm();
    let global = main.js_get_namespace(&[]).unwrap();
    assert!(main.js_object_get_properties(&global).unwrap().is_empty());
    assert!(runtime.js_get_realm("other").is_none());
}

#[test]
fn an_identifier_that_is_taken_is_refused() {
    let mut runtime = HostRuntime::new("main");
    assert!(runtime.js_create_realm("a").is_ok());
    assert!(matches!(
        runtime.js_create_realm("a"),
        Err(JsError::DuplicateRealm(ref id)) if id == "a"
    ));
    assert!(matches!(
        runtime.js_create_realm("main"),
        Err(JsError::DuplicateRealm(ref id)) if id == "main"
    ));
    assert!(runtime.js_create_realm("b").is_ok());
    assert!(runtime.js_get_realm("a").is_some());
    assert!(runtime.js_get_realm("b").is_some());
}

#[test]
fn a_new_realm_is_empty() {
    let mut runtime = HostRuntime::new("main");
    let realm = runtime.js_create_realm("fresh").unwrap();
    let global = realm.js_get_namespace(&[]).unwrap();
    assert!(realm.js_object_get_properties(&global).unwrap().is_empty());
    assert_eq!(realm.js_cache_add(HostValue::Null), 0);
}
