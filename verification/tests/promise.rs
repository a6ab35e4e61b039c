use js_adapters::adapters::{JsPromiseAdapter, JsRealmAdapter, JsValueAdapter};
use js_adapters::errors::JsError;
use js_adapters::host_promise::HostPromise;
use js_adapters::host_realm::HostRealm;
use js_adapters::host_value::HostValue;
use std::cell::RefCell;
use std::rc::Rc;

type Log = Rc<RefCell<Vec<String>>>;

fn logging(log: &Log, label: &'static str) -> Option<Box<dyn Fn(&HostValue) -> Result<(), JsError>>> {
    let log = log.clone();
    Some(Box::new(move |value: &HostValue| {
        log.borrow_mut().push(format!("{}:{}", label, value.js_to_string()));
        Ok(())
    }))
}

#[test]
fn resolve_then_get_value_returns_the_resolution() {
    let mut realm = HostRealm::new();
    let mut promise = realm.js_promise_create().unwrap();
    promise.js_promise_resolve(&realm, &HostValue::I32(5)).unwrap();
    assert_eq!(promise.js_promise_get_value().js_to_i32(), 5);
}

#[test]
fn reject_then_get_value_returns_the_rejection() {
    let realm = HostRealm::new();
    let mut promise = HostPromise::new();
    promise.js_promise_reject(&realm, &HostValue::String("no".to_string())).unwrap();
    assert_eq!(promise.js_promise_get_value().js_to_string(), "no");
}

#[test]
fn settling_twice_fails() {
    let realm = HostRealm::new();
    let mut promise = HostPromise::new();
    promise.js_promise_resolve(&realm, &HostValue::I32(1)).unwrap();
    assert!(matches!(promise.js_promise_resolve(&realm, &HostValue::I32(2)), Err(JsError::InvalidState)));
    assert!(matches!(promise.js_promise_reject(&realm, &HostValue::I32(3)), Err(JsError::InvalidState)));
    assert_eq!(promise.js_promise_get_value().js_to_i32(), 1);
    let mut rejected = HostPromise::new();
    rejected.js_promise_reject(&realm, &HostValue::I32(4)).unwrap();
    assert!(matches!(rejected.js_promise_resolve(&realm, &HostValue::I32(5)), Err(JsError::InvalidState)));
    assert!(matches!(rejected.js_promise_reject(&realm, &HostValue::I32(6)), Err(JsError::InvalidState)));
    assert_eq!(rejected.js_promise_get_value().js_to_i32(), 4);
}

#[test]
fn a_rejection_reaches_catch_and_finally_once() {
    let realm = HostRealm::new();
    let log: Log = Rc::new(RefCell::new(Vec::new()));
    let mut promise = HostPromise::new();
    promise
        .js_promise_add_reactions(&realm, logging(&log, "then"), logging(&log, "catch"), logging(&log, "finally"))
        .unwrap();
    assert!(log.borrow().is_empty());
    promise.js_promise_reject(&realm, &HostValue::String("broken".to_string())).unwrap();
    assert_eq!(*log.borrow(), vec!["catch:broken", "finally:broken"]);
    assert!(promise.js_promise_reject(&realm, &HostValue::I32(1)).is_err());
    assert!(promise.js_promise_resolve(&realm, &HostValue::I32(1)).is_err());
    assert_eq!(*log.borrow(), vec!["catch:broken", "finally:broken"]);
}

#[test]
fn a_resolution_reaches_then_and_finally_once() {
    let realm = HostRealm::new();
    let log: Log = Rc::new(RefCell::new(Vec::new()));
    let mut promise = HostPromise::new();
    promise
        .js_promise_add_reactions(&realm, logging(&log, "then"), logging(&log, "catch"), logging(&log, "finally"))
        .unwrap();
    promise.js_promise_resolve(&realm, &HostValue::I32(9)).unwrap();
    assert_eq!(*log.borrow(), vec!["then:9", "finally:9"]);
    assert!(promise.js_promise_resolve(&realm, &HostValue::I32(10)).is_err());
    assert_eq!(*log.borrow(), vec!["then:9", "finally:9"]);
}

#[test]
fn a_reaction_registered_after_settlement_runs_at_once() {
    let realm = HostRealm::new();
    let log: Log = Rc::new(RefCell::new(Vec::new()));
    let mut promise = HostPromise::new();
    promise.js_promise_resolve(&realm, &HostValue::Boolean(true)).unwrap();
    promise.js_promise_add_reactions(&realm, logging(&log, "then"), logging(&log, "catch"), None).unwrap();
    assert_eq!(*log.borrow(), vec!["then:true"]);
    promise.js_promise_add_reactions(&realm, None, None, logging(&log, "finally")).unwrap();
    assert_eq!(*log.borrow(), vec!["then:true", "finally:true"]);
}

#[test]
fn reactions_of_several_registrations_run_in_order() {
    let realm = HostRealm::new();
    let log: Log = Rc::new(RefCell::new(Vec::new()));
    let mut promise = HostPromise::new();
    promise.js_promise_add_reactions(&realm, logging(&log, "first"), None, None).unwrap();
    promise.js_promise_add_reactions(&realm, logging(&log, "second"), None, logging(&log, "last")).unwrap();
    promise.js_promise_resolve(&realm, &HostValue::Null).unwrap();
    assert_eq!(*log.borrow(), vec!["first:null", "second:null", "last:null"]);
}

#[test]
fn a_failing_reaction_does_not_unsettle_the_promise() {
    let realm = HostRealm::new();
    let mut promise = HostPromise::new();
    let failing: Option<Box<dyn Fn(&HostValue) -> Result<(), JsError>>> =
        Some(Box::new(|_value: &HostValue| Err(JsError::InvalidState)));
    promise.js_promise_add_reactions(&realm, failing, None, None).unwrap();
    promise.js_promise_resolve(&realm, &HostValue::I32(3)).unwrap();
    assert_eq!(promise.js_promise_get_value().js_to_i32(), 3);
}

#[test]
fn a_promise_tells_whether_it_is_settled() {
    let realm = HostRealm::new();
    let mut promise = HostPromise::new();
    assert!(!promise.js_is_settled());
    promise.js_promise_add_reactions::<fn(&HostValue) -> Result<(), JsError>>(&realm, None, None, None).unwrap();
    assert!(!promise.js_is_settled());
    promise.js_promise_reject(&realm, &HostValue::Null).unwrap();
    assert!(promise.js_is_settled());
    let mut other = HostPromise::new();
    other.js_promise_resolve(&realm, &HostValue::Null).unwrap();
    assert!(other.js_is_settled());
}
