//! The capabilities that an engine must offer: a value, a promise, a realm
//! and a runtime, each as a trait with its contract.
//!
//! The traits refer to each other in one direction only: a promise knows its
//! values, a realm its values and promises, a runtime its realms. A promise
//! names the type of its realms without asking anything of it, and a host
//! function is handed a context that makes values, not the realm that
//! keeps the function.

use vstd::prelude::*;
use crate::errors::JsError;
use crate::facades::{JsF64, JsFacadeModel, JsPlainValue, JsValueFacade};
use crate::model::{
    element_value, grows, lemma_distinct_position, property_names, property_value, with_element,
    with_property, without_property, JsRealmModel, JsValueModel,
};
use crate::proxies::{names_view, JsProxy, JsProxyHandle};
use crate::script::Script;
use crate::value_type::{typeof_name, JsValueType};

verus! {

/// An engine-confined value. All its operations are queries.
///
/// The coercions of an engine are functions of the value alone. Where the
/// language leaves no choice they are fixed here; for the rest an engine
/// states its own table in `bool_of`, `i32_of`, `f64_of` and `string_of`.
pub trait JsValueAdapter: Sized {
    /// What the value is.
    spec fn model(&self) -> JsValueModel;

    /// The truth value that the engine gives a value.
    spec fn bool_of(value: JsValueModel) -> bool;

    /// The 32-bit integer that the engine gives a value.
    spec fn i32_of(value: JsValueModel) -> i32;

    /// The number that the engine gives a value, by its bit pattern.
    spec fn f64_of(value: JsValueModel) -> u64;

    /// The text that the engine gives a value.
    spec fn string_of(value: JsValueModel) -> Seq<char>;

    /// A value of a plain category coerces to its own category without
    /// loss, and truthiness is that of the language.
    proof fn coercion_table(value: JsValueModel)
        ensures
            value matches JsValueModel::Plain(JsPlainValue::I32(v)) ==> Self::i32_of(value) == v
                && Self::bool_of(value) == (v != 0),
            value matches JsValueModel::Plain(JsPlainValue::F64(bits)) ==> Self::f64_of(value)
                == bits,
            value matches JsValueModel::Plain(JsPlainValue::String(text)) ==> Self::string_of(
                value,
            ) == text && Self::bool_of(value) == (text.len() > 0),
            value matches JsValueModel::Plain(JsPlainValue::Boolean(b)) ==> Self::bool_of(value)
                == b && Self::i32_of(value) == (if b {
                1i32
            } else {
                0i32
            }),
            value == JsValueModel::null() || value == JsValueModel::undefined() ==> !Self::bool_of(
                value,
            ) && Self::i32_of(value) == 0,
            value.kind().is_reference() ==> Self::bool_of(value),
    ;

    /// The category of the value.
    fn js_get_type(&self) -> (kind: JsValueType)
        ensures
            kind == self.model().kind(),
    ;

    /// Whether the value is `null` or `undefined`.
    fn js_is_null_or_undefined(&self) -> (b: bool)
        ensures
            b <==> self.model().kind() == JsValueType::Null || self.model().kind()
                == JsValueType::Undefined,
    {
        let kind = self.js_get_type();
        kind == JsValueType::Null || kind == JsValueType::Undefined
    }

    /// The `typeof` string of the value.
    fn js_type_of(&self) -> (name: &'static str)
        ensures
            name@ == typeof_name(self.model().kind()),
    ;

    /// The value as a truth value.
    fn js_to_bool(&self) -> (b: bool)
        ensures
            b == Self::bool_of(self.model()),
    ;

    /// The value as a 32-bit integer.
    fn js_to_i32(&self) -> (v: i32)
        ensures
            v == Self::i32_of(self.model()),
    ;

    /// The value as a number.
    fn js_to_f64(&self) -> (v: JsF64)
        ensures
            v.bits == Self::f64_of(self.model()),
    ;

    /// The value as text.
    fn js_to_string(&self) -> (text: String)
        ensures
            text@ == Self::string_of(self.model()),
    ;
}

/// What a promise is: pending, or settled for good with a value.
pub enum JsPromiseState {
    Pending,
    Resolved(JsValueModel),
    Rejected(JsValueModel),
}

impl JsPromiseState {
    /// The value that a settled promise holds.
    pub open spec fn value(self) -> JsValueModel {
        match self {
            JsPromiseState::Pending => JsValueModel::undefined(),
            JsPromiseState::Resolved(value) => value,
            JsPromiseState::Rejected(value) => value,
        }
    }
}

/// What an attempt to settle a promise with `outcome` does: a promise that
/// is settled stays as it is and the attempt fails with `InvalidState`; an
/// attempt that succeeds leaves the promise with the outcome, and one that
/// fails leaves it as it was.
pub open spec fn settled_by(
    before: JsPromiseState,
    outcome: JsPromiseState,
    after: JsPromiseState,
    r: Result<(), JsError>,
) -> bool {
    &&& !(before is Pending) ==> r is Err && r->Err_0 is InvalidState
    &&& r is Ok ==> after == outcome
    &&& r is Err ==> after == before
}

/// A promise is settled once: after an attempt that succeeded it holds that
/// outcome, and any further attempt fails with `InvalidState` and changes
/// nothing.
pub proof fn lemma_settled_once(
    start: JsPromiseState,
    first: JsPromiseState,
    middle: JsPromiseState,
    first_result: Result<(), JsError>,
    second: JsPromiseState,
    end: JsPromiseState,
    second_result: Result<(), JsError>,
)
    requires
        !(first is Pending),
        settled_by(start, first, middle, first_result),
        first_result is Ok,
        settled_by(middle, second, end, second_result),
    ensures
        middle == first,
        middle.value() == first.value(),
        second_result is Err,
        second_result->Err_0 is InvalidState,
        end == first,
{
}

/// An engine promise. It is settled at most once.
pub trait JsPromiseAdapter: Sized {
    type JsValueAdapterType: JsValueAdapter;

    /// The realms that such a promise lives in.
    type JsRealmAdapterType;

    spec fn state(&self) -> JsPromiseState;

    /// What the engine keeps true of the promise between calls.
    spec fn inv(&self) -> bool;

    /// Settles a pending promise with `resolution`. A settled promise stays
    /// as it is and the call fails with `InvalidState`.
    fn js_promise_resolve(
        &mut self,
        context: &Self::JsRealmAdapterType,
        resolution: &Self::JsValueAdapterType,
    ) -> (r: Result<(), JsError>)
        requires
            old(self).inv(),
        ensures
            final(self).inv(),
            settled_by(
                old(self).state(),
                JsPromiseState::Resolved(resolution.model()),
                final(self).state(),
                r,
            ),
    ;

    /// Settles a pending promise as rejected with `rejection`. A settled
    /// promise stays as it is and the call fails with `InvalidState`.
    fn js_promise_reject(
        &mut self,
        context: &Self::JsRealmAdapterType,
        rejection: &Self::JsValueAdapterType,
    ) -> (r: Result<(), JsError>)
        requires
            old(self).inv(),
        ensures
            final(self).inv(),
            settled_by(
                old(self).state(),
                JsPromiseState::Rejected(rejection.model()),
                final(self).state(),
                r,
            ),
    ;

    /// Registers reactions. They never settle the promise.
    fn js_promise_add_reactions<F>(
        &mut self,
        context: &Self::JsRealmAdapterType,
        then: Option<F>,
        catch: Option<F>,
        finally: Option<F>,
    ) -> (r: Result<(), JsError>) where
        F: Fn(&Self::JsValueAdapterType) -> Result<(), JsError> + 'static,

        requires
            old(self).inv(),
            then matches Some(f) ==> forall|v: &Self::JsValueAdapterType| call_requires(f, (v,)),
            catch matches Some(f) ==> forall|v: &Self::JsValueAdapterType| call_requires(f, (v,)),
            finally matches Some(f) ==> forall|v: &Self::JsValueAdapterType|
                call_requires(f, (v,)),
        ensures
            final(self).inv(),
            final(self).state() == old(self).state(),
    ;

    /// The value that the promise was settled with.
    fn js_promise_get_value(&self) -> (value: Self::JsValueAdapterType)
        requires
            self.inv(),
            !(self.state() is Pending),
        ensures
            value.model() == self.state().value(),
    ;
}

/// A path of names, as mathematics.
pub open spec fn path_view(path: &[&str]) -> Seq<Seq<char>> {
    Seq::new(path@.len(), |i: int| path@[i]@)
}

/// The visitor, applied to the property `name` holding `value`, may return
/// `outcome`.
pub open spec fn property_visited<V: JsValueAdapter, R, F: Fn(&str, &V) -> Result<R, JsError>>(
    visitor: F,
    name: Seq<char>,
    value: JsValueModel,
    outcome: Result<R, JsError>,
) -> bool {
    exists|k: &str, v: &V|
        k@ == name && v.model() == value && #[trigger] call_ensures(visitor, (k, v), outcome)
}

/// The visitor, applied to the element `value` at `index`, may return
/// `outcome`.
pub open spec fn element_visited<V: JsValueAdapter, R, F: Fn(u32, &V) -> Result<R, JsError>>(
    visitor: F,
    index: u32,
    value: JsValueModel,
    outcome: Result<R, JsError>,
) -> bool {
    exists|v: &V| v.model() == value && #[trigger] call_ensures(visitor, (index, v), outcome)
}

/// The visitor returned `results`, in this order, for the first properties
/// of `properties`.
pub open spec fn properties_visited<V: JsValueAdapter, R, F: Fn(&str, &V) -> Result<R, JsError>>(
    visitor: F,
    properties: crate::model::JsProperties,
    results: Seq<R>,
) -> bool {
    &&& results.len() <= properties.len()
    &&& forall|j: int|
        0 <= j < results.len() ==> property_visited(
            visitor,
            properties[j].0,
            properties[j].1,
            Ok::<R, JsError>(#[trigger] results[j]),
        )
}

/// The visitor returned `results`, in this order, for the first elements of
/// `elements`.
pub open spec fn elements_visited<V: JsValueAdapter, R, F: Fn(u32, &V) -> Result<R, JsError>>(
    visitor: F,
    elements: Seq<JsValueModel>,
    results: Seq<R>,
) -> bool {
    &&& results.len() <= elements.len()
    &&& forall|j: int|
        0 <= j < results.len() ==> element_visited(
            visitor,
            j as u32,
            elements[j],
            Ok::<R, JsError>(#[trigger] results[j]),
        )
}

/// A walk over `properties` ends with `e` after the visitor returned
/// `accepted` for the properties before: either `read`, which reads a
/// property of `object` by its name, failed on the next property or the
/// visitor refused it.
pub open spec fn property_walk_failed<
    A,
    V: JsValueAdapter,
    R,
    G: Fn(&A, &V, &str) -> Result<V, JsError>,
    F: Fn(&str, &V) -> Result<R, JsError>,
>(
    read: G,
    realm: &A,
    object: &V,
    properties: crate::model::JsProperties,
    visitor: F,
    accepted: Seq<R>,
    e: JsError,
) -> bool {
    let n = accepted.len() as int;
    &&& n < properties.len()
    &&& properties_visited(visitor, properties, accepted)
    &&& ((exists|k: &str|
        k@ == properties[n].0 && #[trigger] call_ensures(
            read,
            (realm, object, k),
            Err::<V, JsError>(e),
        )) || property_visited(
        visitor,
        properties[n].0,
        properties[n].1,
        Err::<R, JsError>(e),
    ))
}

/// A walk over `elements` ends with `e` after the visitor returned
/// `accepted` for the elements before: either `read`, which reads an
/// element of `array` by its index, failed on the next element or the
/// visitor refused it.
pub open spec fn element_walk_failed<
    A,
    V: JsValueAdapter,
    R,
    G: Fn(&A, &V, u32) -> Result<V, JsError>,
    F: Fn(u32, &V) -> Result<R, JsError>,
>(
    read: G,
    realm: &A,
    array: &V,
    elements: Seq<JsValueModel>,
    visitor: F,
    accepted: Seq<R>,
    e: JsError,
) -> bool {
    let n = accepted.len() as int;
    &&& n < elements.len()
    &&& elements_visited(visitor, elements, accepted)
    &&& (call_ensures(read, (realm, array, n as u32), Err::<V, JsError>(e)) || element_visited(
        visitor,
        n as u32,
        elements[n],
        Err::<R, JsError>(e),
    ))
}

/// `after` is `before` with a new function as the property `name` of the
/// namespace at `path`. Where the namespace was there, nothing else has
/// changed; where it was not, it was made, with every namespace on the way
/// that was missing, and what the realm held before is all there still.
pub open spec fn installed(
    before: JsRealmModel,
    after: JsRealmModel,
    path: Seq<Seq<char>>,
    name: Seq<char>,
) -> bool {
    match before.namespace(path) {
        Some(target) => exists|function: int|
            !before.objects.contains_key(function) && #[trigger] after.objects.contains_key(
                function,
            ) && after == before.with_function(function, after.objects[function], target, name),
        None => grows(before, after) && after.namespace(path) is Some && property_value(
            after.properties(after.namespace(path).unwrap()),
            name,
        ) is Function,
    }
}

/// `after` is `before` with one more object, `id`, which has no properties
/// and no elements yet.
pub open spec fn allocated(before: JsRealmModel, after: JsRealmModel, id: int) -> bool {
    &&& !before.objects.contains_key(id)
    &&& after.objects.contains_key(id)
    &&& after.objects[id].properties.len() == 0
    &&& after.objects[id].elements.len() == 0
    &&& after == before.with_object(id, after.objects[id])
}

/// What makes plain values of an engine. A realm does, and so does the
/// context that a realm hands to the host functions it calls.
pub trait JsValueFactory: Sized {
    type JsValueAdapterType: JsValueAdapter;

    /// Makes the value `null`.
    fn js_null_create(&self) -> (r: Result<Self::JsValueAdapterType, JsError>)
        ensures
            r is Ok ==> r->Ok_0.model() == JsValueModel::null(),
    ;

    /// Makes the value `undefined`.
    fn js_undefined_create(&self) -> (r: Result<Self::JsValueAdapterType, JsError>)
        ensures
            r is Ok ==> r->Ok_0.model() == JsValueModel::undefined(),
    ;

    /// Makes a 32-bit integer.
    fn js_i32_create(&self, val: i32) -> (r: Result<Self::JsValueAdapterType, JsError>)
        ensures
            r is Ok ==> r->Ok_0.model() == JsValueModel::Plain(JsPlainValue::I32(val)),
    ;

    /// Makes a text.
    fn js_string_create(&self, val: &str) -> (r: Result<Self::JsValueAdapterType, JsError>)
        ensures
            r is Ok ==> r->Ok_0.model() == JsValueModel::Plain(JsPlainValue::String(val@)),
    ;

    /// Makes a truth value.
    fn js_boolean_create(&self, val: bool) -> (r: Result<Self::JsValueAdapterType, JsError>)
        ensures
            r is Ok ==> r->Ok_0.model() == JsValueModel::Plain(JsPlainValue::Boolean(val)),
    ;

    /// Makes a number.
    fn js_f64_create(&self, val: JsF64) -> (r: Result<Self::JsValueAdapterType, JsError>)
        ensures
            r is Ok ==> r->Ok_0.model() == JsValueModel::Plain(JsPlainValue::F64(val.bits)),
    ;

    /// Brings a detached value into the engine. For a plain value the result
    /// is what the constructor of its category returns for its content. For
    /// the object categories no conversion is defined here, and nothing is
    /// made in their place.
    fn from_js_value_facade(&self, value_facade: &JsValueFacade) -> (r: Result<
        Self::JsValueAdapterType,
        JsError,
    >)
        ensures
            match value_facade@ {
                JsFacadeModel::Plain(JsPlainValue::I32(v)) => call_ensures(
                    Self::js_i32_create,
                    (self, v),
                    r,
                ),
                JsFacadeModel::Plain(JsPlainValue::F64(bits)) => call_ensures(
                    Self::js_f64_create,
                    (self, JsF64 { bits }),
                    r,
                ),
                JsFacadeModel::Plain(JsPlainValue::String(text)) => exists|s: &str|
                    s@ == text && #[trigger] call_ensures(Self::js_string_create, (self, s), r),
                JsFacadeModel::Plain(JsPlainValue::Boolean(b)) => call_ensures(
                    Self::js_boolean_create,
                    (self, b),
                    r,
                ),
                JsFacadeModel::Plain(JsPlainValue::Null) => call_ensures(
                    Self::js_null_create,
                    (self,),
                    r,
                ),
                JsFacadeModel::Plain(JsPlainValue::Undefined) => call_ensures(
                    Self::js_undefined_create,
                    (self,),
                    r,
                ),
                JsFacadeModel::Other(kind) => r is Err && r->Err_0 == JsError::NotImplemented(kind),
            },
            r is Ok ==> value_facade@ is Plain && r->Ok_0.model() == JsValueModel::Plain(
                value_facade@->Plain_0,
            ),
    {
        match value_facade {
            JsValueFacade::I32(v) => self.js_i32_create(*v),
            JsValueFacade::F64(v) => self.js_f64_create(*v),
            JsValueFacade::String(v) => self.js_string_create(v.as_str()),
            JsValueFacade::Boolean(v) => self.js_boolean_create(*v),
            JsValueFacade::Object => Err(JsError::NotImplemented(JsValueType::Object)),
            JsValueFacade::Function => Err(JsError::NotImplemented(JsValueType::Function)),
            JsValueFacade::BigInt => Err(JsError::NotImplemented(JsValueType::BigInt)),
            JsValueFacade::Promise => Err(JsError::NotImplemented(JsValueType::Promise)),
            JsValueFacade::Date => Err(JsError::NotImplemented(JsValueType::Date)),
            JsValueFacade::Null => self.js_null_create(),
            JsValueFacade::Undefined => self.js_undefined_create(),
            JsValueFacade::Array => Err(JsError::NotImplemented(JsValueType::Array)),
        }
    }
}

/// One execution realm of an engine: every operation that makes, inspects
/// or changes values in it.
///
/// An operation that changes the realm says what the state is afterwards. A
/// failed change leaves the state as it was.
pub trait JsRealmAdapter: JsValueFactory {
    /// What a host function is handed when the realm calls it: that by
    /// which it makes the value it returns.
    type JsContextType: JsValueFactory<JsValueAdapterType = Self::JsValueAdapterType>;

    type JsPromiseAdapterType: JsPromiseAdapter<
        JsValueAdapterType = Self::JsValueAdapterType,
        JsRealmAdapterType = Self,
    >;

    /// The state of the realm.
    spec fn model(&self) -> JsRealmModel;

    /// What the engine keeps true of the realm between calls.
    spec fn inv(&self) -> bool;

    /// A realm that is in order has a state that is in order.
    proof fn inv_is_wf(&self)
        requires
            self.inv(),
        ensures
            self.model().wf(),
    ;

    /// What the functions of the engine do: a call of `function_obj` with
    /// `this_obj` and `args`, in a realm that is as `self` is, may leave the
    /// realm as `after` and return `r`.
    spec fn invoked(
        &self,
        this_obj: Option<&Self::JsValueAdapterType>,
        function_obj: &Self::JsValueAdapterType,
        args: &[Self::JsValueAdapterType],
        after: Self,
        r: Result<Self::JsValueAdapterType, JsError>,
    ) -> bool;

    /// Detaches a value from the engine. A plain value is taken over as it
    /// is; for the object categories no conversion is defined here.
    fn to_js_value_facade(&self, js_value: &Self::JsValueAdapterType) -> (r: Result<
        JsValueFacade,
        JsError,
    >)
        ensures
            js_value.model().kind().is_plain() ==> r is Ok && r->Ok_0@ is Plain
                && JsValueModel::Plain(r->Ok_0@->Plain_0) == js_value.model(),
            !js_value.model().kind().is_plain() ==> r is Err && r->Err_0
                == JsError::NotImplemented(js_value.model().kind()),
    {
        proof {
            Self::JsValueAdapterType::coercion_table(js_value.model());
        }
        match js_value.js_get_type() {
            JsValueType::I32 => Ok(JsValueFacade::I32(js_value.js_to_i32())),
            JsValueType::F64 => Ok(JsValueFacade::F64(js_value.js_to_f64())),
            JsValueType::String => Ok(JsValueFacade::String(js_value.js_to_string())),
            JsValueType::Boolean => Ok(JsValueFacade::Boolean(js_value.js_to_bool())),
            JsValueType::Object => Err(JsError::NotImplemented(JsValueType::Object)),
            JsValueType::Function => Err(JsError::NotImplemented(JsValueType::Function)),
            JsValueType::BigInt => Err(JsError::NotImplemented(JsValueType::BigInt)),
            JsValueType::Promise => Err(JsError::NotImplemented(JsValueType::Promise)),
            JsValueType::Date => Err(JsError::NotImplemented(JsValueType::Date)),
            JsValueType::Null => Ok(JsValueFacade::Null),
            JsValueType::Undefined => Ok(JsValueFacade::Undefined),
            JsValueType::Array => Err(JsError::NotImplemented(JsValueType::Array)),
        }
    }

    /// Runs a script. What a script does to the objects of the realm is the
    /// engine's affair; the instance cache is out of its reach.
    fn js_eval(&mut self, script: Script) -> (r: Result<Self::JsValueAdapterType, JsError>)
        requires
            old(self).inv(),
        ensures
            final(self).inv(),
            old(self).model().host_side_kept(final(self).model()),
            r is Err ==> r->Err_0 is ScriptError,
    ;

    /// Runs a script under the rules for modules.
    fn js_eval_module(&mut self, script: Script) -> (r: Result<
        Self::JsValueAdapterType,
        JsError,
    >)
        requires
            old(self).inv(),
        ensures
            final(self).inv(),
            old(self).model().host_side_kept(final(self).model()),
            r is Err ==> r->Err_0 is ScriptError,
    ;

    /// Registers a host class.
    fn js_proxy_install(&mut self, proxy: JsProxy)
        requires
            old(self).inv(),
        ensures
            final(self).inv(),
            final(self).model() == old(self).model().with_proxy(proxy@),
    ;

    /// Makes an instance of a host class. A class that was not installed has
    /// no instances.
    fn js_proxy_instantiate(
        &mut self,
        namespace: &[&str],
        class_name: &str,
        arguments: &[Self::JsValueAdapterType],
    ) -> (r: Result<Self::JsValueAdapterType, JsError>)
        requires
            old(self).inv(),
        ensures
            final(self).inv(),
            old(self).model().host_side_kept(final(self).model()),
            !old(self).model().proxies.contains((path_view(namespace), class_name@)) ==> r is Err
                && r->Err_0 is PropertyNotFound && final(self).model() == old(self).model(),
            r is Ok ==> r->Ok_0.model() is Object && final(self).model().is_live(
                r->Ok_0.model(),
            ),
    ;

    /// Sends an event to an instance of a host class. Nothing comes back.
    fn js_proxy_invoke_event(
        &mut self,
        proxy_handle: &JsProxyHandle,
        event_id: &str,
        event_obj: &Self::JsValueAdapterType,
    )
        requires
            old(self).inv(),
        ensures
            final(self).inv(),
            old(self).model().host_side_kept(final(self).model()),
    ;

    /// Makes a host function reachable for scripts as `name` in the
    /// namespace at `namespace`.
    fn js_install_function<F>(
        &mut self,
        namespace: &[&str],
        name: &str,
        js_function: F,
        arg_count: u32,
    ) -> (r: Result<(), JsError>) where
        F: Fn(
            &Self::JsContextType,
            &Self::JsValueAdapterType,
            &[Self::JsValueAdapterType],
        ) -> Result<Self::JsValueAdapterType, JsError> + 'static,

        requires
            old(self).inv(),
            forall|
                context: &Self::JsContextType,
                this: &Self::JsValueAdapterType,
                args: &[Self::JsValueAdapterType],
            | call_requires(js_function, (context, this, args)),
        ensures
            final(self).inv(),
            old(self).model().host_side_kept(final(self).model()),
            r is Ok ==> installed(old(self).model(), final(self).model(), path_view(namespace), name@),
            r is Err ==> final(self).model() == old(self).model(),
    ;

    /// As `js_install_function`, for a closure that carries host state.
    fn js_install_closure<F>(
        &mut self,
        namespace: &[&str],
        name: &str,
        js_function: F,
        arg_count: u32,
    ) -> (r: Result<(), JsError>) where
        F: Fn(
            &Self::JsContextType,
            &Self::JsValueAdapterType,
            &[Self::JsValueAdapterType],
        ) -> Result<Self::JsValueAdapterType, JsError> + 'static,

        requires
            old(self).inv(),
            forall|
                context: &Self::JsContextType,
                this: &Self::JsValueAdapterType,
                args: &[Self::JsValueAdapterType],
            | call_requires(js_function, (context, this, args)),
        ensures
            final(self).inv(),
            old(self).model().host_side_kept(final(self).model()),
            r is Ok ==> installed(old(self).model(), final(self).model(), path_view(namespace), name@),
            r is Err ==> final(self).model() == old(self).model(),
    ;

    /// Walks a path of property names from the global object. Nothing is
    /// created on the way: a segment that is missing, or that holds no
    /// object, fails the walk.
    fn js_get_namespace(&self, namespace: &[&str]) -> (r: Result<
        Self::JsValueAdapterType,
        JsError,
    >)
        requires
            self.inv(),
        ensures
            r is Ok ==> self.model().namespace(path_view(namespace)) == Some(r->Ok_0.model()),
            self.model().namespace(path_view(namespace)) is None ==> r is Err,
            r is Err ==> r->Err_0 is PropertyNotFound,
    ;

    /// Calls a function: the realm and the result are what the engine says
    /// that the function does.
    fn js_function_invoke(
        &mut self,
        this_obj: Option<&Self::JsValueAdapterType>,
        function_obj: &Self::JsValueAdapterType,
        args: &[Self::JsValueAdapterType],
    ) -> (r: Result<Self::JsValueAdapterType, JsError>)
        requires
            old(self).inv(),
        ensures
            final(self).inv(),
            old(self).model().host_side_kept(final(self).model()),
            r is Err ==> r->Err_0 is InvocationError,
            old(self).invoked(this_obj, function_obj, args, *final(self), r),
    ;

    /// Resolves a namespace, then calls its property `method_name` with the
    /// namespace as `this`. Where the namespace cannot be resolved or the
    /// property cannot be read, that failure is the result and the realm
    /// stays as it was; else the realm and the result are those of the call
    /// of what the property holds.
    fn js_function_invoke_by_name(
        &mut self,
        namespace: &[&str],
        method_name: &str,
        args: &[Self::JsValueAdapterType],
    ) -> (r: Result<Self::JsValueAdapterType, JsError>)
        requires
            old(self).inv(),
        ensures
            final(self).inv(),
            old(self).model().host_side_kept(final(self).model()),
            old(self).model().namespace(path_view(namespace)) is None ==> r is Err
                && r->Err_0 is PropertyNotFound && final(self).model() == old(self).model(),
            r is Err ==> r->Err_0 is PropertyNotFound || r->Err_0 is InvocationError,
            (exists|e: JsError|
                r == Err::<Self::JsValueAdapterType, JsError>(e) && #[trigger] call_ensures(
                    Self::js_get_namespace,
                    (&*old(self), namespace),
                    Err::<Self::JsValueAdapterType, JsError>(e),
                ) && *final(self) == *old(self)) || (exists|target: Self::JsValueAdapterType|
                #[trigger] call_ensures(
                    Self::js_get_namespace,
                    (&*old(self), namespace),
                    Ok::<Self::JsValueAdapterType, JsError>(target),
                ) && ((exists|e: JsError|
                    r == Err::<Self::JsValueAdapterType, JsError>(e) && #[trigger] call_ensures(
                        Self::js_object_get_property,
                        (&*old(self), &target, method_name),
                        Err::<Self::JsValueAdapterType, JsError>(e),
                    ) && *final(self) == *old(self)) || (exists|
                    function: Self::JsValueAdapterType,
                |
                    #[trigger] call_ensures(
                        Self::js_object_get_property,
                        (&*old(self), &target, method_name),
                        Ok::<Self::JsValueAdapterType, JsError>(function),
                    ) && old(self).invoked(Some(&target), &function, args, *final(self), r)))),
    {
        let target = match self.js_get_namespace(namespace) {
            Ok(target) => target,
            Err(e) => {
                return Err(e);
            },
        };
        self.js_function_invoke_member_by_name(&target, method_name, args)
    }

    /// Reads the property `method_name` of `this_obj`, then calls it with
    /// `this_obj` as `this`. Where the property cannot be read, that failure
    /// is the result and the realm stays as it was; else the realm and the
    /// result are those of the call of what the property holds.
    fn js_function_invoke_member_by_name(
        &mut self,
        this_obj: &Self::JsValueAdapterType,
        method_name: &str,
        args: &[Self::JsValueAdapterType],
    ) -> (r: Result<Self::JsValueAdapterType, JsError>)
        requires
            old(self).inv(),
        ensures
            final(self).inv(),
            old(self).model().host_side_kept(final(self).model()),
            r is Err ==> r->Err_0 is PropertyNotFound || r->Err_0 is InvocationError,
            (exists|e: JsError|
                r == Err::<Self::JsValueAdapterType, JsError>(e) && #[trigger] call_ensures(
                    Self::js_object_get_property,
                    (&*old(self), this_obj, method_name),
                    Err::<Self::JsValueAdapterType, JsError>(e),
                ) && *final(self) == *old(self)) || (exists|function: Self::JsValueAdapterType|
                #[trigger] call_ensures(
                    Self::js_object_get_property,
                    (&*old(self), this_obj, method_name),
                    Ok::<Self::JsValueAdapterType, JsError>(function),
                ) && old(self).invoked(Some(this_obj), &function, args, *final(self), r)),
    {
        let function = match self.js_object_get_property(this_obj, method_name) {
            Ok(function) => function,
            Err(e) => {
                return Err(e);
            },
        };
        self.js_function_invoke(Some(this_obj), &function, args)
    }

    /// Makes a function of a host closure without installing it anywhere.
    fn js_function_create<F>(&mut self, name: &str, js_function: F, arg_count: u32) -> (r: Result<
        Self::JsValueAdapterType,
        JsError,
    >) where
        F: Fn(
            &Self::JsContextType,
            &Self::JsValueAdapterType,
            &[Self::JsValueAdapterType],
        ) -> Result<Self::JsValueAdapterType, JsError> + 'static,

        requires
            old(self).inv(),
            forall|
                context: &Self::JsContextType,
                this: &Self::JsValueAdapterType,
                args: &[Self::JsValueAdapterType],
            | call_requires(js_function, (context, this, args)),
        ensures
            final(self).inv(),
            r is Ok ==> r->Ok_0.model() is Function && allocated(
                old(self).model(),
                final(self).model(),
                r->Ok_0.model().handle().unwrap(),
            ),
            r is Err ==> final(self).model() == old(self).model(),
    ;

    /// Removes a property. Removing what is not there changes nothing.
    fn js_object_delete_property(
        &mut self,
        object: &Self::JsValueAdapterType,
        property_name: &str,
    ) -> (r: Result<(), JsError>)
        requires
            old(self).inv(),
        ensures
            final(self).inv(),
            r is Ok ==> old(self).model().is_live(object.model()) && final(self).model() == old(
                self,
            ).model().with_properties(
                object.model(),
                without_property(old(self).model().properties(object.model()), property_name@),
            ),
            r is Err ==> final(self).model() == old(self).model(),
    ;

    /// Assigns a property. A property that exists keeps its place; a new
    /// one goes last.
    fn js_object_set_property(
        &mut self,
        object: &Self::JsValueAdapterType,
        property_name: &str,
        property: &Self::JsValueAdapterType,
    ) -> (r: Result<(), JsError>)
        requires
            old(self).inv(),
        ensures
            final(self).inv(),
            r is Ok ==> old(self).model().is_live(object.model()) && final(self).model() == old(
                self,
            ).model().with_properties(
                object.model(),
                with_property(
                    old(self).model().properties(object.model()),
                    property_name@,
                    property.model(),
                ),
            ),
            r is Err ==> final(self).model() == old(self).model(),
    ;

    /// Reads a property. A property that is not there reads as `undefined`.
    fn js_object_get_property(&self, object: &Self::JsValueAdapterType, property_name: &str) -> (r:
        Result<Self::JsValueAdapterType, JsError>)
        requires
            self.inv(),
        ensures
            r is Ok ==> r->Ok_0.model() == property_value(
                self.model().properties(object.model()),
                property_name@,
            ),
            r is Err ==> r->Err_0 is PropertyNotFound,
    ;

    /// Makes an object without properties.
    fn js_object_create(&mut self) -> (r: Result<Self::JsValueAdapterType, JsError>)
        requires
            old(self).inv(),
        ensures
            final(self).inv(),
            r is Ok ==> r->Ok_0.model() is Object && allocated(
                old(self).model(),
                final(self).model(),
                r->Ok_0.model().handle().unwrap(),
            ),
            r is Err ==> final(self).model() == old(self).model(),
    ;

    /// Makes an instance as the operator `new` does.
    fn js_object_construct(
        &mut self,
        constructor: &Self::JsValueAdapterType,
        args: &[Self::JsValueAdapterType],
    ) -> (r: Result<Self::JsValueAdapterType, JsError>)
        requires
            old(self).inv(),
        ensures
            final(self).inv(),
            old(self).model().host_side_kept(final(self).model()),
            r is Ok ==> final(self).model().is_live(r->Ok_0.model()),
            r is Err ==> r->Err_0 is InvocationError,
    ;

    /// The names of the own enumerable properties, in insertion order.
    fn js_object_get_properties(&self, object: &Self::JsValueAdapterType) -> (r: Result<
        Vec<String>,
        JsError,
    >)
        requires
            self.inv(),
        ensures
            r is Ok ==> names_view(r->Ok_0@) == property_names(
                self.model().properties(object.model()),
            ),
    ;

    /// Applies the visitor to every own enumerable property, in insertion
    /// order, and collects what it returns. The first failure ends the walk
    /// and is the result.
    fn js_object_traverse<F, R>(&self, object: &Self::JsValueAdapterType, visitor: F) -> (r:
        Result<Vec<R>, JsError>) where F: Fn(&str, &Self::JsValueAdapterType) -> Result<R, JsError>
        requires
            self.inv(),
            forall|k: &str, v: &Self::JsValueAdapterType, i: int|
                0 <= i < self.model().properties(object.model()).len() && k@
                    == #[trigger] self.model().properties(object.model())[i].0 && v.model()
                    == self.model().properties(object.model())[i].1 ==> #[trigger] call_requires(
                    visitor,
                    (k, v),
                ),
        ensures
            r matches Ok(out) ==> out@.len() == self.model().properties(object.model()).len()
                && properties_visited(visitor, self.model().properties(object.model()), out@),
            r matches Err(e) ==> call_ensures(
                Self::js_object_get_properties,
                (self, object),
                Err::<Vec<String>, JsError>(e),
            ) || exists|accepted: Seq<R>|
                property_walk_failed(
                    Self::js_object_get_property,
                    self,
                    object,
                    self.model().properties(object.model()),
                    visitor,
                    accepted,
                    e,
                ),
    {
        let names = match self.js_object_get_properties(object) {
            Ok(names) => names,
            Err(e) => {
                return Err(e);
            },
        };
        let ghost properties = self.model().properties(object.model());
        proof {
            self.inv_is_wf();
            assert(names_view(names@).len() == properties.len());
        }
        let mut out: Vec<R> = Vec::new();
        let mut i: usize = 0;
        while i < names.len()
            invariant
                self.inv(),
                properties == self.model().properties(object.model()),
                crate::model::distinct_names(properties),
                names_view(names@) == property_names(properties),
                names@.len() == properties.len(),
                0 <= i <= names@.len(),
                out@.len() == i,
                forall|k: &str, v: &Self::JsValueAdapterType, j: int|
                    0 <= j < properties.len() && k@ == #[trigger] properties[j].0 && v.model()
                        == properties[j].1 ==> #[trigger] call_requires(visitor, (k, v)),
                properties_visited(visitor, properties, out@),
            decreases names@.len() - i,
        {
            let name = names[i].as_str();
            proof {
                assert(names_view(names@)[i as int] == property_names(properties)[i as int]);
                assert(name@ == properties[i as int].0);
                lemma_distinct_position(properties, i as int);
            }
            let value = match self.js_object_get_property(object, name) {
                Ok(value) => value,
                Err(e) => {
                    proof {
                        assert(property_walk_failed(
                            Self::js_object_get_property,
                            self,
                            object,
                            properties,
                            visitor,
                            out@,
                            e,
                        ));
                    }
                    return Err(e);
                },
            };
            match visitor(name, &value) {
                Ok(result) => {
                    let ghost before = out@;
                    out.push(result);
                    proof {
                        assert forall|j: int| 0 <= j < out@.len() implies property_visited(
                            visitor,
                            properties[j].0,
                            properties[j].1,
                            Ok::<R, JsError>(#[trigger] out@[j]),
                        ) by {
                            if j < i {
                                assert(out@[j] == before[j]);
                            }
                        }
                    }
                },
                Err(e) => {
                    proof {
                        assert(property_visited(
                            visitor,
                            properties[i as int].0,
                            properties[i as int].1,
                            Err::<R, JsError>(e),
                        ));
                        assert(property_walk_failed(
                            Self::js_object_get_property,
                            self,
                            object,
                            properties,
                            visitor,
                            out@,
                            e,
                        ));
                    }
                    return Err(e);
                },
            }
            i = i + 1;
        }
        Ok(out)
    }

    /// Reads an element. Reading past the end gives `undefined`.
    fn js_array_get_element(&self, array: &Self::JsValueAdapterType, index: u32) -> (r: Result<
        Self::JsValueAdapterType,
        JsError,
    >)
        requires
            self.inv(),
        ensures
            r is Ok ==> self.model().is_array(array.model()) && r->Ok_0.model() == element_value(
                self.model().elements(array.model()),
                index as int,
            ),
    ;

    /// Assigns an element. Assigning past the end fills the gap with
    /// `undefined`.
    fn js_array_set_element(
        &mut self,
        array: &Self::JsValueAdapterType,
        index: u32,
        element: Self::JsValueAdapterType,
    ) -> (r: Result<(), JsError>)
        requires
            old(self).inv(),
            index < u32::MAX,
        ensures
            final(self).inv(),
            r is Ok ==> old(self).model().is_array(array.model()) && final(self).model() == old(
                self,
            ).model().with_elements(
                array.model(),
                with_element(
                    old(self).model().elements(array.model()),
                    index as int,
                    element.model(),
                ),
            ),
            r is Err ==> final(self).model() == old(self).model(),
    ;

    /// The number of elements.
    fn js_array_get_length(&self, array: &Self::JsValueAdapterType) -> (r: Result<u32, JsError>)
        requires
            self.inv(),
        ensures
            r is Ok ==> self.model().is_array(array.model()) && r->Ok_0 == self.model().elements(
                array.model(),
            ).len(),
    ;

    /// Makes an array without elements.
    fn js_array_create(&mut self) -> (r: Result<Self::JsValueAdapterType, JsError>)
        requires
            old(self).inv(),
        ensures
            final(self).inv(),
            r is Ok ==> r->Ok_0.model() is Array && allocated(
                old(self).model(),
                final(self).model(),
                r->Ok_0.model().handle().unwrap(),
            ),
            r is Err ==> final(self).model() == old(self).model(),
    ;

    /// Applies the visitor to every element, in ascending order of index,
    /// and collects what it returns. The first failure ends the walk and is
    /// the result.
    fn js_array_traverse<F, R>(&self, array: &Self::JsValueAdapterType, visitor: F) -> (r: Result<
        Vec<R>,
        JsError,
    >) where F: Fn(u32, &Self::JsValueAdapterType) -> Result<R, JsError>
        requires
            self.inv(),
            forall|i: u32, v: &Self::JsValueAdapterType|
                i < self.model().elements(array.model()).len() && v.model()
                    == self.model().elements(array.model())[i as int] ==> #[trigger] call_requires(
                    visitor,
                    (i, v),
                ),
        ensures
            r matches Ok(out) ==> out@.len() == self.model().elements(array.model()).len()
                && elements_visited(visitor, self.model().elements(array.model()), out@),
            r matches Err(e) ==> call_ensures(
                Self::js_array_get_length,
                (self, array),
                Err::<u32, JsError>(e),
            ) || exists|accepted: Seq<R>|
                element_walk_failed(
                    Self::js_array_get_element,
                    self,
                    array,
                    self.model().elements(array.model()),
                    visitor,
                    accepted,
                    e,
                ),
    {
        let length = match self.js_array_get_length(array) {
            Ok(length) => length,
            Err(e) => {
                return Err(e);
            },
        };
        let ghost elements = self.model().elements(array.model());
        let mut out: Vec<R> = Vec::new();
        let mut i: u32 = 0;
        while i < length
            invariant
                self.inv(),
                elements == self.model().elements(array.model()),
                length == elements.len(),
                0 <= i <= length,
                out@.len() == i,
                forall|k: u32, v: &Self::JsValueAdapterType|
                    k < elements.len() && v.model() == elements[k as int] ==> #[trigger] call_requires(
                        visitor,
                        (k, v),
                    ),
                elements_visited(visitor, elements, out@),
            decreases length - i,
        {
            let value = match self.js_array_get_element(array, i) {
                Ok(value) => value,
                Err(e) => {
                    proof {
                        assert(element_walk_failed(
                            Self::js_array_get_element,
                            self,
                            array,
                            elements,
                            visitor,
                            out@,
                            e,
                        ));
                    }
                    return Err(e);
                },
            };
            match visitor(i, &value) {
                Ok(result) => {
                    let ghost before = out@;
                    out.push(result);
                    proof {
                        assert forall|j: int| 0 <= j < out@.len() implies element_visited(
                            visitor,
                            j as u32,
                            elements[j],
                            Ok::<R, JsError>(#[trigger] out@[j]),
                        ) by {
                            if j < i {
                                assert(out@[j] == before[j]);
                            }
                        }
                    }
                },
                Err(e) => {
                    proof {
                        assert(element_visited(
                            visitor,
                            i,
                            elements[i as int],
                            Err::<R, JsError>(e),
                        ));
                        assert(element_walk_failed(
                            Self::js_array_get_element,
                            self,
                            array,
                            elements,
                            visitor,
                            out@,
                            e,
                        ));
                    }
                    return Err(e);
                },
            }
            i = i + 1;
        }
        Ok(out)
    }

    /// Makes a pending promise.
    fn js_promise_create(&mut self) -> (r: Result<Self::JsPromiseAdapterType, JsError>)
        requires
            old(self).inv(),
        ensures
            final(self).inv(),
            old(self).model().host_side_kept(final(self).model()),
            r is Ok ==> r->Ok_0.state() is Pending && r->Ok_0.inv(),
    ;

    /// Keeps a value alive under a new identifier. The cache hands out at
    /// most as many identifiers as there are non-negative 32-bit integers.
    fn js_cache_add(&mut self, object: Self::JsValueAdapterType) -> (id: i32)
        requires
            old(self).inv(),
            old(self).model().issued < i32::MAX,
        ensures
            final(self).inv(),
            !old(self).model().cache.contains_key(id),
            final(self).model() == old(self).model().with_cached(id, object.model()),
    ;

    /// Drops the value kept under `id`.
    fn js_cache_dispose(&mut self, id: i32)
        requires
            old(self).inv(),
            old(self).model().cache.contains_key(id),
        ensures
            final(self).inv(),
            final(self).model() == old(self).model().with_cache(
                old(self).model().cache.remove(id),
            ),
    ;

    /// Lends the value kept under `id` to `consumer`. The value stays.
    fn js_cache_with<C, R>(&self, id: i32, consumer: C) -> (r: R) where
        C: FnOnce(&Self::JsValueAdapterType) -> R,

        requires
            self.inv(),
            self.model().cache.contains_key(id),
            forall|v: &Self::JsValueAdapterType|
                v.model() == self.model().cache[id] ==> call_requires(consumer, (v,)),
        ensures
            exists|v: &Self::JsValueAdapterType|
                v.model() == self.model().cache[id] && #[trigger] call_ensures(consumer, (v,), r),
    ;

    /// Hands out the value kept under `id` and forgets the identifier.
    fn js_cache_consume(&mut self, id: i32) -> (value: Self::JsValueAdapterType)
        requires
            old(self).inv(),
            old(self).model().cache.contains_key(id),
        ensures
            final(self).inv(),
            value.model() == old(self).model().cache[id],
            final(self).model() == old(self).model().with_cache(
                old(self).model().cache.remove(id),
            ),
    ;

    /// `object instanceof constructor`: whether the prototype of the
    /// constructor's instances stands in the prototype chain of `object`.
    fn js_instance_of(
        &self,
        object: &Self::JsValueAdapterType,
        constructor: &Self::JsValueAdapterType,
    ) -> (b: bool)
        requires
            self.inv(),
        ensures
            b == self.model().instance_of(object.model(), constructor.model()),
    ;
}

/// A runtime: the realms of an engine, each under its identifier. One of
/// them is the main realm, from the making of the runtime on.
///
/// A realm is handed out for use, and the runtime holds afterwards what the
/// user made of it.
pub trait JsRuntimeAdapter: Sized {
    type JsRealmAdapterType: JsRealmAdapter;

    /// The realms by their identifiers.
    spec fn realms(&self) -> Map<Seq<char>, JsRealmModel>;

    /// The identifier of the main realm.
    spec fn main_realm_id(&self) -> Seq<char>;

    /// What the engine keeps true of the runtime between calls.
    spec fn inv(&self) -> bool;

    /// The main realm is among the realms.
    proof fn inv_has_main_realm(&self)
        requires
            self.inv(),
        ensures
            self.realms().contains_key(self.main_realm_id()),
    ;

    /// Makes a realm under a new identifier. An identifier that is taken
    /// is refused with `DuplicateRealm`, and nothing changes.
    fn js_create_realm(&mut self, id: &str) -> (r: Result<&mut Self::JsRealmAdapterType, JsError>)
        requires
            old(self).inv(),
        ensures
            final(self).main_realm_id() == old(self).main_realm_id(),
            r is Err ==> final(self).inv() && final(self).realms() == old(self).realms(),
            old(self).realms().contains_key(id@) ==> (r matches Err(JsError::DuplicateRealm(name))
                && name@ == id@),
            r matches Ok(realm) ==> !old(self).realms().contains_key(id@) && realm.inv()
                && realm.model().cache == Map::<i32, JsValueModel>::empty()
                && final(self).realms() == old(self).realms().insert(id@, final(realm).model())
                && (final(realm).inv() ==> final(self).inv()),
    ;

    /// The realm under `id`, where there is one.
    fn js_get_realm(&mut self, id: &str) -> (r: Option<&mut Self::JsRealmAdapterType>)
        requires
            old(self).inv(),
        ensures
            final(self).main_realm_id() == old(self).main_realm_id(),
            r is Some <==> old(self).realms().contains_key(id@),
            r is None ==> final(self).inv() && final(self).realms() == old(self).realms(),
            r matches Some(realm) ==> realm.inv() && realm.model() == old(self).realms()[id@]
                && final(self).realms() == old(self).realms().insert(id@, final(realm).model())
                && (final(realm).inv() ==> final(self).inv()),
    ;

    /// The main realm.
    fn js_get_main_realm(&mut self) -> (realm: &mut Self::JsRealmAdapterType)
        requires
            old(self).inv(),
        ensures
            final(self).main_realm_id() == old(self).main_realm_id(),
            realm.inv(),
            realm.model() == old(self).realms()[old(self).main_realm_id()],
            final(self).realms() == old(self).realms().insert(
                old(self).main_realm_id(),
                final(realm).model(),
            ),
            final(realm).inv() ==> final(self).inv(),
    ;
}

/// A plain value that was detached and brought back is the value it was:
/// the one made has the category of the one detached, and each coercion of
/// the one gives what that of the other gives.
pub proof fn lemma_facade_round_trip<A: JsRealmAdapter>(
    realm: &A,
    native: &A::JsValueAdapterType,
    facade: JsValueFacade,
    back: A::JsValueAdapterType,
)
    requires
        call_ensures(A::to_js_value_facade, (realm, native), Ok::<JsValueFacade, JsError>(facade)),
        call_ensures(
            A::from_js_value_facade,
            (realm, &facade),
            Ok::<A::JsValueAdapterType, JsError>(back),
        ),
    ensures
        native.model().kind().is_plain(),
        back.model() == native.model(),
        back.model().kind() == native.model().kind(),
        A::JsValueAdapterType::bool_of(back.model()) == A::JsValueAdapterType::bool_of(
            native.model(),
        ),
        A::JsValueAdapterType::i32_of(back.model()) == A::JsValueAdapterType::i32_of(
            native.model(),
        ),
        A::JsValueAdapterType::f64_of(back.model()) == A::JsValueAdapterType::f64_of(
            native.model(),
        ),
        A::JsValueAdapterType::string_of(back.model()) == A::JsValueAdapterType::string_of(
            native.model(),
        ),
{
}

} // verus!
